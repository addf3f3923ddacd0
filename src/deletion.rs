//! What to hand to the deletion command: the names in lexicographic order and
//! its arguments, unless there is nothing to delete or the run is a dry run.
use vstd::prelude::*;

use crate::retention::names_of;

verus! {

/// `a` comes no later than `b` in lexicographic order of characters.
pub open spec fn lex_le(a: Seq<char>, b: Seq<char>) -> bool
    decreases a.len(),
{
    if a.len() == 0 {
        true
    } else if b.len() == 0 {
        false
    } else if a[0] != b[0] {
        a[0] < b[0]
    } else {
        lex_le(a.drop_first(), b.drop_first())
    }
}

pub open spec fn sorted_names(s: Seq<Seq<char>>) -> bool {
    forall|i: int, j: int| 0 <= i < j < s.len() ==> lex_le(#[trigger] s[i], #[trigger] s[j])
}

/// Arguments of the deletion command: `-d`, then `-f <name>` for each name.
pub open spec fn delete_args(names: Seq<Seq<char>>) -> Seq<Seq<char>>
    decreases names.len(),
{
    if names.len() == 0 {
        seq!["-d"@]
    } else {
        delete_args(names.drop_last()) + seq!["-f"@, names.last()]
    }
}

pub proof fn lemma_lex_le_total(a: Seq<char>, b: Seq<char>)
    ensures
        lex_le(a, b) || lex_le(b, a),
    decreases a.len(),
{
    if a.len() > 0 && b.len() > 0 && a[0] == b[0] {
        lemma_lex_le_total(a.drop_first(), b.drop_first());
    }
}

pub proof fn lemma_lex_le_transitive(a: Seq<char>, b: Seq<char>, c: Seq<char>)
    requires
        lex_le(a, b),
        lex_le(b, c),
    ensures
        lex_le(a, c),
    decreases a.len(),
{
    if a.len() > 0 && b.len() > 0 && c.len() > 0 && a[0] == b[0] && b[0] == c[0] {
        lemma_lex_le_transitive(a.drop_first(), b.drop_first(), c.drop_first());
    }
}

/// Whether `a` comes no later than `b` in lexicographic order.
fn name_le(a: &str, b: &str) -> (r: bool)
    ensures
        r == lex_le(a@, b@),
{
    let na = a.unicode_len();
    let nb = b.unicode_len();
    let mut i: usize = 0;
    assert(a@.subrange(0, na as int) == a@);
    assert(b@.subrange(0, nb as int) == b@);
    while i < na && i < nb
        invariant
            na == a@.len(),
            nb == b@.len(),
            i <= na,
            i <= nb,
            lex_le(a@, b@) == lex_le(a@.subrange(i as int, na as int), b@.subrange(i as int, nb as int)),
        decreases na - i,
    {
        let ca = a.get_char(i);
        let cb = b.get_char(i);
        let ghost sa = a@.subrange(i as int, na as int);
        let ghost sb = b@.subrange(i as int, nb as int);
        assert(sa[0] == ca && sb[0] == cb);
        if ca != cb {
            return ca < cb;
        }
        assert(sa.drop_first() == a@.subrange(i + 1, na as int));
        assert(sb.drop_first() == b@.subrange(i + 1, nb as int));
        i = i + 1;
    }
    i == na
}

/// The names in lexicographic order.
pub fn sort_names(names: &Vec<String>) -> (r: Vec<String>)
    ensures
        names_of(r@).to_multiset() == names_of(names@).to_multiset(),
        sorted_names(names_of(r@)),
{
    let mut out: Vec<String> = Vec::new();
    let mut k: usize = 0;
    proof {
        assert(names_of(out@) =~= names_of(names@).subrange(0, 0));
    }
    while k < names.len()
        invariant
            k <= names.len(),
            names_of(out@).to_multiset() == names_of(names@).subrange(0, k as int).to_multiset(),
            sorted_names(names_of(out@)),
        decreases names.len() - k,
    {
        let x = &names[k];
        let mut p: usize = 0;
        while p < out.len() && name_le(out[p].as_str(), x.as_str())
            invariant
                p <= out.len(),
                forall|q: int| 0 <= q < p ==> lex_le(#[trigger] out[q]@, x@),
            decreases out.len() - p,
        {
            p = p + 1;
        }
        let ghost before = names_of(out@);
        proof {
            if p < out.len() {
                lemma_lex_le_total(out[p as int]@, x@);
            }
        }
        out.insert(p, x.clone());
        proof {
            let after = names_of(out@);
            assert(after =~= before.insert(p as int, x@));
            assert forall|i: int, j: int| 0 <= i < j < after.len() implies lex_le(
                #[trigger] after[i],
                #[trigger] after[j],
            ) by {
                if j == p {
                } else if i == p {
                    if j > p + 1 {
                        lemma_lex_le_transitive(x@, before[p as int], before[j - 1]);
                    }
                } else if i < p && j > p {
                    assert(lex_le(before[i], before[j - 1]));
                } else {
                }
            }
            let pre = names_of(names@).subrange(0, k as int);
            assert(names_of(names@).subrange(0, k + 1) =~= pre.push(x@));
            assert(pre.push(x@) =~= pre.insert(pre.len() as int, x@));
            vstd::seq_lib::to_multiset_insert(before, p as int, x@);
            vstd::seq_lib::to_multiset_insert(pre, pre.len() as int, x@);
        }
        k = k + 1;
    }
    proof {
        assert(names_of(names@).subrange(0, names.len() as int) =~= names_of(names@));
    }
    out
}

/// The arguments of the deletion command for `names`.
pub fn deletion_args(names: &Vec<String>) -> (r: Vec<String>)
    ensures
        names_of(r@) == delete_args(names_of(names@)),
{
    let mut args: Vec<String> = Vec::new();
    args.push(String::from_str("-d"));
    let mut k: usize = 0;
    proof {
        assert(names_of(names@).subrange(0, 0) =~= Seq::<Seq<char>>::empty());
        assert(names_of(args@) =~= delete_args(names_of(names@).subrange(0, 0)));
    }
    while k < names.len()
        invariant
            k <= names.len(),
            names_of(args@) == delete_args(names_of(names@).subrange(0, k as int)),
        decreases names.len() - k,
    {
        let ghost before = names_of(args@);
        args.push(String::from_str("-f"));
        args.push(names[k].clone());
        proof {
            let pre = names_of(names@).subrange(0, k as int);
            let cur = names_of(names@).subrange(0, k + 1);
            assert(cur.drop_last() =~= pre);
            assert(names_of(args@) =~= before + seq!["-f"@, names[k as int]@]);
        }
        k = k + 1;
    }
    proof {
        assert(names_of(names@).subrange(0, names.len() as int) =~= names_of(names@));
    }
    args
}

/// The names to delete, sorted, and the command's arguments; no command when
/// there is nothing to delete or on a dry run.
pub struct DeletionPlan {
    pub names: Vec<String>,
    pub command_args: Option<Vec<String>>,
}

/// Plans the deletion of `snapshot_names`.
pub fn plan_deletion(snapshot_names: &Vec<String>, dry_run: bool) -> (r: DeletionPlan)
    ensures
        names_of(r.names@).to_multiset() == names_of(snapshot_names@).to_multiset(),
        sorted_names(names_of(r.names@)),
        r.command_args is None <==> (dry_run || snapshot_names.len() == 0),
        r.command_args matches Some(a) ==> names_of(a@) == delete_args(names_of(r.names@)),
{
    let names = sort_names(snapshot_names);
    proof {
        vstd::seq_lib::to_multiset_len(names_of(names@));
        vstd::seq_lib::to_multiset_len(names_of(snapshot_names@));
    }
    if dry_run || names.len() == 0 {
        DeletionPlan { names, command_args: None }
    } else {
        let args = deletion_args(&names);
        DeletionPlan { names, command_args: Some(args) }
    }
}

} // verus!
