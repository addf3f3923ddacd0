//! Union of the tiers, the always-kept newest snapshot, and the names to delete.
use vstd::prelude::*;

use crate::matcher::{
    ints, ixs, is_sorted_listing, picks, select_indices, stamps_of, Generation, SnapshotTimestamp,
};

verus! {

/// A named backup and the second at which it was taken.
#[derive(Clone, Debug, PartialEq)]
pub struct Snapshot {
    pub name: String,
    pub ts: i64,
}

impl SnapshotTimestamp for Snapshot {
    open spec fn spec_timestamp(&self) -> i64 {
        self.ts
    }

    fn timestamp(&self) -> (r: i64) {
        self.ts
    }
}

/// Every tier of the policy has a positive interval.
pub open spec fn valid_policy(gens: Seq<Generation>) -> bool {
    forall|i: int| 0 <= i < gens.len() ==> (#[trigger] gens[i]).interval > 0
}

pub open spec fn names_of(v: Seq<String>) -> Seq<Seq<char>> {
    Seq::new(v.len(), |i: int| v[i]@)
}

/// Index of the last of `ts[0..n]` with the greatest timestamp.
pub open spec fn latest_in_prefix(ts: Seq<int>, n: nat) -> int
    decreases n,
{
    if n <= 1 {
        0
    } else {
        let p = latest_in_prefix(ts, (n - 1) as nat);
        if ts[n - 1] >= ts[p] {
            n - 1
        } else {
            p
        }
    }
}

/// Index of the newest snapshot; among equal timestamps the last one listed.
pub open spec fn latest(ts: Seq<int>) -> int {
    latest_in_prefix(ts, ts.len())
}

/// Position `k` is picked by some tier of `gens`.
pub open spec fn in_some_tier(ts: Seq<int>, gens: Seq<Generation>, now: int, k: int) -> bool
    decreases gens.len(),
{
    if gens.len() == 0 {
        false
    } else {
        in_some_tier(ts, gens.drop_last(), now, k) || picks(
            ts,
            now,
            gens.last().interval as int,
            gens.last().count as nat,
        ).contains(k)
    }
}

/// Position `k` is kept: some tier picks it, or it is the newest snapshot.
pub open spec fn is_kept(ts: Seq<int>, gens: Seq<Generation>, now: int, k: int) -> bool {
    in_some_tier(ts, gens, now, k) || (ts.len() > 0 && k == latest(ts))
}

/// Names of the kept snapshots among the first `n`, each once, in catalog order.
pub open spec fn keep_list(snaps: Seq<Snapshot>, gens: Seq<Generation>, now: int, n: nat) -> Seq<
    Seq<char>,
>
    decreases n,
{
    if n == 0 {
        Seq::empty()
    } else {
        let prev = keep_list(snaps, gens, now, (n - 1) as nat);
        let nm = snaps[n - 1].name@;
        if is_kept(stamps_of(snaps), gens, now, n - 1) && !prev.contains(nm) {
            prev.push(nm)
        } else {
            prev
        }
    }
}

/// Names of the first `n` snapshots that are not in `keep`, each once, in catalog order.
pub open spec fn delete_list(snaps: Seq<Snapshot>, keep: Seq<Seq<char>>, n: nat) -> Seq<Seq<char>>
    decreases n,
{
    if n == 0 {
        Seq::empty()
    } else {
        let prev = delete_list(snaps, keep, (n - 1) as nat);
        let nm = snaps[n - 1].name@;
        if !keep.contains(nm) && !prev.contains(nm) {
            prev.push(nm)
        } else {
            prev
        }
    }
}

/// The names that the policy keeps.
pub open spec fn keep_names(snaps: Seq<Snapshot>, gens: Seq<Generation>, now: int) -> Seq<
    Seq<char>,
> {
    keep_list(snaps, gens, now, snaps.len())
}

/// The names that the policy deletes.
pub open spec fn delete_names(snaps: Seq<Snapshot>, gens: Seq<Generation>, now: int) -> Seq<
    Seq<char>,
> {
    delete_list(snaps, keep_names(snaps, gens, now), snaps.len())
}

/// Every name in the catalog.
pub open spec fn all_names(snaps: Seq<Snapshot>) -> Set<Seq<char>> {
    Set::new(|nm: Seq<char>| exists|k: int| 0 <= k < snaps.len() && #[trigger] snaps[k].name@ == nm)
}

pub proof fn lemma_latest_in_prefix_is_max(ts: Seq<int>, n: nat)
    requires
        1 <= n <= ts.len(),
    ensures
        0 <= latest_in_prefix(ts, n) < n,
        forall|j: int| 0 <= j < n ==> #[trigger] ts[j] <= ts[latest_in_prefix(ts, n)],
    decreases n,
{
    if n > 1 {
        lemma_latest_in_prefix_is_max(ts, (n - 1) as nat);
    }
}

/// Index of the newest timestamp; among equal ones the last.
fn latest_index(ts: &Vec<i64>) -> (r: usize)
    requires
        ts.len() > 0,
    ensures
        r == latest(ints(ts@)),
        r < ts.len(),
{
    let ghost s = ints(ts@);
    let mut best: usize = 0;
    let mut i: usize = 1;
    while i < ts.len()
        invariant
            1 <= i <= ts.len(),
            s == ints(ts@),
            best == latest_in_prefix(s, i as nat),
        decreases ts.len() - i,
    {
        proof {
            lemma_latest_in_prefix_is_max(s, i as nat);
        }
        if ts[i] >= ts[best] {
            best = i;
        }
        i = i + 1;
    }
    proof {
        lemma_latest_in_prefix_is_max(s, ts.len() as nat);
    }
    best
}

fn contains_name(v: &Vec<String>, nm: &String) -> (r: bool)
    ensures
        r == names_of(v@).contains(nm@),
{
    let mut i: usize = 0;
    while i < v.len()
        invariant
            i <= v.len(),
            forall|q: int| 0 <= q < i ==> (#[trigger] v[q])@ != nm@,
        decreases v.len() - i,
    {
        if v[i] == *nm {
            proof {
                assert(names_of(v@)[i as int] == nm@);
            }
            return true;
        }
        i = i + 1;
    }
    proof {
        if names_of(v@).contains(nm@) {
            let q = choose|q: int| 0 <= q < names_of(v@).len() && names_of(v@)[q] == nm@;
            assert(v[q]@ == nm@);
        }
    }
    false
}

fn timestamps_of(snapshots: &Vec<Snapshot>) -> (r: Vec<i64>)
    ensures
        r.len() == snapshots.len(),
        ints(r@) == stamps_of(snapshots@),
{
    let mut ts: Vec<i64> = Vec::new();
    let mut j: usize = 0;
    while j < snapshots.len()
        invariant
            j <= snapshots.len(),
            ts.len() == j,
            forall|q: int| 0 <= q < j ==> #[trigger] ts[q] == snapshots[q].ts,
        decreases snapshots.len() - j,
    {
        ts.push(snapshots[j].ts);
        j = j + 1;
    }
    proof {
        assert(ints(ts@) =~= stamps_of(snapshots@));
    }
    ts
}

/// Flags, one per snapshot, of those kept by the policy.
fn kept_flags(ts: &Vec<i64>, generations: &Vec<Generation>, now: i64) -> (r: Vec<bool>)
    requires
        valid_policy(generations@),
    ensures
        r.len() == ts.len(),
        forall|k: int|
            0 <= k < ts.len() ==> (#[trigger] r[k] <==> is_kept(
                ints(ts@),
                generations@,
                now as int,
                k,
            )),
{
    let ghost s = ints(ts@);
    let n = ts.len();
    let mut kept: Vec<bool> = Vec::new();
    let mut j: usize = 0;
    while j < n
        invariant
            j <= n,
            kept.len() == j,
            forall|q: int| 0 <= q < j ==> !(#[trigger] kept[q]),
        decreases n - j,
    {
        kept.push(false);
        j = j + 1;
    }
    let mut gi: usize = 0;
    while gi < generations.len()
        invariant
            n == ts.len(),
            s == ints(ts@),
            valid_policy(generations@),
            gi <= generations.len(),
            kept.len() == n,
            forall|k: int|
                0 <= k < n ==> (#[trigger] kept[k] <==> in_some_tier(
                    s,
                    generations@.subrange(0, gi as int),
                    now as int,
                    k,
                )),
        decreases generations.len() - gi,
    {
        let g = &generations[gi];
        assert(g.interval > 0);
        let sel = select_indices(ts, g, now);
        let ghost chosen = picks(s, now as int, g.interval as int, g.count as nat);
        let mut q: usize = 0;
        while q < sel.len()
            invariant
                n == ts.len(),
                s == ints(ts@),
                gi < generations.len(),
                kept.len() == n,
                q <= sel.len(),
                is_sorted_listing(s, ixs(sel@), chosen),
                forall|k: int|
                    0 <= k < n ==> (#[trigger] kept[k] <==> (in_some_tier(
                        s,
                        generations@.subrange(0, gi as int),
                        now as int,
                        k,
                    ) || ixs(sel@).subrange(0, q as int).contains(k))),
            decreases sel.len() - q,
        {
            assert(ixs(sel@)[q as int] == sel[q as int] as int);
            let x = sel[q];
            kept.set(x, true);
            proof {
                let pre = ixs(sel@).subrange(0, q as int);
                let post = ixs(sel@).subrange(0, q + 1);
                assert(post == pre.push(x as int));
                assert forall|k: int| post.contains(k) <==> (pre.contains(k) || k == x as int) by {
                    if post.contains(k) {
                        let w = choose|w: int| 0 <= w < post.len() && post[w] == k;
                        if w < pre.len() {
                            assert(pre[w] == k);
                        }
                    }
                    if pre.contains(k) {
                        let w = choose|w: int| 0 <= w < pre.len() && pre[w] == k;
                        assert(post[w] == k);
                    }
                    if k == x as int {
                        assert(post[q as int] == k);
                    }
                }
            }
            q = q + 1;
        }
        proof {
            assert(ixs(sel@).subrange(0, sel.len() as int) == ixs(sel@));
            let gs = generations@.subrange(0, gi + 1);
            assert(gs.drop_last() == generations@.subrange(0, gi as int));
            assert(gs.last() == *g);
        }
        gi = gi + 1;
    }
    proof {
        assert(generations@.subrange(0, generations.len() as int) == generations@);
    }
    if n > 0 {
        let li = latest_index(ts);
        kept.set(li, true);
    }
    kept
}

/// The names that the policy keeps: those some tier picks, and the newest
/// snapshot's; each once, in catalog order.
pub fn keep_generations(
    snapshots: &Vec<Snapshot>,
    generations: &Vec<Generation>,
    now: i64,
) -> (r: Vec<String>)
    requires
        valid_policy(generations@),
    ensures
        names_of(r@) == keep_names(snapshots@, generations@, now as int),
{
    let ts = timestamps_of(snapshots);
    let kept = kept_flags(&ts, generations, now);
    let mut out: Vec<String> = Vec::new();
    let mut k: usize = 0;
    while k < snapshots.len()
        invariant
            k <= snapshots.len(),
            kept.len() == snapshots.len(),
            ints(ts@) == stamps_of(snapshots@),
            forall|j: int|
                0 <= j < snapshots.len() ==> (#[trigger] kept[j] <==> is_kept(
                    stamps_of(snapshots@),
                    generations@,
                    now as int,
                    j,
                )),
            names_of(out@) == keep_list(snapshots@, generations@, now as int, k as nat),
        decreases snapshots.len() - k,
    {
        if kept[k] && !contains_name(&out, &snapshots[k].name) {
            out.push(snapshots[k].name.clone());
            proof {
                assert(names_of(out@) =~= keep_list(
                    snapshots@,
                    generations@,
                    now as int,
                    (k + 1) as nat,
                ));
            }
        }
        k = k + 1;
    }
    out
}

/// The names to delete: every name of the catalog that the policy does not keep;
/// each once, in catalog order.
pub fn select_snapshots_to_delete(
    generations: &Vec<Generation>,
    now: i64,
    snapshots: &Vec<Snapshot>,
) -> (r: Vec<String>)
    requires
        valid_policy(generations@),
    ensures
        names_of(r@) == delete_names(snapshots@, generations@, now as int),
{
    let keep = keep_generations(snapshots, generations, now);
    let ghost kn = keep_names(snapshots@, generations@, now as int);
    let mut out: Vec<String> = Vec::new();
    let mut k: usize = 0;
    while k < snapshots.len()
        invariant
            k <= snapshots.len(),
            names_of(keep@) == kn,
            names_of(out@) == delete_list(snapshots@, kn, k as nat),
        decreases snapshots.len() - k,
    {
        if !contains_name(&keep, &snapshots[k].name) && !contains_name(&out, &snapshots[k].name) {
            out.push(snapshots[k].name.clone());
            proof {
                assert(names_of(out@) =~= delete_list(snapshots@, kn, (k + 1) as nat));
            }
        }
        k = k + 1;
    }
    out
}


/// A name is among the first `n` kept names exactly when some kept snapshot
/// among the first `n` carries it.
pub proof fn lemma_keep_list_members(
    snaps: Seq<Snapshot>,
    gens: Seq<Generation>,
    now: int,
    n: nat,
)
    requires
        n <= snaps.len(),
    ensures
        forall|nm: Seq<char>|
            #[trigger] keep_list(snaps, gens, now, n).contains(nm) <==> exists|k: int|
                0 <= k < n && is_kept(stamps_of(snaps), gens, now, k) && #[trigger] snaps[k].name@
                    == nm,
    decreases n,
{
    if n > 0 {
        lemma_keep_list_members(snaps, gens, now, (n - 1) as nat);
        let prev = keep_list(snaps, gens, now, (n - 1) as nat);
        let cur = keep_list(snaps, gens, now, n);
        assert forall|nm: Seq<char>| #[trigger] cur.contains(nm) <==> exists|k: int|
            0 <= k < n && is_kept(stamps_of(snaps), gens, now, k) && #[trigger] snaps[k].name@
                == nm by {
            if cur.contains(nm) {
                let w = choose|w: int| 0 <= w < cur.len() && cur[w] == nm;
                if cur == prev {
                    assert(prev.contains(nm));
                } else if w < prev.len() {
                    assert(prev[w] == nm);
                    assert(prev.contains(nm));
                } else {
                    assert(is_kept(stamps_of(snaps), gens, now, n - 1));
                    assert(snaps[n - 1].name@ == nm);
                }
            }
            if exists|k: int|
                0 <= k < n && is_kept(stamps_of(snaps), gens, now, k) && #[trigger] snaps[k].name@
                    == nm {
                let k = choose|k: int|
                    0 <= k < n && is_kept(stamps_of(snaps), gens, now, k) && #[trigger] snaps[k].name@
                        == nm;
                if k < n - 1 {
                    assert(prev.contains(nm));
                    let w = choose|w: int| 0 <= w < prev.len() && prev[w] == nm;
                    assert(cur[w] == nm);
                } else if !prev.contains(nm) {
                    assert(cur[prev.len() as int] == nm);
                } else {
                    let w = choose|w: int| 0 <= w < prev.len() && prev[w] == nm;
                    assert(cur[w] == nm);
                }
            }
        }
    }
}

/// A name is among the first `n` deleted names exactly when one of the first
/// `n` snapshots carries it and `keep` does not hold it.
pub proof fn lemma_delete_list_members(snaps: Seq<Snapshot>, keep: Seq<Seq<char>>, n: nat)
    requires
        n <= snaps.len(),
    ensures
        forall|nm: Seq<char>|
            #[trigger] delete_list(snaps, keep, n).contains(nm) <==> (!keep.contains(nm)
                && exists|k: int| 0 <= k < n && #[trigger] snaps[k].name@ == nm),
    decreases n,
{
    if n > 0 {
        lemma_delete_list_members(snaps, keep, (n - 1) as nat);
        let prev = delete_list(snaps, keep, (n - 1) as nat);
        let cur = delete_list(snaps, keep, n);
        assert forall|nm: Seq<char>| #[trigger] cur.contains(nm) <==> (!keep.contains(nm)
            && exists|k: int| 0 <= k < n && #[trigger] snaps[k].name@ == nm) by {
            if cur.contains(nm) {
                let w = choose|w: int| 0 <= w < cur.len() && cur[w] == nm;
                if cur == prev {
                    assert(prev.contains(nm));
                } else if w < prev.len() {
                    assert(prev[w] == nm);
                } else {
                    assert(snaps[n - 1].name@ == nm);
                }
            }
            if !keep.contains(nm) && exists|k: int| 0 <= k < n && #[trigger] snaps[k].name@ == nm {
                let k = choose|k: int| 0 <= k < n && #[trigger] snaps[k].name@ == nm;
                if k < n - 1 {
                    assert(prev.contains(nm));
                    let w = choose|w: int| 0 <= w < prev.len() && prev[w] == nm;
                    assert(cur[w] == nm);
                } else if !prev.contains(nm) {
                    assert(cur[prev.len() as int] == nm);
                } else {
                    let w = choose|w: int| 0 <= w < prev.len() && prev[w] == nm;
                    assert(cur[w] == nm);
                }
            }
        }
    }
}

/// The newest snapshot of a non-empty catalog is never deleted: its name is
/// among the kept names and not among the deleted ones, whatever the policy.
pub proof fn lemma_newest_is_kept(snaps: Seq<Snapshot>, gens: Seq<Generation>, now: int)
    requires
        snaps.len() > 0,
    ensures
        forall|j: int|
            0 <= j < snaps.len() ==> (#[trigger] snaps[j]).ts <= snaps[latest(
                stamps_of(snaps),
            )].ts,
        keep_names(snaps, gens, now).contains(snaps[latest(stamps_of(snaps))].name@),
        !delete_names(snaps, gens, now).contains(snaps[latest(stamps_of(snaps))].name@),
{
    let ts = stamps_of(snaps);
    let li = latest(ts);
    lemma_latest_in_prefix_is_max(ts, ts.len());
    assert forall|j: int| 0 <= j < snaps.len() implies (#[trigger] snaps[j]).ts <= snaps[li].ts by {
        assert(ts[j] <= ts[li]);
    }
    lemma_keep_list_members(snaps, gens, now, snaps.len());
    assert(is_kept(ts, gens, now, li));
    assert(snaps[li].name@ == snaps[li].name@);
    lemma_delete_list_members(snaps, keep_names(snaps, gens, now), snaps.len());
}

/// The kept and the deleted names partition the names of the catalog.
pub proof fn lemma_keep_delete_partition(snaps: Seq<Snapshot>, gens: Seq<Generation>, now: int)
    ensures
        keep_names(snaps, gens, now).to_set().union(delete_names(snaps, gens, now).to_set())
            == all_names(snaps),
        keep_names(snaps, gens, now).to_set().intersect(delete_names(snaps, gens, now).to_set())
            == Set::<Seq<char>>::empty(),
{
    let keep = keep_names(snaps, gens, now);
    let del = delete_names(snaps, gens, now);
    lemma_keep_list_members(snaps, gens, now, snaps.len());
    lemma_delete_list_members(snaps, keep, snaps.len());
    assert(keep.to_set().union(del.to_set()) =~= all_names(snaps));
    assert(keep.to_set().intersect(del.to_set()) =~= Set::<Seq<char>>::empty());
}

/// The names to delete depend on the catalog (in its order), the policy and the
/// current time alone: the same inputs give the same list.
pub proof fn lemma_deletion_is_repeatable(
    snaps1: Seq<Snapshot>,
    snaps2: Seq<Snapshot>,
    gens1: Seq<Generation>,
    gens2: Seq<Generation>,
    now: int,
)
    requires
        snaps1 == snaps2,
        gens1 == gens2,
    ensures
        delete_names(snaps1, gens1, now) == delete_names(snaps2, gens2, now),
        keep_names(snaps1, gens1, now) == keep_names(snaps2, gens2, now),
{
}

proof fn lemma_keep_list_same_flags(
    snaps: Seq<Snapshot>,
    g1: Seq<Generation>,
    g2: Seq<Generation>,
    now: int,
    n: nat,
)
    requires
        n <= snaps.len(),
        forall|k: int|
            0 <= k < snaps.len() ==> is_kept(stamps_of(snaps), g1, now, k) == is_kept(
                stamps_of(snaps),
                g2,
                now,
                k,
            ),
    ensures
        keep_list(snaps, g1, now, n) == keep_list(snaps, g2, now, n),
    decreases n,
{
    if n > 0 {
        lemma_keep_list_same_flags(snaps, g1, g2, now, (n - 1) as nat);
    }
}

/// A tier with a count of zero changes neither the kept nor the deleted names.
pub proof fn lemma_zero_count_tier_adds_nothing(
    snaps: Seq<Snapshot>,
    gens: Seq<Generation>,
    interval: i64,
    now: int,
)
    ensures
        keep_names(snaps, gens.push(Generation { interval, count: 0 }), now) == keep_names(
            snaps,
            gens,
            now,
        ),
        delete_names(snaps, gens.push(Generation { interval, count: 0 }), now) == delete_names(
            snaps,
            gens,
            now,
        ),
{
    let more = gens.push(Generation { interval, count: 0 });
    assert(more.drop_last() == gens);
    assert forall|k: int| 0 <= k < snaps.len() implies is_kept(stamps_of(snaps), more, now, k)
        == is_kept(stamps_of(snaps), gens, now, k) by {
        assert(picks(stamps_of(snaps), now, interval as int, 0) =~= Seq::<int>::empty());
    }
    lemma_keep_list_same_flags(snaps, more, gens, now, snaps.len());
}

/// An empty catalog keeps nothing and deletes nothing.
pub proof fn lemma_empty_catalog(gens: Seq<Generation>, now: int)
    ensures
        keep_names(Seq::<Snapshot>::empty(), gens, now) == Seq::<Seq<char>>::empty(),
        delete_names(Seq::<Snapshot>::empty(), gens, now) == Seq::<Seq<char>>::empty(),
{
}

/// A catalog of one snapshot keeps it and deletes nothing, whatever the policy.
pub proof fn lemma_single_snapshot_kept(s: Snapshot, gens: Seq<Generation>, now: int)
    ensures
        keep_names(seq![s], gens, now) == seq![s.name@],
        delete_names(seq![s], gens, now) == Seq::<Seq<char>>::empty(),
{
    let snaps = seq![s];
    assert(latest(stamps_of(snaps)) == 0);
    assert(is_kept(stamps_of(snaps), gens, now, 0));
    assert(keep_list(snaps, gens, now, 0) =~= Seq::<Seq<char>>::empty());
    assert(keep_names(snaps, gens, now) =~= seq![s.name@]);
    assert(seq![s.name@].contains(s.name@)) by {
        assert(seq![s.name@][0] == s.name@);
    }
    assert(delete_list(snaps, keep_names(snaps, gens, now), 0) =~= Seq::<Seq<char>>::empty());
}

} // verus!
