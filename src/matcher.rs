//! Selection of the snapshots nearest to the evenly spaced instants of one tier.
use vstd::prelude::*;

verus! {

/// Anything that carries an absolute point in time, in seconds since the epoch.
pub trait SnapshotTimestamp {
    spec fn spec_timestamp(&self) -> i64;

    fn timestamp(&self) -> (r: i64)
        ensures
            r == self.spec_timestamp(),
    ;
}

/// One retention rule: keep up to `count` snapshots spaced `interval` seconds apart.
#[derive(Clone, Copy, Debug, PartialEq, Eq, Structural)]
pub struct Generation {
    pub interval: i64,
    pub count: usize,
}

/// The timestamps of a sequence of values, as integers.
pub open spec fn stamps_of<T: SnapshotTimestamp>(s: Seq<T>) -> Seq<int> {
    Seq::new(s.len(), |i: int| s[i].spec_timestamp() as int)
}

pub open spec fn ints(s: Seq<i64>) -> Seq<int> {
    Seq::new(s.len(), |i: int| s[i] as int)
}

pub open spec fn ixs(s: Seq<usize>) -> Seq<int> {
    Seq::new(s.len(), |i: int| s[i] as int)
}

pub open spec fn distance(a: int, b: int) -> int {
    if a >= b {
        a - b
    } else {
        b - a
    }
}

/// The `i`-th instant that a tier aims at: `i` intervals before `now`.
pub open spec fn target(now: int, interval: int, i: int) -> int {
    now - interval * i
}

/// Index of the first of `ts[0..n]` whose distance to `t` is smallest.
pub open spec fn nearest_in_prefix(ts: Seq<int>, t: int, n: nat) -> int
    decreases n,
{
    if n <= 1 {
        0
    } else {
        let p = nearest_in_prefix(ts, t, (n - 1) as nat);
        if distance(ts[n - 1], t) < distance(ts[p], t) {
            n - 1
        } else {
            p
        }
    }
}

/// Index of the first timestamp nearest to `t`; ties go to the earliest position.
pub open spec fn nearest(ts: Seq<int>, t: int) -> int {
    nearest_in_prefix(ts, t, ts.len())
}

/// The indices a tier picks for its first `n` targets, in the order first picked,
/// each index once.
pub open spec fn picks(ts: Seq<int>, now: int, interval: int, n: nat) -> Seq<int>
    decreases n,
{
    if n == 0 || ts.len() == 0 {
        Seq::empty()
    } else {
        let prev = picks(ts, now, interval, (n - 1) as nat);
        let k = nearest(ts, target(now, interval, n as int));
        if prev.contains(k) {
            prev
        } else {
            prev.push(k)
        }
    }
}

/// The order of the output: by timestamp, then by position in the catalog.
pub open spec fn key_before(ts: Seq<int>, a: int, b: int) -> bool {
    ts[a] < ts[b] || (ts[a] == ts[b] && a < b)
}

/// `r` lists the positions `sel` of `ts`, each once, ascending by timestamp
/// (ties by position).
pub open spec fn is_sorted_listing(ts: Seq<int>, r: Seq<int>, sel: Seq<int>) -> bool {
    &&& forall|q: int| 0 <= q < r.len() ==> 0 <= #[trigger] r[q] < ts.len()
    &&& forall|p: int, q: int|
        0 <= p < q < r.len() ==> key_before(ts, #[trigger] r[p], #[trigger] r[q])
    &&& forall|x: int| r.contains(x) <==> sel.contains(x)
    &&& r.len() == sel.len()
}

/// A sorted listing names each position once.
pub proof fn lemma_listing_has_no_duplicates(ts: Seq<int>, r: Seq<int>, sel: Seq<int>)
    requires
        is_sorted_listing(ts, r, sel),
    ensures
        r.no_duplicates(),
{
    assert forall|p: int, q: int| 0 <= p < r.len() && 0 <= q < r.len() && p != q implies r[p]
        != r[q] by {
        if p < q {
            assert(key_before(ts, r[p], r[q]));
        } else {
            assert(key_before(ts, r[q], r[p]));
        }
    }
}

pub proof fn lemma_nearest_in_prefix_bounds(ts: Seq<int>, t: int, n: nat)
    requires
        1 <= n <= ts.len(),
    ensures
        0 <= nearest_in_prefix(ts, t, n) < n,
        forall|j: int|
            0 <= j < n ==> distance(ts[nearest_in_prefix(ts, t, n)], t) <= distance(
                #[trigger] ts[j],
                t,
            ),
        forall|j: int|
            0 <= j < nearest_in_prefix(ts, t, n) ==> distance(ts[nearest_in_prefix(ts, t, n)], t)
                < distance(#[trigger] ts[j], t),
    decreases n,
{
    if n > 1 {
        lemma_nearest_in_prefix_bounds(ts, t, (n - 1) as nat);
    }
}

/// The nearest index is a position of `ts` whose distance to `t` is minimal,
/// and every earlier position is strictly farther.
pub proof fn lemma_nearest_is_first_closest(ts: Seq<int>, t: int)
    requires
        ts.len() > 0,
    ensures
        0 <= nearest(ts, t) < ts.len(),
        forall|j: int|
            0 <= j < ts.len() ==> distance(ts[nearest(ts, t)], t) <= distance(#[trigger] ts[j], t),
        forall|j: int|
            0 <= j < nearest(ts, t) ==> distance(ts[nearest(ts, t)], t) < distance(
                #[trigger] ts[j],
                t,
            ),
{
    lemma_nearest_in_prefix_bounds(ts, t, ts.len());
}

/// Below every timestamp, the nearest index does not depend on the target.
proof fn lemma_nearest_below_all(ts: Seq<int>, t1: int, t2: int, n: nat)
    requires
        n <= ts.len(),
        forall|j: int| 0 <= j < ts.len() ==> t1 <= #[trigger] ts[j] && t2 <= ts[j],
    ensures
        nearest_in_prefix(ts, t1, n) == nearest_in_prefix(ts, t2, n),
    decreases n,
{
    if n > 1 {
        lemma_nearest_below_all(ts, t1, t2, (n - 1) as nat);
        lemma_nearest_in_prefix_bounds(ts, t1, (n - 1) as nat);
    }
}

pub proof fn lemma_picks_len(ts: Seq<int>, now: int, interval: int, n: nat)
    ensures
        picks(ts, now, interval, n).len() <= n,
        forall|q: int|
            0 <= q < picks(ts, now, interval, n).len() ==> 0 <= #[trigger] picks(
                ts,
                now,
                interval,
                n,
            )[q] < ts.len(),
    decreases n,
{
    if n > 0 && ts.len() > 0 {
        lemma_picks_len(ts, now, interval, (n - 1) as nat);
        lemma_nearest_is_first_closest(ts, target(now, interval, n as int));
    }
}

/// Once a target lies at or below every timestamp, later targets add nothing.
proof fn lemma_picks_settle(ts: Seq<int>, now: int, interval: int, i: nat, m: nat)
    requires
        1 <= i <= m,
        ts.len() > 0,
        interval > 0,
        forall|j: int| 0 <= j < ts.len() ==> target(now, interval, i as int) <= #[trigger] ts[j],
    ensures
        picks(ts, now, interval, m) == picks(ts, now, interval, i),
    decreases m,
{
    if m > i {
        lemma_picks_settle(ts, now, interval, i, (m - 1) as nat);
        let tm = target(now, interval, m as int);
        let ti = target(now, interval, i as int);
        assert(interval * m >= interval * i) by (nonlinear_arith)
            requires
                interval > 0,
                m > i,
        ;
        assert forall|j: int| 0 <= j < ts.len() implies tm <= #[trigger] ts[j] && ti <= ts[j] by {}
        lemma_nearest_below_all(ts, tm, ti, ts.len());
        let prev = picks(ts, now, interval, (i - 1) as nat);
        let k = nearest(ts, ti);
        if !prev.contains(k) {
            assert(picks(ts, now, interval, i)[prev.len() as int] == k);
        }
    }
}

/// The smallest timestamp.
fn min_stamp(ts: &Vec<i64>) -> (r: i64)
    requires
        ts.len() > 0,
    ensures
        forall|j: int| 0 <= j < ts.len() ==> r <= #[trigger] ts[j],
{
    let mut lo = ts[0];
    let mut i: usize = 1;
    while i < ts.len()
        invariant
            1 <= i <= ts.len(),
            forall|j: int| 0 <= j < i ==> lo <= #[trigger] ts[j],
        decreases ts.len() - i,
    {
        if ts[i] < lo {
            lo = ts[i];
        }
        i = i + 1;
    }
    lo
}

fn distance_exec(a: i64, t: i128) -> (r: i128)
    requires
        -0x1_0000_0000_0000_0000 <= t <= 0x1_0000_0000_0000_0000,
    ensures
        r == distance(a as int, t as int),
{
    let a = a as i128;
    if a >= t {
        a - t
    } else {
        t - a
    }
}

/// Index of the first timestamp nearest to `t`.
pub fn nearest_index(ts: &Vec<i64>, t: i128) -> (r: usize)
    requires
        ts.len() > 0,
        -0x1_0000_0000_0000_0000 <= t <= 0x1_0000_0000_0000_0000,
    ensures
        r == nearest(ints(ts@), t as int),
{
    let ghost s = ints(ts@);
    let mut best: usize = 0;
    let mut best_d = distance_exec(ts[0], t);
    let mut i: usize = 1;
    while i < ts.len()
        invariant
            1 <= i <= ts.len(),
            s == ints(ts@),
            best == nearest_in_prefix(s, t as int, i as nat),
            best < i,
            best_d == distance(s[best as int], t as int),
            -0x1_0000_0000_0000_0000 <= t <= 0x1_0000_0000_0000_0000,
        decreases ts.len() - i,
    {
        proof {
            lemma_nearest_in_prefix_bounds(s, t as int, i as nat);
        }
        let d = distance_exec(ts[i], t);
        if d < best_d {
            best = i;
            best_d = d;
        }
        i = i + 1;
    }
    best
}

/// Inserts position `k` into the sorted listing `out`.
fn insert_sorted(out: &mut Vec<usize>, ts: &Vec<i64>, k: usize)
    requires
        k < ts.len(),
        forall|q: int| 0 <= q < old(out).len() ==> #[trigger] old(out)[q] < ts.len(),
        forall|p: int, q: int|
            0 <= p < q < old(out).len() ==> key_before(
                ints(ts@),
                #[trigger] old(out)[p] as int,
                #[trigger] old(out)[q] as int,
            ),
        !ixs(old(out)@).contains(k as int),
    ensures
        final(out).len() == old(out).len() + 1,
        forall|q: int| 0 <= q < final(out).len() ==> #[trigger] final(out)[q] < ts.len(),
        forall|p: int, q: int|
            0 <= p < q < final(out).len() ==> key_before(
                ints(ts@),
                #[trigger] final(out)[p] as int,
                #[trigger] final(out)[q] as int,
            ),
        forall|x: int|
            ixs(final(out)@).contains(x) <==> (ixs(old(out)@).contains(x) || x == k as int),
{
    let ghost s = ints(ts@);
    let ghost before = out@;
    let mut p: usize = 0;
    while p < out.len() && (ts[out[p]] < ts[k] || (ts[out[p]] == ts[k] && out[p] < k))
        invariant
            0 <= p <= out.len(),
            out@ == before,
            k < ts.len(),
            s == ints(ts@),
            forall|q: int| 0 <= q < out.len() ==> #[trigger] out[q] < ts.len(),
            forall|q: int| 0 <= q < p ==> key_before(s, #[trigger] out[q] as int, k as int),
        decreases out.len() - p,
    {
        p = p + 1;
    }
    proof {
        if p < out.len() {
            assert(ixs(before)[p as int] == out[p as int] as int);
            assert(out[p as int] != k);
            assert(key_before(s, k as int, out[p as int] as int));
        }
    }
    out.insert(p, k);
    proof {
        let after = out@;
        assert(after == before.insert(p as int, k));
        assert forall|p1: int, q1: int| 0 <= p1 < q1 < after.len() implies key_before(
            s,
            #[trigger] after[p1] as int,
            #[trigger] after[q1] as int,
        ) by {
            if q1 < p {
            } else if q1 == p {
            } else if p1 < p {
                assert(key_before(s, after[p1] as int, k as int));
                if q1 > p + 1 {
                    assert(key_before(s, before[p as int] as int, before[q1 - 1] as int));
                }
            } else if p1 == p {
                if q1 > p + 1 {
                    assert(key_before(s, before[p as int] as int, before[q1 - 1] as int));
                }
            } else {
            }
        }
        assert forall|x: int|
            ixs(after).contains(x) <==> (ixs(before).contains(x) || x == k as int) by {
            if ixs(after).contains(x) {
                let q = choose|q: int| 0 <= q < ixs(after).len() && ixs(after)[q] == x;
                if q < p {
                    assert(ixs(before)[q] == x);
                } else if q > p {
                    assert(ixs(before)[q - 1] == x);
                }
            }
            if ixs(before).contains(x) {
                let q = choose|q: int| 0 <= q < ixs(before).len() && ixs(before)[q] == x;
                if q < p {
                    assert(ixs(after)[q] == x);
                } else {
                    assert(ixs(after)[q + 1] == x);
                }
            }
            if x == k as int {
                assert(ixs(after)[p as int] == x);
            }
        }
    }
}


/// The positions of `ts` that one tier keeps, ascending by timestamp (ties by
/// position): for each target `now - interval * i`, `i` in `1..=count`, the first
/// position nearest to it, each position once.
pub fn select_indices(ts: &Vec<i64>, generation: &Generation, now: i64) -> (r: Vec<usize>)
    requires
        generation.interval > 0,
    ensures
        is_sorted_listing(
            ints(ts@),
            ixs(r@),
            picks(ints(ts@), now as int, generation.interval as int, generation.count as nat),
        ),
        r.len() <= generation.count,
{
    let ghost s = ints(ts@);
    let ghost iv = generation.interval as int;
    let n = ts.len();
    let mut out: Vec<usize> = Vec::new();
    if n == 0 {
        proof {
            assert(picks(s, now as int, iv, generation.count as nat) =~= Seq::<int>::empty());
            assert(ixs(out@) =~= Seq::<int>::empty());
        }
        return out;
    }
    let lo = min_stamp(ts);
    let mut chosen: Vec<bool> = Vec::new();
    let mut j: usize = 0;
    while j < n
        invariant
            j <= n,
            chosen.len() == j,
            forall|q: int| 0 <= q < j ==> !(#[trigger] chosen[q]),
        decreases n - j,
    {
        chosen.push(false);
        j = j + 1;
    }
    let interval = generation.interval as i128;
    let count = generation.count;
    let mut t: i128 = now as i128;
    let mut i: usize = 0;
    let mut done = false;
    proof {
        assert(ixs(out@) =~= Seq::<int>::empty());
    }
    while i < count && !done
        invariant
            n == ts.len(),
            n > 0,
            s == ints(ts@),
            iv == generation.interval,
            iv > 0,
            interval == iv,
            count == generation.count,
            i <= count,
            t == target(now as int, iv, i as int),
            i64::MIN - i64::MAX <= t <= i64::MAX,
            !done ==> i64::MIN <= t,
            done ==> i >= 1 && forall|q: int| 0 <= q < n ==> t <= #[trigger] s[q],
            forall|q: int| 0 <= q < n ==> lo <= #[trigger] ts[q],
            chosen.len() == n,
            forall|q: int|
                0 <= q < n ==> (#[trigger] chosen[q] <==> picks(s, now as int, iv, i as nat).contains(
                    q,
                )),
            is_sorted_listing(s, ixs(out@), picks(s, now as int, iv, i as nat)),
        decreases count - i,
    {
        proof {
            assert(iv * (i + 1) == iv * i + iv) by (nonlinear_arith);
        }
        t = t - interval;
        let k = nearest_index(ts, t);
        let ghost prev = picks(s, now as int, iv, i as nat);
        proof {
            lemma_nearest_is_first_closest(s, t as int);
            lemma_picks_len(s, now as int, iv, i as nat);
            assert(forall|q: int| 0 <= q < ixs(out@).len() ==> #[trigger] ixs(out@)[q] == out[q] as int);
        }
        if !chosen[k] {
            proof {
                assert forall|q: int| 0 <= q < out.len() implies #[trigger] out[q] < ts.len() by {
                    assert(ixs(out@)[q] == out[q] as int);
                }
                assert forall|p: int, q: int| 0 <= p < q < out.len() implies key_before(
                    s,
                    #[trigger] out[p] as int,
                    #[trigger] out[q] as int,
                ) by {
                    assert(ixs(out@)[p] == out[p] as int);
                    assert(ixs(out@)[q] == out[q] as int);
                }
            }
            insert_sorted(&mut out, ts, k);
            chosen.set(k, true);
        }
        i = i + 1;
        proof {
            let cur = picks(s, now as int, iv, i as nat);
            assert(cur == if prev.contains(k as int) { prev } else { prev.push(k as int) });
            assert forall|x: int| cur.contains(x) <==> (prev.contains(x) || x == k as int) by {
                if !prev.contains(k as int) {
                    if cur.contains(x) {
                        let q = choose|q: int| 0 <= q < cur.len() && cur[q] == x;
                        if q < prev.len() {
                            assert(prev[q] == x);
                        }
                    }
                    if prev.contains(x) {
                        let q = choose|q: int| 0 <= q < prev.len() && prev[q] == x;
                        assert(cur[q] == x);
                    }
                    assert(cur[prev.len() as int] == k as int);
                }
            }
            assert(forall|q: int| 0 <= q < ixs(out@).len() ==> #[trigger] ixs(out@)[q] == out[q] as int);
        }
        if t <= lo as i128 {
            done = true;
        }
    }
    proof {
        if done {
            lemma_picks_settle(s, now as int, iv, i as nat, count as nat);
        }
        lemma_picks_len(s, now as int, iv, count as nat);
    }
    out
}

/// `r` holds the values of `s` at the positions of a sorted listing of `sel`.
pub open spec fn lists_values<T: SnapshotTimestamp>(s: Seq<T>, r: Seq<&T>, sel: Seq<int>) -> bool {
    exists|idx: Seq<int>|
        #[trigger] is_sorted_listing(stamps_of(s), idx, sel) && r.len() == idx.len() && forall|
            q: int,
        |
            0 <= q < r.len() ==> *#[trigger] r[q] == s[idx[q]]
}

/// The values of `timestamps` that one tier keeps, ascending by timestamp.
pub fn filter_by_generation<'a, T: SnapshotTimestamp>(
    timestamps: &'a Vec<T>,
    generation: &Generation,
    now: i64,
) -> (r: Vec<&'a T>)
    requires
        generation.interval > 0,
    ensures
        lists_values(
            timestamps@,
            r@,
            picks(
                stamps_of(timestamps@),
                now as int,
                generation.interval as int,
                generation.count as nat,
            ),
        ),
        r.len() <= generation.count,
{
    let mut ts: Vec<i64> = Vec::new();
    let mut j: usize = 0;
    while j < timestamps.len()
        invariant
            j <= timestamps.len(),
            ts.len() == j,
            forall|q: int| 0 <= q < j ==> #[trigger] ts[q] == timestamps[q].spec_timestamp(),
        decreases timestamps.len() - j,
    {
        ts.push(timestamps[j].timestamp());
        j = j + 1;
    }
    proof {
        assert(ints(ts@) =~= stamps_of(timestamps@));
    }
    let idx = select_indices(&ts, generation, now);
    proof {
        assert forall|x: int| 0 <= x < idx.len() implies #[trigger] idx[x] < timestamps.len() by {
            assert(ixs(idx@)[x] == idx[x] as int);
        }
    }
    let mut r: Vec<&'a T> = Vec::new();
    let mut q: usize = 0;
    while q < idx.len()
        invariant
            q <= idx.len(),
            r.len() == q,
            forall|x: int| 0 <= x < idx.len() ==> #[trigger] idx[x] < timestamps.len(),
            forall|x: int| 0 <= x < q ==> *#[trigger] r[x] == timestamps[idx[x] as int],
        decreases idx.len() - q,
    {
        r.push(&timestamps[idx[q]]);
        q = q + 1;
    }
    proof {
        assert(is_sorted_listing(
            stamps_of(timestamps@),
            ixs(idx@),
            picks(
                stamps_of(timestamps@),
                now as int,
                generation.interval as int,
                generation.count as nat,
            ),
        ));
    }
    r
}

} // verus!
