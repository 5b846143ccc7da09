//! Power metrics are ordered newest first and each neighbouring pair forms
//! an interval; the energy model works interval by interval.

use vstd::prelude::*;
use crate::order::{consecutive_pairs, sort_newest_first};

verus! {

/// The entry at position `p` of `items`.
pub open spec fn entry_at(items: Seq<(i64, usize)>, p: usize) -> (i64, usize) {
    items[p as int]
}

/// Two neighbouring metrics in newest-first order: the positions of the
/// newer and the older one among the metrics given, and the milliseconds
/// between their time stamps.
#[derive(Clone, Copy, Debug, PartialEq, Eq, Structural)]
pub struct MetricInterval {
    pub newer: usize,
    pub older: usize,
    pub delta_millis: u64,
}

/// Metric `i` comes before metric `j` newest first: it is later, or as late
/// and given before it.
pub open spec fn precedes(ts: Seq<i64>, i: int, j: int) -> bool {
    ts[i] > ts[j] || (ts[i] == ts[j] && i < j)
}

/// `p` lists the positions of all metrics with time stamps `ts`, later time
/// stamps first, metrics with equal time stamps in the order given.
pub open spec fn is_newest_first(ts: Seq<i64>, p: Seq<usize>) -> bool {
    &&& p.len() == ts.len()
    &&& forall|k: int| 0 <= k < p.len() ==> (#[trigger] p[k]) < ts.len()
    &&& forall|x: usize| x < ts.len() ==> #[trigger] p.contains(x)
    &&& forall|a: int, b: int|
        0 <= a < b < p.len() ==> precedes(ts, #[trigger] p[a] as int, #[trigger] p[b] as int)
}

/// The newest-first order of the metrics with time stamps `ts` (there is
/// exactly one: see `lemma_newest_first_unique`).
pub open spec fn newest_first_order(ts: Seq<i64>) -> Seq<usize> {
    choose|p: Seq<usize>| is_newest_first(ts, p)
}

pub open spec fn interval_between(ts: Seq<i64>, newer: usize, older: usize) -> MetricInterval {
    MetricInterval {
        newer,
        older,
        delta_millis: (ts[newer as int] - ts[older as int]) as u64,
    }
}

/// The intervals between neighbours of the order `p`.
pub open spec fn intervals_of(ts: Seq<i64>, p: Seq<usize>) -> Seq<MetricInterval> {
    Seq::new(
        if p.len() == 0 { 0 } else { (p.len() - 1) as nat },
        |k: int| interval_between(ts, p[k], p[k + 1]),
    )
}

/// The intervals of the metrics with time stamps `ts`.
pub open spec fn metric_intervals(ts: Seq<i64>) -> Seq<MetricInterval> {
    intervals_of(ts, newest_first_order(ts))
}

proof fn lemma_precedes_asymmetric(ts: Seq<i64>, i: int, j: int)
    ensures
        !(precedes(ts, i, j) && precedes(ts, j, i)),
        !precedes(ts, i, i),
{
}

/// Two sequences that list the same elements, each strictly ascending in
/// `precedes`, are equal.
proof fn lemma_ascending_unique(ts: Seq<i64>, p: Seq<usize>, q: Seq<usize>)
    requires
        p.len() == q.len(),
        forall|x: usize| p.contains(x) <==> q.contains(x),
        forall|a: int, b: int|
            0 <= a < b < p.len() ==> precedes(ts, #[trigger] p[a] as int, #[trigger] p[b] as int),
        forall|a: int, b: int|
            0 <= a < b < q.len() ==> precedes(ts, #[trigger] q[a] as int, #[trigger] q[b] as int),
    ensures
        p == q,
    decreases p.len(),
{
    if p.len() == 0 {
        assert(p =~= q);
    } else {
        assert(p.contains(p[0]));
        assert(q.contains(q[0]));
        let j = choose|j: int| 0 <= j < q.len() && q[j] == p[0];
        let i = choose|i: int| 0 <= i < p.len() && p[i] == q[0];
        if p[0] != q[0] {
            assert(j > 0 && i > 0);
            assert(precedes(ts, q[0] as int, q[j] as int));
            assert(precedes(ts, p[0] as int, p[i] as int));
            lemma_precedes_asymmetric(ts, p[0] as int, q[0] as int);
        }
        let p1 = p.drop_first();
        let q1 = q.drop_first();
        assert forall|x: usize| p1.contains(x) <==> q1.contains(x) by {
            if p1.contains(x) {
                let k = choose|k: int| 0 <= k < p1.len() && p1[k] == x;
                assert(p[k + 1] == x);
                assert(precedes(ts, p[0] as int, p[k + 1] as int));
                assert(x != p[0]);
                assert(p.contains(x));
                let m = choose|m: int| 0 <= m < q.len() && q[m] == x;
                assert(m != 0);
                assert(q1[m - 1] == x);
            }
            if q1.contains(x) {
                let k = choose|k: int| 0 <= k < q1.len() && q1[k] == x;
                assert(q[k + 1] == x);
                assert(precedes(ts, q[0] as int, q[k + 1] as int));
                assert(x != q[0]);
                assert(q.contains(x));
                let m = choose|m: int| 0 <= m < p.len() && p[m] == x;
                assert(m != 0);
                assert(p1[m - 1] == x);
            }
        }
        assert forall|a: int, b: int|
            0 <= a < b < p1.len() implies precedes(ts, #[trigger] p1[a] as int, #[trigger] p1[b] as int) by {
            assert(p1[a] == p[a + 1] && p1[b] == p[b + 1]);
        }
        assert forall|a: int, b: int|
            0 <= a < b < q1.len() implies precedes(ts, #[trigger] q1[a] as int, #[trigger] q1[b] as int) by {
            assert(q1[a] == q[a + 1] && q1[b] == q[b + 1]);
        }
        lemma_ascending_unique(ts, p1, q1);
        assert(p =~= q) by {
            assert forall|k: int| 0 <= k < p.len() implies p[k] == q[k] by {
                if k > 0 {
                    assert(p[k] == p1[k - 1] && q[k] == q1[k - 1]);
                }
            }
        }
    }
}

/// There is only one newest-first order of a list of metrics.
pub proof fn lemma_newest_first_unique(ts: Seq<i64>, p: Seq<usize>, q: Seq<usize>)
    requires
        is_newest_first(ts, p),
        is_newest_first(ts, q),
    ensures
        p == q,
{
    assert forall|x: usize| p.contains(x) <==> q.contains(x) by {
        if p.contains(x) {
            let k = choose|k: int| 0 <= k < p.len() && p[k] == x;
            assert(p[k] < ts.len());
        }
        if q.contains(x) {
            let k = choose|k: int| 0 <= k < q.len() && q[k] == x;
            assert(q[k] < ts.len());
        }
    }
    lemma_ascending_unique(ts, p, q);
}

/// Any newest-first order is the one that `newest_first_order` names.
pub proof fn lemma_newest_first_order_is(ts: Seq<i64>, p: Seq<usize>)
    requires
        is_newest_first(ts, p),
    ensures
        newest_first_order(ts) == p,
{
    let q = newest_first_order(ts);
    assert(is_newest_first(ts, q));
    lemma_newest_first_unique(ts, p, q);
}

proof fn lemma_precedes_transitive(ts: Seq<i64>, i: int, j: int, k: int)
    requires
        precedes(ts, i, j),
        precedes(ts, j, k),
    ensures
        precedes(ts, i, k),
{
}

/// `p` is strictly ascending in `precedes`.
pub open spec fn ascending(ts: Seq<i64>, p: Seq<usize>) -> bool {
    forall|a: int, b: int|
        0 <= a < b < p.len() ==> precedes(ts, #[trigger] p[a] as int, #[trigger] p[b] as int)
}

/// Puts `x` into `p` before the first element that it precedes.
pub open spec fn insert_newest_first(ts: Seq<i64>, p: Seq<usize>, x: usize) -> Seq<usize>
    decreases p.len(),
{
    if p.len() == 0 {
        seq![x]
    } else if precedes(ts, x as int, p[0] as int) {
        seq![x] + p
    } else {
        seq![p[0]] + insert_newest_first(ts, p.drop_first(), x)
    }
}

/// The first `n` positions of `ts`, newest first.
pub open spec fn order_prefix(ts: Seq<i64>, n: nat) -> Seq<usize>
    decreases n,
{
    if n == 0 {
        Seq::empty()
    } else {
        insert_newest_first(ts, order_prefix(ts, (n - 1) as nat), (n - 1) as usize)
    }
}

proof fn lemma_insert_newest_first(ts: Seq<i64>, p: Seq<usize>, x: usize)
    requires
        ascending(ts, p),
        !p.contains(x),
    ensures
        insert_newest_first(ts, p, x).len() == p.len() + 1,
        forall|y: usize| #[trigger] insert_newest_first(ts, p, x).contains(y) <==> (p.contains(y) || y == x),
        ascending(ts, insert_newest_first(ts, p, x)),
    decreases p.len(),
{
    let r = insert_newest_first(ts, p, x);
    if p.len() == 0 {
        assert forall|y: usize| r.contains(y) <==> (p.contains(y) || y == x) by {
            if r.contains(y) {
                let k = choose|k: int| 0 <= k < r.len() && r[k] == y;
                assert(k == 0);
            }
            if y == x {
                assert(r[0] == x);
            }
        }
    } else if precedes(ts, x as int, p[0] as int) {
        assert forall|y: usize| r.contains(y) <==> (p.contains(y) || y == x) by {
            if r.contains(y) {
                let k = choose|k: int| 0 <= k < r.len() && r[k] == y;
                if k > 0 {
                    assert(p[k - 1] == y);
                }
            }
            if p.contains(y) {
                let k = choose|k: int| 0 <= k < p.len() && p[k] == y;
                assert(r[k + 1] == y);
            }
            if y == x {
                assert(r[0] == x);
            }
        }
        assert forall|a: int, b: int|
            0 <= a < b < r.len() implies precedes(ts, #[trigger] r[a] as int, #[trigger] r[b] as int) by {
            if a == 0 {
                assert(r[b] == p[b - 1]);
                if b - 1 > 0 {
                    assert(precedes(ts, p[0] as int, p[b - 1] as int));
                    lemma_precedes_transitive(ts, x as int, p[0] as int, p[b - 1] as int);
                }
            } else {
                assert(r[a] == p[a - 1] && r[b] == p[b - 1]);
            }
        }
    } else {
        let rest = p.drop_first();
        assert(ascending(ts, rest)) by {
            assert forall|a: int, b: int|
                0 <= a < b < rest.len() implies precedes(ts, #[trigger] rest[a] as int, #[trigger] rest[b] as int) by {
                assert(rest[a] == p[a + 1] && rest[b] == p[b + 1]);
            }
        }
        assert(!rest.contains(x)) by {
            if rest.contains(x) {
                let k = choose|k: int| 0 <= k < rest.len() && rest[k] == x;
                assert(p[k + 1] == x);
            }
        }
        lemma_insert_newest_first(ts, rest, x);
        let t = insert_newest_first(ts, rest, x);
        assert(r == seq![p[0]] + t);
        assert(x != p[0]) by {
            assert(p[0] == p[0]);
        }
        // x does not come first, so p[0] precedes it
        assert(precedes(ts, p[0] as int, x as int));
        assert forall|y: usize| r.contains(y) <==> (p.contains(y) || y == x) by {
            if r.contains(y) {
                let k = choose|k: int| 0 <= k < r.len() && r[k] == y;
                if k > 0 {
                    assert(t[k - 1] == y);
                    assert(t.contains(y));
                    if rest.contains(y) {
                        let m = choose|m: int| 0 <= m < rest.len() && rest[m] == y;
                        assert(p[m + 1] == y);
                    }
                } else {
                    assert(p[0] == y);
                }
            }
            if p.contains(y) {
                let k = choose|k: int| 0 <= k < p.len() && p[k] == y;
                if k > 0 {
                    assert(rest[k - 1] == y);
                    assert(t.contains(y));
                    let m = choose|m: int| 0 <= m < t.len() && t[m] == y;
                    assert(r[m + 1] == y);
                } else {
                    assert(r[0] == y);
                }
            }
            if y == x {
                assert(t.contains(x));
                let m = choose|m: int| 0 <= m < t.len() && t[m] == x;
                assert(r[m + 1] == x);
            }
        }
        assert forall|a: int, b: int|
            0 <= a < b < r.len() implies precedes(ts, #[trigger] r[a] as int, #[trigger] r[b] as int) by {
            if a == 0 {
                assert(r[b] == t[b - 1]);
                assert(t.contains(t[b - 1]));
                if t[b - 1] != x {
                    assert(rest.contains(t[b - 1]));
                    let m = choose|m: int| 0 <= m < rest.len() && rest[m] == t[b - 1];
                    assert(p[m + 1] == t[b - 1]);
                }
            } else {
                assert(r[a] == t[a - 1] && r[b] == t[b - 1]);
            }
        }
    }
}

proof fn lemma_order_prefix(ts: Seq<i64>, n: nat)
    requires
        n <= ts.len(),
        ts.len() <= usize::MAX,
    ensures
        order_prefix(ts, n).len() == n,
        forall|y: usize| #[trigger] order_prefix(ts, n).contains(y) <==> y < n,
        ascending(ts, order_prefix(ts, n)),
    decreases n,
{
    if n > 0 {
        let m = (n - 1) as nat;
        lemma_order_prefix(ts, m);
        assert(!order_prefix(ts, m).contains(m as usize));
        lemma_insert_newest_first(ts, order_prefix(ts, m), m as usize);
    } else {
        assert forall|y: usize| #[trigger] order_prefix(ts, n).contains(y) <==> y < n by {
            if order_prefix(ts, n).contains(y) {
                let k = choose|k: int| 0 <= k < order_prefix(ts, n).len() && order_prefix(ts, n)[k] == y;
            }
        }
    }
}

/// Every list of metrics has a newest-first order.
pub proof fn lemma_newest_first_exists(ts: Seq<i64>)
    requires
        ts.len() <= usize::MAX,
    ensures
        is_newest_first(ts, newest_first_order(ts)),
{
    let p = order_prefix(ts, ts.len());
    lemma_order_prefix(ts, ts.len());
    assert forall|k: int| 0 <= k < p.len() implies (#[trigger] p[k]) < ts.len() by {
        assert(p.contains(p[k]));
    }
    assert(is_newest_first(ts, p));
}

/// The sum of the milliseconds of `iv`.
pub open spec fn total_millis(iv: Seq<MetricInterval>) -> int
    decreases iv.len(),
{
    if iv.len() == 0 {
        0
    } else {
        total_millis(iv.drop_last()) + iv.last().delta_millis
    }
}

proof fn lemma_total_prefix(ts: Seq<i64>, p: Seq<usize>, m: int)
    requires
        is_newest_first(ts, p),
        0 <= m < p.len(),
    ensures
        total_millis(intervals_of(ts, p).take(m)) == ts[p[0] as int] - ts[p[m] as int],
    decreases m,
{
    let iv = intervals_of(ts, p);
    if m == 0 {
        assert(iv.take(0) =~= Seq::<MetricInterval>::empty());
    } else {
        lemma_total_prefix(ts, p, m - 1);
        assert(iv.take(m).drop_last() =~= iv.take(m - 1));
        assert(precedes(ts, p[m - 1] as int, p[m] as int));
        assert(iv.take(m).last() == iv[m - 1]);
    }
}

proof fn lemma_newest_first_bounds(ts: Seq<i64>, p: Seq<usize>)
    requires
        is_newest_first(ts, p),
        0 < ts.len() <= usize::MAX,
    ensures
        forall|i: int|
            0 <= i < ts.len() ==> ts[p[p.len() - 1] as int] <= #[trigger] ts[i] <= ts[p[0] as int],
{
    let n = p.len() as int;
    assert forall|i: int| 0 <= i < ts.len() implies ts[p[n - 1] as int] <= #[trigger] ts[i] <= ts[p[0] as int] by {
        let x = i as usize;
        assert(p.contains(x));
        let k = choose|k: int| 0 <= k < p.len() && p[k] == x;
        if k > 0 {
            assert(precedes(ts, p[0] as int, p[k] as int));
        }
        if k < n - 1 {
            assert(precedes(ts, p[k] as int, p[n - 1] as int));
        }
    }
}

/// The intervals of a non-empty list of metrics together cover exactly the
/// time from its earliest to its latest time stamp.
pub proof fn lemma_intervals_span(ts: Seq<i64>)
    requires
        0 < ts.len() <= usize::MAX,
    ensures
        exists|newest: int, oldest: int|
            0 <= newest < ts.len() && 0 <= oldest < ts.len()
            && (forall|i: int| 0 <= i < ts.len() ==> ts[oldest] <= #[trigger] ts[i] <= ts[newest])
            && total_millis(metric_intervals(ts)) == ts[newest] - ts[oldest],
{
    lemma_newest_first_exists(ts);
    let p = newest_first_order(ts);
    let n = p.len() as int;
    let newest = p[0] as int;
    let oldest = p[n - 1] as int;
    lemma_total_prefix(ts, p, n - 1);
    assert(intervals_of(ts, p).take(n - 1) =~= intervals_of(ts, p));
    lemma_newest_first_bounds(ts, p);
    assert(0 <= newest < ts.len() && 0 <= oldest < ts.len());
    assert(total_millis(metric_intervals(ts)) == ts[newest] - ts[oldest]);
}

/// Neighbouring intervals share a metric: each interval starts at the metric
/// where the one before it ended, and its length is the exact, non-negative
/// difference of the two time stamps.
pub proof fn lemma_intervals_chain(ts: Seq<i64>)
    requires
        ts.len() <= usize::MAX,
    ensures
        forall|k: int|
            0 <= k < metric_intervals(ts).len() - 1 ==> (#[trigger] metric_intervals(ts)[k]).older
                == metric_intervals(ts)[k + 1].newer,
        forall|k: int|
            0 <= k < metric_intervals(ts).len() ==> {
                let iv = #[trigger] metric_intervals(ts)[k];
                &&& iv.newer < ts.len() && iv.older < ts.len()
                &&& iv.delta_millis == ts[iv.newer as int] - ts[iv.older as int]
            },
{
    lemma_newest_first_exists(ts);
    let p = newest_first_order(ts);
    assert forall|k: int| 0 <= k < metric_intervals(ts).len() implies {
        let iv = #[trigger] metric_intervals(ts)[k];
        &&& iv.newer < ts.len() && iv.older < ts.len()
        &&& iv.delta_millis == ts[iv.newer as int] - ts[iv.older as int]
    } by {
        assert(precedes(ts, p[k] as int, p[k + 1] as int));
        assert(p[k] < ts.len() && p[k + 1] < ts.len());
    }
}

/// The metrics' `(time stamp, position)` entries, newest first.
fn entries_newest_first(ts: &Vec<i64>) -> (s: Vec<(i64, usize)>)
    ensures
        s@.len() == ts@.len(),
        forall|k: int|
            0 <= k < s@.len() ==> (#[trigger] s@[k]).1 < ts@.len() && s@[k].0 == ts@[s@[k].1 as int],
        is_newest_first(ts@, s@.map_values(|e: (i64, usize)| e.1)),
{
    let n = ts.len();
    let mut items: Vec<(i64, usize)> = Vec::new();
    let mut i: usize = 0;
    while i < n
        invariant
            n == ts@.len(),
            i <= n,
            items@.len() == i,
            forall|j: int| 0 <= j < i ==> (#[trigger] items@[j]) == (ts@[j], j as usize),
        decreases n - i,
    {
        items.push((ts[i], i));
        i = i + 1;
    }
    let ghost input = items@;
    let sorted = sort_newest_first(items);
    let ghost s = sorted@;
    let ghost p = s.map_values(|e: (i64, usize)| e.1);
    assert forall|k: int| 0 <= k < s.len() implies (#[trigger] s[k]).1 < ts@.len() && s[k].0
        == ts@[s[k].1 as int] by {
        assert(s[k] == input[s[k].1 as int]);
    }
    assert forall|k: int| 0 <= k < p.len() implies (#[trigger] p[k]) < ts@.len() by {
        assert(p[k] == s[k].1);
    }
    assert forall|x: usize| x < ts@.len() implies #[trigger] p.contains(x) by {
        assert(input[x as int] == (ts@[x as int], x));
        assert(s.contains(input[x as int]));
        let k = choose|k: int| 0 <= k < s.len() && s[k] == input[x as int];
        assert(p[k] == x);
    }
    assert forall|a: int, b: int| 0 <= a < b < p.len() implies precedes(
        ts@,
        #[trigger] p[a] as int,
        #[trigger] p[b] as int,
    ) by {
        assert(p[a] == s[a].1 && p[b] == s[b].1);
        assert(s[a] == input[s[a].1 as int]);
        assert(s[b] == input[s[b].1 as int]);
        assert(s[a].0 >= s[b].0);
    }
    sorted
}

/// The intervals of the metrics with time stamps `time_stamps`: the metrics
/// newest first (a stable sort by time stamp), each neighbouring pair, and
/// the milliseconds between the two.
pub fn rab_intervals(time_stamps: &Vec<i64>) -> (r: Vec<MetricInterval>)
    ensures
        r@ == metric_intervals(time_stamps@),
{
    let sorted = entries_newest_first(time_stamps);
    let ghost s = sorted@;
    let ghost p = s.map_values(|e: (i64, usize)| e.1);
    let ghost ts = time_stamps@;
    let pairs = consecutive_pairs(sorted);
    let m = pairs.len();
    let mut r: Vec<MetricInterval> = Vec::new();
    let mut k: usize = 0;
    while k < m
        invariant
            m == pairs@.len(),
            s.len() == ts.len(),
            s.len() == 0 ==> m == 0,
            s.len() > 0 ==> m + 1 == s.len(),
            forall|j: int| 0 <= j < m ==> (#[trigger] pairs@[j]) == (s[j], s[j + 1]),
            forall|j: int|
                0 <= j < s.len() ==> (#[trigger] s[j]).1 < ts.len() && s[j].0 == ts[s[j].1 as int],
            is_newest_first(ts, p),
            p == s.map_values(|e: (i64, usize)| e.1),
            k <= m,
            r@ =~= intervals_of(ts, p).take(k as int),
        decreases m - k,
    {
        let (newer, older) = pairs[k];
        assert(newer == s[k as int] && older == s[k + 1]);
        assert(p[k as int] == newer.1 && p[k + 1] == older.1);
        assert(precedes(ts, p[k as int] as int, p[k + 1] as int));
        let a: i128 = newer.0 as i128;
        let b: i128 = older.0 as i128;
        let delta: u64 = (a - b) as u64;
        r.push(MetricInterval { newer: newer.1, older: older.1, delta_millis: delta });
        assert(r@.last() == intervals_of(ts, p)[k as int]);
        k = k + 1;
    }
    proof {
        lemma_newest_first_order_is(ts, p);
        assert(r@ =~= intervals_of(ts, p));
    }
    r
}

} // verus!
