//! How far the terrain under each footprint spreads (highest minus lowest
//! surface cell, in blocks), and the summary of that spread over a whole
//! run: median, 90th percentile, maximum, and how many buildings fall in
//! each grading bucket (flat up to 2, retaining wall 3 to 6, tiered from 7).

use crate::buildings::{height_ok, PlannedBuilding};
use vstd::prelude::*;
use vstd::relations::{sorted_by, total_ordering};

verus! {

/// The ascending order on spreads.
pub open spec fn ascending() -> spec_fn(i32, i32) -> bool {
    |a: i32, b: i32| a <= b
}

/// The spreads in ascending order.
pub open spec fn sorted_spreads(d: Seq<i32>) -> Seq<i32> {
    d.sort_by(ascending())
}

/// How many of `d` satisfy `keep`.
pub open spec fn count_if(d: Seq<i32>, keep: spec_fn(i32) -> bool) -> nat
    decreases d.len(),
{
    if d.len() == 0 {
        0
    } else {
        count_if(d.drop_last(), keep) + if keep(d.last()) { 1nat } else { 0nat }
    }
}

/// A footprint flat enough to sit on the terrain as it is.
pub open spec fn is_flat(v: i32) -> bool {
    v <= 2
}

/// A footprint that wants a retaining wall.
pub open spec fn is_retained(v: i32) -> bool {
    3 <= v <= 6
}

/// A footprint steep enough to be tiered.
pub open spec fn is_tiered(v: i32) -> bool {
    v >= 7
}

/// The flat bucket as a predicate.
pub open spec fn flat_bucket() -> spec_fn(i32) -> bool {
    |v: i32| is_flat(v)
}

/// The retaining-wall bucket as a predicate.
pub open spec fn retain_bucket() -> spec_fn(i32) -> bool {
    |v: i32| is_retained(v)
}

/// The tiered bucket as a predicate.
pub open spec fn tiered_bucket() -> spec_fn(i32) -> bool {
    |v: i32| is_tiered(v)
}

/// Position of the median in `n` sorted spreads.
pub open spec fn median_index(n: nat) -> nat {
    n / 2
}

/// Position of the 90th percentile in `n >= 1` sorted spreads: the nearest
/// position to nine tenths of the last one, halves rounded up.
pub open spec fn p90_index(n: nat) -> nat {
    ((9 * (n - 1) + 5) / 10) as nat
}

/// The run's spread summary.
#[derive(Clone, Copy, PartialEq, Eq, Structural, Debug)]
pub struct SlopeResolution {
    pub buildings: usize,
    pub median: i32,
    pub p90: i32,
    pub max: i32,
    pub flat: usize,
    pub retain: usize,
    pub tiered: usize,
}

/// The summary of non-empty `d`.
pub open spec fn resolution_of(d: Seq<i32>) -> SlopeResolution {
    let s = sorted_spreads(d);
    let n = d.len();
    SlopeResolution {
        buildings: n as usize,
        median: s[median_index(n) as int],
        p90: s[p90_index(n) as int],
        max: s[n - 1],
        flat: count_if(d, flat_bucket()) as usize,
        retain: count_if(d, retain_bucket()) as usize,
        tiered: count_if(d, tiered_bucket()) as usize,
    }
}

/// The spread of terrain heights `t`: `Some(v)` with `v` the highest minus
/// the lowest entry, `None` when `t` is empty.
pub open spec fn is_spread_of(t: Seq<i32>, v: int) -> bool {
    exists|i: int, j: int|
        #![trigger t[i], t[j]]
        0 <= i < t.len() && 0 <= j < t.len() && v == t[i] - t[j] && (forall|k: int|
            0 <= k < t.len() ==> t[j] <= #[trigger] t[k] <= t[i])
}

impl PlannedBuilding {
    /// Highest minus lowest terrain height under the footprint; `None` for
    /// a building with no cells.
    pub fn terrain_spread(&self) -> (r: Option<i32>)
        ensures
            r is None <==> self.spec_terrain_y().len() == 0,
            r matches Some(v) ==> is_spread_of(self.spec_terrain_y(), v as int),
    {
        proof {
            use_type_invariant(self);
        }
        let t = self.terrain_y();
        let n = t.len();
        if n == 0 {
            return None;
        }
        let mut hi: usize = 0;
        let mut lo: usize = 0;
        let mut k: usize = 1;
        while k < n
            invariant
                t@ == self.spec_terrain_y(),
                n == t@.len(),
                1 <= k <= n,
                hi < n,
                lo < n,
                forall|m: int| 0 <= m < k ==> t@[lo as int] <= #[trigger] t@[m] <= t@[hi as int],
            decreases n - k,
        {
            if t[k] > t[hi] {
                hi = k;
            }
            if t[k] < t[lo] {
                lo = k;
            }
            k += 1;
        }
        assert(height_ok(t@[hi as int] as int) && height_ok(t@[lo as int] as int));
        let v = t[hi] - t[lo];
        assert(v == t@[hi as int] - t@[lo as int]);
        assert(is_spread_of(t@, v as int));
        Some(v)
    }
}

/// std's `slice::sort_unstable` on the spreads: afterwards they stand in
/// ascending order and are the same values, each as often as before.
#[verifier::external_body]
fn sort_unstable_spreads(v: &mut Vec<i32>)
    ensures
        final(v)@.to_multiset() == old(v)@.to_multiset(),
        sorted_by(final(v)@, ascending()),
{
    v.sort_unstable();
}

/// The number of `d[..i]` that satisfy `keep`, one step further.
proof fn lemma_count_step(d: Seq<i32>, keep: spec_fn(i32) -> bool, i: int)
    requires
        0 <= i < d.len(),
    ensures
        count_if(d.take(i + 1), keep) == count_if(d.take(i), keep) + if keep(d[i]) { 1nat } else { 0nat },
{
    assert(d.take(i + 1).drop_last() =~= d.take(i));
}

/// Counts `d` per grading bucket.
fn bucket_counts(d: &[i32]) -> (r: (usize, usize, usize))
    ensures
        r.0 == count_if(d@, flat_bucket()),
        r.1 == count_if(d@, retain_bucket()),
        r.2 == count_if(d@, tiered_bucket()),
{
    let mut flat: usize = 0;
    let mut retain: usize = 0;
    let mut tiered: usize = 0;
    let mut i: usize = 0;
    while i < d.len()
        invariant
            i <= d@.len(),
            flat == count_if(d@.take(i as int), flat_bucket()),
            retain == count_if(d@.take(i as int), retain_bucket()),
            tiered == count_if(d@.take(i as int), tiered_bucket()),
            flat <= i,
            retain <= i,
            tiered <= i,
        decreases d@.len() - i,
    {
        let v = d[i];
        proof {
            lemma_count_step(d@, flat_bucket(), i as int);
            lemma_count_step(d@, retain_bucket(), i as int);
            lemma_count_step(d@, tiered_bucket(), i as int);
            assert(flat_bucket()(v) == (v <= 2));
            assert(retain_bucket()(v) == (3 <= v && v <= 6));
            assert(tiered_bucket()(v) == (v >= 7));
        }
        if v <= 2 {
            flat += 1;
        }
        if 3 <= v && v <= 6 {
            retain += 1;
        }
        if v >= 7 {
            tiered += 1;
        }
        i += 1;
    }
    assert(d@.take(d@.len() as int) =~= d@);
    (flat, retain, tiered)
}

/// The run's spread summary (see [`resolution_of`]); `None` when no
/// building has a spread.
pub fn slope_resolution(spreads: &[i32]) -> (r: Option<SlopeResolution>)
    ensures
        r is None <==> spreads@.len() == 0,
        r matches Some(s) ==> s == resolution_of(spreads@),
{
    let n = spreads.len();
    if n == 0 {
        return None;
    }
    let (flat, retain, tiered) = bucket_counts(spreads);
    let mut sorted: Vec<i32> = Vec::with_capacity(n);
    let mut i: usize = 0;
    while i < n
        invariant
            n == spreads@.len(),
            i <= n,
            sorted@ == spreads@.take(i as int),
        decreases n - i,
    {
        sorted.push(spreads[i]);
        i += 1;
    }
    assert(sorted@ =~= spreads@);
    sort_unstable_spreads(&mut sorted);
    proof {
        let leq = ascending();
        assert(total_ordering(leq));
        spreads@.lemma_sort_by_ensures(leq);
        vstd::seq_lib::lemma_sorted_unique(sorted@, sorted_spreads(spreads@), leq);
        assert(sorted@.len() == n) by {
            vstd::seq_lib::to_multiset_len(sorted@);
            vstd::seq_lib::to_multiset_len(spreads@);
        }
    }
    let m = n - 1;
    let p90: usize = 9 * (m / 10) + (9 * (m % 10) + 5) / 10;
    assert(p90 == p90_index(n as nat) && p90 < n) by (nonlinear_arith)
        requires
            m == n - 1,
            n >= 1,
            p90 == 9 * (m / 10) + (9 * (m % 10) + 5) / 10,
    ;
    Some(SlopeResolution {
        buildings: n,
        median: sorted[n / 2],
        p90: sorted[p90],
        max: sorted[n - 1],
        flat,
        retain,
        tiered,
    })
}

/// Every spread falls in exactly one grading bucket.
proof fn lemma_buckets_cover(d: Seq<i32>)
    ensures
        count_if(d, flat_bucket()) + count_if(d, retain_bucket()) + count_if(d, tiered_bucket()) == d.len(),
    decreases d.len(),
{
    if d.len() > 0 {
        lemma_buckets_cover(d.drop_last());
    }
}

/// The summary of a run: the three grading buckets together count every
/// building once, and median, 90th percentile and maximum are spreads of
/// the run in ascending order.
pub proof fn lemma_resolution_consistent(d: Seq<i32>)
    requires
        0 < d.len() <= usize::MAX,
    ensures
        resolution_of(d).flat + resolution_of(d).retain + resolution_of(d).tiered == d.len(),
        resolution_of(d).median <= resolution_of(d).p90 <= resolution_of(d).max,
        d.contains(resolution_of(d).median),
        d.contains(resolution_of(d).max),
        forall|i: int| 0 <= i < d.len() ==> d[i] <= resolution_of(d).max,
{
    let leq = ascending();
    let s = sorted_spreads(d);
    assert(total_ordering(leq));
    d.lemma_sort_by_ensures(leq);
    vstd::seq_lib::to_multiset_len(s);
    vstd::seq_lib::to_multiset_len(d);
    lemma_buckets_cover(d);
    let n = d.len();
    assert(median_index(n) <= p90_index(n) < n) by (nonlinear_arith)
        requires
            n >= 1,
    ;
    assert(leq(s[median_index(n) as int], s[p90_index(n) as int]) || median_index(n) == p90_index(n));
    assert(leq(s[p90_index(n) as int], s[n - 1]) || p90_index(n) == n - 1);
    vstd::seq_lib::to_multiset_contains(s, s[median_index(n) as int]);
    vstd::seq_lib::to_multiset_contains(d, s[median_index(n) as int]);
    vstd::seq_lib::to_multiset_contains(s, s[n - 1]);
    vstd::seq_lib::to_multiset_contains(d, s[n - 1]);
    assert(s.contains(s[median_index(n) as int]));
    assert(s.contains(s[n - 1]));
    assert forall|i: int| 0 <= i < d.len() implies d[i] <= resolution_of(d).max by {
        vstd::seq_lib::to_multiset_contains(d, d[i]);
        vstd::seq_lib::to_multiset_contains(s, d[i]);
        assert(d.contains(d[i]));
        let j = choose|j: int| 0 <= j < s.len() && s[j] == d[i];
        if j < n - 1 {
            assert(leq(s[j], s[n - 1]));
        }
    }
}

} // verus!
