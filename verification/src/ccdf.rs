//! Reading a histogram back: the complementary cumulative distribution of
//! the samples, one point for each slot between the first and the last one
//! in use, and one more that closes the last slot.
use vstd::prelude::*;
use crate::buckets::{MAX_PRECISION_BITS, slot_count, slot_value, slot_lower_bound,
    lemma_slot_count_bounds, lemma_slot_values_increasing};
use crate::histogram::HDRHist;

verus! {

/// An exact fraction `num / den`. The points of one distribution share
/// their denominator.
#[derive(Clone, Copy, Debug, PartialEq, Eq, Structural)]
pub struct Probability {
    pub num: u128,
    pub den: u128,
}

/// The sum of the first `n` counters.
pub open spec fn prefix_sum(counts: Seq<u64>, n: nat) -> nat
    decreases n,
{
    if n == 0 {
        0
    } else {
        prefix_sum(counts, (n - 1) as nat) + counts[n - 1] as nat
    }
}

/// The number of samples counted.
pub open spec fn total(counts: Seq<u64>) -> nat {
    prefix_sum(counts, counts.len())
}

/// Slot `i` is the first one that holds a sample.
pub open spec fn is_first_used(counts: Seq<u64>, i: int) -> bool {
    &&& 0 <= i < counts.len()
    &&& counts[i] != 0
    &&& forall|j: int| 0 <= j < i ==> counts[j] == 0
}

/// Slot `i` is the last one that holds a sample.
pub open spec fn is_last_used(counts: Seq<u64>, i: int) -> bool {
    &&& 0 <= i < counts.len()
    &&& counts[i] != 0
    &&& forall|j: int| i < j < counts.len() ==> counts[j] == 0
}

/// The first slot that holds a sample, where there is one.
pub open spec fn first_used(counts: Seq<u64>) -> int {
    choose|i: int| is_first_used(counts, i)
}

/// The last slot that holds a sample, where there is one.
pub open spec fn last_used(counts: Seq<u64>) -> int {
    choose|i: int| is_last_used(counts, i)
}

/// The point of the distribution that stands at slot number `slot`: the
/// smallest value of the slot, the share of samples at or above that value,
/// and the number of samples in the slot. One is added to both the samples
/// at or above and to the total, so that the share is never zero. The slot
/// past the end of the grid holds no sample.
pub open spec fn ccdf_point(counts: Seq<u64>, p: nat, slot: nat) -> (u64, Probability, u64) {
    (
        slot_value(slot, p),
        Probability {
            num: (total(counts) + 1 - prefix_sum(counts, slot)) as u128,
            den: (total(counts) + 1) as u128,
        },
        if slot < counts.len() {
            counts[slot as int]
        } else {
            0
        },
    )
}

/// The distribution of the samples: nothing for an empty histogram,
/// otherwise the points of the slots from the first used one to the one
/// after the last used one.
pub open spec fn ccdf_points(counts: Seq<u64>, p: nat) -> Seq<(u64, Probability, u64)> {
    if total(counts) == 0 {
        Seq::empty()
    } else {
        Seq::new(
            (last_used(counts) - first_used(counts) + 2) as nat,
            |k: int| ccdf_point(counts, p, (first_used(counts) + k) as nat),
        )
    }
}

/// Each point's value but the first, with the share of the point before it.
pub open spec fn upper_bound_points(points: Seq<(u64, Probability, u64)>) -> Seq<
    (u64, Probability),
> {
    if points.len() == 0 {
        Seq::empty()
    } else {
        Seq::new((points.len() - 1) as nat, |i: int| (points[i + 1].0, points[i].1))
    }
}

/// Each point's value but the last, with the share of the point after it.
pub open spec fn lower_bound_points(points: Seq<(u64, Probability, u64)>) -> Seq<
    (u64, Probability),
> {
    if points.len() == 0 {
        Seq::empty()
    } else {
        Seq::new((points.len() - 1) as nat, |i: int| (points[i].0, points[i + 1].1))
    }
}

/// Prefix sums grow with the prefix, and none exceeds what the counters can hold.
pub proof fn lemma_prefix_sum_bounds(counts: Seq<u64>, m: nat, n: nat)
    requires
        m <= n <= counts.len(),
    ensures
        prefix_sum(counts, m) <= prefix_sum(counts, n) <= n * u64::MAX,
    decreases n,
{
    if m < n {
        lemma_prefix_sum_bounds(counts, m, (n - 1) as nat);
        assert((n - 1) * u64::MAX + u64::MAX == n * u64::MAX) by (nonlinear_arith);
    } else if n > 0 {
        lemma_prefix_sum_bounds(counts, (n - 1) as nat, (n - 1) as nat);
        assert((n - 1) * u64::MAX + u64::MAX == n * u64::MAX) by (nonlinear_arith);
    }
}

/// A prefix of unused slots sums to zero.
pub proof fn lemma_prefix_sum_zero(counts: Seq<u64>, n: nat)
    requires
        n <= counts.len(),
        forall|j: int| 0 <= j < n ==> counts[j] == 0,
    ensures
        prefix_sum(counts, n) == 0,
    decreases n,
{
    if n > 0 {
        lemma_prefix_sum_zero(counts, (n - 1) as nat);
    }
}

/// Past the last used slot the prefix sums stay at the total.
pub proof fn lemma_prefix_sum_tail(counts: Seq<u64>, m: nat)
    requires
        m <= counts.len(),
        forall|j: int| m <= j < counts.len() ==> counts[j] == 0,
    ensures
        prefix_sum(counts, m) == total(counts),
    decreases counts.len() - m,
{
    if m < counts.len() {
        lemma_prefix_sum_tail(counts, m + 1);
    }
}

/// A histogram has a first and a last used slot exactly if it holds a
/// sample, and then only one of each.
pub proof fn lemma_used_slots(counts: Seq<u64>)
    ensures
        total(counts) > 0 ==> is_first_used(counts, first_used(counts)) && is_last_used(
            counts,
            last_used(counts),
        ) && first_used(counts) <= last_used(counts),
        total(counts) == 0 ==> forall|j: int| 0 <= j < counts.len() ==> counts[j] == 0,
        forall|i: int| is_first_used(counts, i) ==> i == first_used(counts),
        forall|i: int| is_last_used(counts, i) ==> i == last_used(counts),
{
    assert forall|i: int| is_first_used(counts, i) implies i == first_used(counts) by {
        let f = first_used(counts);
        if i < f {
            assert(counts[i] == 0);
        } else if f < i {
            assert(counts[f] == 0);
        }
    }
    assert forall|i: int| is_last_used(counts, i) implies i == last_used(counts) by {
        let l = last_used(counts);
        if i < l {
            assert(counts[l] == 0);
        } else if l < i {
            assert(counts[i] == 0);
        }
    }
    if total(counts) == 0 {
        assert forall|j: int| 0 <= j < counts.len() implies counts[j] == 0 by {
            lemma_prefix_sum_bounds(counts, j as nat, (j + 1) as nat);
            lemma_prefix_sum_bounds(counts, (j + 1) as nat, counts.len());
        }
    } else {
        let f = least_used(counts, 0);
        let l = greatest_used(counts, counts.len());
        assert(is_first_used(counts, f));
        assert(is_last_used(counts, l));
    }
}

/// Finds the first used slot at or after `from`, given that none comes before.
proof fn least_used(counts: Seq<u64>, from: nat) -> (i: int)
    requires
        from <= counts.len(),
        total(counts) > 0,
        forall|j: int| 0 <= j < from ==> counts[j] == 0,
    ensures
        is_first_used(counts, i),
    decreases counts.len() - from,
{
    if from == counts.len() {
        lemma_prefix_sum_zero(counts, from);
        0
    } else if counts[from as int] != 0 {
        from as int
    } else {
        least_used(counts, from + 1)
    }
}

/// Finds the last used slot before `to`, given that none comes at or after.
proof fn greatest_used(counts: Seq<u64>, to: nat) -> (i: int)
    requires
        to <= counts.len(),
        total(counts) > 0,
        forall|j: int| to <= j < counts.len() ==> counts[j] == 0,
    ensures
        is_last_used(counts, i),
    decreases to,
{
    if to == 0 {
        lemma_prefix_sum_tail(counts, 0);
        0
    } else if counts[to - 1] != 0 {
        to - 1
    } else {
        greatest_used(counts, (to - 1) as nat)
    }
}

/// The points of a distribution stand at strictly increasing values, and
/// their shares never increase. The first share is one; the last point
/// closes the last used slot, holds no sample and has the share
/// `1 / (total + 1)`.
pub proof fn lemma_ccdf_monotone(counts: Seq<u64>, p: nat)
    requires
        p <= MAX_PRECISION_BITS,
        counts.len() == slot_count(p),
    ensures
        ({
            let points = ccdf_points(counts, p);
            &&& forall|i: int, j: int|
                0 <= i < j < points.len() ==> points[i].0 < points[j].0 && points[i].1.num
                    >= points[j].1.num
            &&& forall|i: int|
                0 <= i < points.len() ==> 1 <= #[trigger] points[i].1.num <= points[i].1.den
                    && points[i].1.den == total(counts) + 1
            &&& points.len() > 0 ==> points[0].1.num == points[0].1.den && points.last().1.num == 1
                && points.last().2 == 0
        }),
{
    let points = ccdf_points(counts, p);
    let n = counts.len();
    lemma_used_slots(counts);
    lemma_total_fits(counts, p);
    if total(counts) > 0 {
        let first = first_used(counts);
        let last = last_used(counts);
        lemma_prefix_sum_zero(counts, first as nat);
        lemma_prefix_sum_tail(counts, (last + 1) as nat);
        assert forall|i: int| 0 <= i < points.len() implies 1 <= #[trigger] points[i].1.num
            <= points[i].1.den && points[i].1.den == total(counts) + 1 by {
            lemma_prefix_sum_bounds(counts, (first + i) as nat, (last + 1) as nat);
        }
        assert forall|i: int, j: int| 0 <= i < j < points.len() implies points[i].0 < points[j].0
            && points[i].1.num >= points[j].1.num by {
            lemma_prefix_sum_bounds(counts, (first + i) as nat, (first + j) as nat);
            lemma_prefix_sum_bounds(counts, (first + j) as nat, (last + 1) as nat);
            lemma_slot_values_increasing((first + i) as nat, (first + j) as nat, p);
        }
    }
}

/// The total, and one more, stay below `2^96`.
pub proof fn lemma_total_fits(counts: Seq<u64>, p: nat)
    requires
        p <= MAX_PRECISION_BITS,
        counts.len() == slot_count(p),
    ensures
        total(counts) + 1 < 0x1_0000_0000_0000_0000_0000_0000,
{
    let n = counts.len();
    lemma_prefix_sum_bounds(counts, n, n);
    lemma_slot_count_bounds(p);
    assert(n * u64::MAX < 43 * 0x40_0000 * 0x1_0000_0000_0000_0000) by (nonlinear_arith)
        requires
            n <= 43 * 0x40_0000,
    ;
}

impl HDRHist {
    /// The complementary cumulative distribution of the samples, by
    /// increasing value. Each point gives a value, the share of samples at
    /// or above it, and the number of samples from it up to the next
    /// point's value. An empty histogram has no points.
    pub fn ccdf(&self) -> (points: Vec<(u64, Probability, u64)>)
        requires
            self.wf(),
        ensures
            points@ == ccdf_points(self@.counts, self.precision_bits()),
            total(self@.counts) == 0 ==> points@.len() == 0,
            forall|i: int, j: int|
                0 <= i < j < points@.len() ==> points@[i].0 < points@[j].0 && points@[i].1.num
                    >= points@[j].1.num,
            forall|i: int|
                0 <= i < points@.len() ==> 1 <= #[trigger] points@[i].1.num <= points@[i].1.den
                    && points@[i].1.den == total(self@.counts) + 1,
            points@.len() > 0 ==> points@[0].1.num == points@[0].1.den && points@.last().1.num
                == 1 && points@.last().2 == 0,
    {
        let counts = self.slots();
        let precision = self.precision();
        let n = counts.len();
        let ghost p = precision as nat;
        proof {
            lemma_ccdf_monotone(self@.counts, p);
            lemma_total_fits(self@.counts, p);
            lemma_used_slots(self@.counts);
            lemma_slot_count_bounds(p);
        }
        let mut sum: u128 = 0;
        let mut i: usize = 0;
        while i < n
            invariant
                i <= n,
                n == counts@.len(),
                sum == prefix_sum(counts@, i as nat),
                prefix_sum(counts@, n as nat) + 1 < 0x1_0000_0000_0000_0000_0000_0000,
            decreases n - i,
        {
            proof {
                lemma_prefix_sum_bounds(counts@, (i + 1) as nat, n as nat);
            }
            sum = sum + counts[i] as u128;
            i += 1;
        }
        let mut points: Vec<(u64, Probability, u64)> = Vec::new();
        if sum == 0 {
            assert(points@ =~= ccdf_points(self@.counts, p));
            return points;
        }
        let mut first: usize = 0;
        while counts[first] == 0
            invariant
                first < n,
                n == counts@.len(),
                first <= first_used(counts@),
                is_first_used(counts@, first_used(counts@)),
            decreases n - first,
        {
            first += 1;
        }
        let mut last: usize = n - 1;
        while counts[last] == 0
            invariant
                last < n,
                n == counts@.len(),
                last_used(counts@) <= last,
                is_last_used(counts@, last_used(counts@)),
            decreases last,
        {
            last -= 1;
        }
        proof {
            lemma_prefix_sum_zero(counts@, first as nat);
        }
        let mut seen: u128 = 0;
        let mut slot: usize = first;
        while slot <= last + 1
            invariant
                first <= slot <= last + 2,
                last < n,
                n == counts@.len(),
                n == slot_count(p),
                n <= 43 * 0x40_0000,
                p == precision,
                precision <= MAX_PRECISION_BITS,
                first == first_used(counts@),
                last == last_used(counts@),
                sum == total(counts@),
                sum + 1 < 0x1_0000_0000_0000_0000_0000_0000,
                slot <= n ==> seen == prefix_sum(counts@, slot as nat),
                points@.len() == slot - first,
                forall|k: int|
                    0 <= k < points@.len() ==> points@[k] == ccdf_point(
                        counts@,
                        p,
                        (first + k) as nat,
                    ),
            decreases last + 2 - slot,
        {
            let value = slot_lower_bound(slot, precision);
            let count: u64 = if slot < n {
                counts[slot]
            } else {
                0
            };
            proof {
                if slot < n {
                    lemma_prefix_sum_bounds(counts@, (slot + 1) as nat, n as nat);
                } else {
                    lemma_prefix_sum_bounds(counts@, slot as nat, n as nat);
                }
            }
            let share = Probability { num: sum + 1 - seen, den: sum + 1 };
            points.push((value, share, count));
            seen = seen + count as u128;
            slot += 1;
        }
        assert(points@ =~= ccdf_points(self@.counts, p));
        points
    }

    /// Points to draw an upper bound of the distribution through: at each
    /// value it gives a share that is at least the distribution's own
    /// there, so that no quantile read off the curve is too small.
    pub fn ccdf_upper_bound(&self) -> (bounds: Vec<(u64, Probability)>)
        requires
            self.wf(),
        ensures
            bounds@ == upper_bound_points(ccdf_points(self@.counts, self.precision_bits())),
            forall|i: int|
                0 <= i < bounds@.len() ==> {
                    let at = ccdf_points(self@.counts, self.precision_bits())[i + 1];
                    #[trigger] bounds@[i].0 == at.0 && bounds@[i].1.den == at.1.den
                        && bounds@[i].1.num >= at.1.num
                },
    {
        let points = self.ccdf();
        let mut bounds: Vec<(u64, Probability)> = Vec::new();
        let mut i: usize = 1;
        while i < points.len()
            invariant
                1 <= i,
                points@.len() > 0 ==> i <= points@.len(),
                points@.len() > 0 ==> bounds@.len() == i - 1,
                points@.len() == 0 ==> bounds@.len() == 0,
                forall|k: int|
                    0 <= k < bounds@.len() ==> bounds@[k] == (points@[k + 1].0, points@[k].1),
            decreases points.len() - i,
        {
            bounds.push((points[i].0, points[i - 1].1));
            i += 1;
        }
        assert(bounds@ =~= upper_bound_points(points@));
        bounds
    }

    /// Points to draw a lower bound of the distribution through: at each
    /// value it gives a share that is at most the distribution's own there,
    /// so that no quantile read off the curve is too large.
    pub fn ccdf_lower_bound(&self) -> (bounds: Vec<(u64, Probability)>)
        requires
            self.wf(),
        ensures
            bounds@ == lower_bound_points(ccdf_points(self@.counts, self.precision_bits())),
            forall|i: int|
                0 <= i < bounds@.len() ==> {
                    let at = ccdf_points(self@.counts, self.precision_bits())[i];
                    #[trigger] bounds@[i].0 == at.0 && bounds@[i].1.den == at.1.den
                        && bounds@[i].1.num <= at.1.num
                },
    {
        let points = self.ccdf();
        let mut bounds: Vec<(u64, Probability)> = Vec::new();
        let mut i: usize = 1;
        while i < points.len()
            invariant
                1 <= i,
                points@.len() > 0 ==> i <= points@.len(),
                points@.len() > 0 ==> bounds@.len() == i - 1,
                points@.len() == 0 ==> bounds@.len() == 0,
                forall|k: int|
                    0 <= k < bounds@.len() ==> bounds@[k] == (points@[k].0, points@[k + 1].1),
            decreases points.len() - i,
        {
            bounds.push((points[i - 1].0, points[i].1));
            i += 1;
        }
        assert(bounds@ =~= lower_bound_points(points@));
        bounds
    }
}

} // verus!
