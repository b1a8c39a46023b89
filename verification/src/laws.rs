//! What holds of the histogram as a whole: how recording and merging act
//! on the counters, and that the brackets of the quantiles hold the samples
//! they are meant to hold.
use vstd::prelude::*;
use vstd::arithmetic::power2::lemma2_to64_rest;
use crate::buckets::{MAX_PRECISION_BITS, slot_count, slot_of, slot_floor, slot_value,
    lemma_slot_in_range, lemma_slot_order, lemma_slot_floor_end, lemma_slot_floor_step,
    lemma_slot_brackets, lemma_slot_values_increasing};
use crate::histogram::{empty_counts, record_all, combine, bump};
use crate::ccdf::{prefix_sum, total, ccdf_points, ccdf_point, first_used, last_used,
    is_first_used, is_last_used,
    lemma_used_slots, lemma_prefix_sum_zero, lemma_prefix_sum_tail, lemma_prefix_sum_bounds,
    lemma_total_fits};
use crate::quantile::{Quantile, falls_short, passed_at, counted, lower_at, upper_at, advance,
    bracket_at, quantile_brackets, lemma_advance_stops, lemma_ccdf_counted,
    lemma_ccdf_counted_before};

verus! {

/// Merging does not depend on the order of the two grids.
pub proof fn lemma_combine_commutative(a: Seq<u64>, b: Seq<u64>)
    requires
        a.len() == b.len(),
    ensures
        combine(a, b) == combine(b, a),
{
    assert(combine(a, b) =~= combine(b, a));
}

/// Merging three grids gives the same counters however they are paired.
pub proof fn lemma_combine_associative(a: Seq<u64>, b: Seq<u64>, c: Seq<u64>)
    requires
        a.len() == b.len(),
        b.len() == c.len(),
    ensures
        combine(combine(a, b), c) == combine(a, combine(b, c)),
{
    assert(combine(combine(a, b), c) =~= combine(a, combine(b, c)));
}

/// Merging with an empty grid changes nothing.
pub proof fn lemma_combine_empty(a: Seq<u64>, p: nat)
    requires
        a.len() == slot_count(p),
    ensures
        combine(a, empty_counts(p)) == a,
{
    assert(combine(a, empty_counts(p)) =~= a);
}

/// `n` times the sample `v`.
pub open spec fn repeated(v: u64, n: nat) -> Seq<u64> {
    Seq::new(n, |i: int| v)
}

/// The number of samples that belong to slot number `slot`.
pub open spec fn count_in_slot(samples: Seq<u64>, p: nat, slot: nat) -> nat
    decreases samples.len(),
{
    if samples.len() == 0 {
        0
    } else {
        count_in_slot(samples.drop_last(), p, slot) + if slot_of(samples.last() as nat, p)
            == slot {
            1nat
        } else {
            0nat
        }
    }
}

/// A count as a counter holds it: stopped at `u64::MAX`.
pub open spec fn held(count: nat) -> u64 {
    if count > u64::MAX {
        u64::MAX
    } else {
        count as u64
    }
}

/// After any samples, each counter of a histogram that began empty holds
/// the number of samples that belong to its slot, stopped at `u64::MAX`.
pub proof fn lemma_counters_count(p: nat, samples: Seq<u64>)
    requires
        p <= MAX_PRECISION_BITS,
    ensures
        record_all(empty_counts(p), p, samples).len() == slot_count(p),
        forall|slot: int|
            0 <= slot < slot_count(p) ==> #[trigger] record_all(empty_counts(p), p, samples)[slot]
                == held(count_in_slot(samples, p, slot as nat)),
    decreases samples.len(),
{
    if samples.len() > 0 {
        lemma_counters_count(p, samples.drop_last());
        lemma_slot_in_range(samples.last(), p);
    }
}

/// The samples of two sequences in one slot are those of the one and those
/// of the other.
pub proof fn lemma_count_in_slot_concat(a: Seq<u64>, b: Seq<u64>, p: nat, slot: nat)
    ensures
        count_in_slot(a + b, p, slot) == count_in_slot(a, p, slot) + count_in_slot(b, p, slot),
    decreases b.len(),
{
    if b.len() == 0 {
        assert(a + b =~= a);
    } else {
        assert((a + b).drop_last() =~= a + b.drop_last());
        assert((a + b).last() == b.last());
        lemma_count_in_slot_concat(a, b.drop_last(), p, slot);
    }
}

/// Merging the histograms of two sequences of samples gives the histogram
/// of all the samples.
pub proof fn lemma_combine_is_union(p: nat, a: Seq<u64>, b: Seq<u64>)
    requires
        p <= MAX_PRECISION_BITS,
    ensures
        combine(record_all(empty_counts(p), p, a), record_all(empty_counts(p), p, b))
            == record_all(empty_counts(p), p, a + b),
{
    let merged = combine(record_all(empty_counts(p), p, a), record_all(empty_counts(p), p, b));
    let both = record_all(empty_counts(p), p, a + b);
    lemma_counters_count(p, a);
    lemma_counters_count(p, b);
    lemma_counters_count(p, a + b);
    assert forall|slot: int| 0 <= slot < slot_count(p) implies merged[slot] == both[slot] by {
        lemma_count_in_slot_concat(a, b, p, slot as nat);
    }
    assert(merged =~= both);
}

/// The same sample `n` times gives a count of `n` in its slot, stopped at
/// `u64::MAX`, and leaves every other counter at zero.
pub proof fn lemma_record_repeated(p: nat, v: u64, n: nat)
    requires
        p <= MAX_PRECISION_BITS,
    ensures
        record_all(empty_counts(p), p, repeated(v, n)).len() == slot_count(p),
        slot_of(v as nat, p) < slot_count(p),
        forall|slot: int|
            0 <= slot < slot_count(p) ==> #[trigger] record_all(
                empty_counts(p),
                p,
                repeated(v, n),
            )[slot] == if slot == slot_of(v as nat, p) {
                held(n)
            } else {
                0
            },
{
    lemma_counters_count(p, repeated(v, n));
    lemma_slot_in_range(v, p);
    lemma_count_repeated(p, v, n);
}

/// Of `n` copies of `v`, all belong to the slot of `v` and none to another.
proof fn lemma_count_repeated(p: nat, v: u64, n: nat)
    ensures
        forall|slot: nat|
            #[trigger] count_in_slot(repeated(v, n), p, slot) == if slot == slot_of(v as nat, p) {
                n
            } else {
                0
            },
    decreases n,
{
    if n > 0 {
        lemma_count_repeated(p, v, (n - 1) as nat);
        assert(repeated(v, n).drop_last() =~= repeated(v, (n - 1) as nat));
        assert(repeated(v, n).last() == v);
    }
    assert forall|slot: nat|
        #[trigger] count_in_slot(repeated(v, n), p, slot) == if slot == slot_of(v as nat, p) {
            n
        } else {
            0
        } by {
        if n > 0 {
            assert(count_in_slot(repeated(v, n), p, slot) == count_in_slot(
                repeated(v, (n - 1) as nat),
                p,
                slot,
            ) + if slot_of(v as nat, p) == slot {
                1nat
            } else {
                0nat
            });
        }
    }
}

/// The number of samples below `x`.
pub open spec fn count_below(samples: Seq<u64>, x: nat) -> nat
    decreases samples.len(),
{
    if samples.len() == 0 {
        0
    } else {
        count_below(samples.drop_last(), x) + if samples.last() < x {
            1nat
        } else {
            0nat
        }
    }
}

/// Raising the bound never lowers the count, and the count is at most the
/// number of samples.
pub proof fn lemma_count_below_monotone(samples: Seq<u64>, x: nat, y: nat)
    requires
        x <= y,
    ensures
        count_below(samples, x) <= count_below(samples, y) <= samples.len(),
    decreases samples.len(),
{
    if samples.len() > 0 {
        lemma_count_below_monotone(samples.drop_last(), x, y);
    }
}

/// A sample is not below itself: more samples are below the next value
/// than below it.
pub proof fn lemma_count_below_member(samples: Seq<u64>, x: u64)
    requires
        samples.contains(x),
    ensures
        count_below(samples, x as nat) < count_below(samples, x as nat + 1),
    decreases samples.len(),
{
    let rest = samples.drop_last();
    if samples.last() == x {
        lemma_count_below_monotone(rest, x as nat, x as nat + 1);
    } else {
        let i = choose|i: int| 0 <= i < samples.len() && samples[i] == x;
        assert(rest[i] == x);
        lemma_count_below_member(rest, x);
    }
}

/// All samples are below `2^64`.
pub proof fn lemma_count_below_all(samples: Seq<u64>, x: nat)
    requires
        x > u64::MAX,
    ensures
        count_below(samples, x) == samples.len(),
    decreases samples.len(),
{
    if samples.len() > 0 {
        lemma_count_below_all(samples.drop_last(), x);
    }
}

/// Changing one counter changes the prefix sums that reach it by as much.
pub proof fn lemma_prefix_sum_update(counts: Seq<u64>, slot: int, count: u64, n: nat)
    requires
        0 <= slot < counts.len(),
        n <= counts.len(),
    ensures
        prefix_sum(counts.update(slot, count), n) == prefix_sum(counts, n) + if slot < n {
            count - counts[slot]
        } else {
            0
        },
    decreases n,
{
    if n > 0 {
        lemma_prefix_sum_update(counts, slot, count, (n - 1) as nat);
    }
}

/// As long as no counter can have stopped, the counters before a slot sum
/// to the number of samples below the slot's smallest value.
pub proof fn lemma_prefix_counts(p: nat, samples: Seq<u64>, slot: nat)
    requires
        p <= MAX_PRECISION_BITS,
        samples.len() <= u64::MAX,
        slot <= slot_count(p),
    ensures
        prefix_sum(record_all(empty_counts(p), p, samples), slot) == count_below(
            samples,
            slot_floor(slot, p),
        ),
        total(record_all(empty_counts(p), p, samples)) == samples.len(),
        record_all(empty_counts(p), p, samples).len() == slot_count(p),
    decreases samples.len(),
{
    let n = slot_count(p);
    let counts = record_all(empty_counts(p), p, samples);
    lemma_slot_floor_end(p);
    lemma2_to64_rest();
    lemma_count_below_all(samples, slot_floor(n, p));
    if samples.len() == 0 {
        lemma_prefix_sum_zero(counts, slot);
        lemma_prefix_sum_zero(counts, n);
    } else {
        let rest = samples.drop_last();
        let v = samples.last();
        let before = record_all(empty_counts(p), p, rest);
        let own = slot_of(v as nat, p);
        lemma_prefix_counts(p, rest, slot);
        lemma_prefix_counts(p, rest, n);
        lemma_slot_in_range(v, p);
        lemma_slot_order(v as nat, slot, p);
        lemma_slot_order(v as nat, n, p);
        lemma_prefix_sum_bounds(before, own, own + 1);
        lemma_prefix_sum_bounds(before, own + 1, n);
        assert(before[own as int] < u64::MAX);
        lemma_prefix_sum_update(before, own as int, bump(before[own as int]), slot);
        lemma_prefix_sum_update(before, own as int, bump(before[own as int]), n);
    }
}

/// What the points of a distribution say of the samples: the share of a
/// point is that of the samples at or above the point's slot, with one
/// added to them and to all, and the count of a point is the number of
/// samples from its slot's smallest value up to that of the next slot.
pub proof fn lemma_ccdf_counts_samples(p: nat, samples: Seq<u64>, k: int)
    requires
        p <= MAX_PRECISION_BITS,
        samples.len() <= u64::MAX,
        0 <= k < ccdf_points(record_all(empty_counts(p), p, samples), p).len(),
    ensures
        ({
            let counts = record_all(empty_counts(p), p, samples);
            let point = ccdf_points(counts, p)[k];
            let slot = (first_used(counts) + k) as nat;
            &&& slot <= slot_count(p)
            &&& point.0 == slot_value(slot, p)
            &&& point.1.den == samples.len() + 1
            &&& point.1.num == samples.len() - count_below(samples, slot_floor(slot, p)) + 1
            &&& point.2 == count_below(samples, slot_floor(slot + 1, p)) - count_below(
                samples,
                slot_floor(slot, p),
            )
        }),
{
    let counts = record_all(empty_counts(p), p, samples);
    let slots = slot_count(p);
    let slot = (first_used(counts) + k) as nat;
    lemma_prefix_counts(p, samples, slots);
    lemma_used_slots(counts);
    lemma_total_fits(counts, p);
    lemma_prefix_sum_bounds(counts, slot, slots);
    lemma_prefix_counts(p, samples, slot);
    if slot < slots {
        lemma_prefix_counts(p, samples, slot + 1);
    } else {
        lemma_slot_floor_end(p);
        lemma2_to64_rest();
        lemma_slot_floor_step(slot, p);
        lemma_count_below_all(samples, slot_floor(slot, p));
        lemma_count_below_all(samples, slot_floor(slot + 1, p));
    }
}

/// A histogram of one distinct value has two points: the value's own slot
/// with all samples, and the point that closes it. The two values hold the
/// sample between them, but for `u64::MAX`, at which the second one stops.
pub proof fn lemma_single_value_ccdf(p: nat, v: u64, n: nat)
    requires
        p <= MAX_PRECISION_BITS,
        0 < n <= u64::MAX,
    ensures
        ({
            let points = ccdf_points(record_all(empty_counts(p), p, repeated(v, n)), p);
            &&& points.len() == 2
            &&& points[0].0 <= v
            &&& v < points[1].0 || v == u64::MAX
            &&& points[0].2 == n
            &&& points[1].2 == 0
            &&& points[0].1.num == n + 1 && points[0].1.den == n + 1
            &&& points[1].1.num == 1 && points[1].1.den == n + 1
        }),
{
    let samples = repeated(v, n);
    let counts = record_all(empty_counts(p), p, samples);
    let points = ccdf_points(counts, p);
    let own = slot_of(v as nat, p);
    lemma_record_repeated(p, v, n);
    lemma_prefix_counts(p, samples, slot_count(p));
    lemma_used_slots(counts);
    assert(is_first_used(counts, own as int));
    assert(is_last_used(counts, own as int));
    assert(points[0] == ccdf_point(counts, p, own));
    assert(points[1] == ccdf_point(counts, p, own + 1));
    lemma_prefix_sum_zero(counts, own);
    lemma_prefix_sum_tail(counts, own + 1);
    lemma_slot_brackets(v as nat, p);
    lemma_slot_values_increasing(own, own + 1, p);
}

/// `x` is the sample at the quantile: a sample such that fewer than the
/// quantile's part of the samples are below it, or none is, and at least
/// that part are at or below it. In sorted order this is the sample at the
/// place `quantile * n`, rounded up, and the first one for quantile zero.
pub open spec fn is_quantile_value(samples: Seq<u64>, quantile: Quantile, x: u64) -> bool {
    let n = samples.len();
    let below = count_below(samples, x as nat);
    &&& samples.contains(x)
    &&& below * quantile.den < quantile.num * n || below == 0
    &&& quantile.num * n <= count_below(samples, x as nat + 1) * quantile.den
}

/// The bracket of a quantile is a slot in use or between slots in use: the
/// first one from the first used slot on up to whose end the counters reach
/// the quantile's part of all samples. Its two values are the slot's
/// smallest value and that of the next slot.
pub proof fn lemma_bracket_is_slot(counts: Seq<u64>, p: nat, quantile: Quantile)
    requires
        p <= MAX_PRECISION_BITS,
        counts.len() == slot_count(p),
        total(counts) > 0,
        quantile.valid(),
    ensures
        ({
            let points = ccdf_points(counts, p);
            let taken = bracket_at(points, quantile);
            let own = (first_used(counts) + taken - 2) as nat;
            &&& 2 <= taken <= points.len()
            &&& first_used(counts) <= own <= last_used(counts)
            &&& lower_at(points, taken) == slot_value(own, p)
            &&& upper_at(points, taken) == slot_value(own + 1, p)
            &&& prefix_sum(counts, own) * quantile.den < quantile.num * total(counts) || own
                == first_used(counts)
            &&& quantile.num * total(counts) <= prefix_sum(counts, own + 1) * quantile.den
            &&& prefix_sum(counts, own + 1) >= 1
        }),
{
    let points = ccdf_points(counts, p);
    let all = total(counts);
    let (num, den) = (quantile.num as int, quantile.den as int);
    lemma_used_slots(counts);
    lemma_total_fits(counts, p);
    let first = first_used(counts);
    let last = last_used(counts);
    lemma_prefix_sum_zero(counts, first as nat);
    lemma_prefix_sum_tail(counts, (last + 1) as nat);
    lemma_prefix_sum_bounds(counts, last as nat, (last + 1) as nat);
    lemma_ccdf_counted(counts, p);

    let end = advance(points, 0, quantile);
    let taken = bracket_at(points, quantile);
    lemma_advance_stops(points, 0, quantile);
    assert(passed_at(points, 0) == 0);
    assert(passed_at(points, 1) == 0);

    let own = (first + taken - 2) as nat;
    let before = prefix_sum(counts, own);
    let through = prefix_sum(counts, own + 1);
    lemma_ccdf_counted_before(counts, p, (taken - 2) as nat);
    lemma_ccdf_counted_before(counts, p, (taken - 1) as nat);
    assert(points[taken - 2] == ccdf_point(counts, p, own));
    assert(points[taken - 1] == ccdf_point(counts, p, own + 1));
    lemma_prefix_sum_bounds(counts, (first + 1) as nat, own + 1);

    if end >= 2 {
        // The walk passed the point of the slot and stopped at the next.
        assert(falls_short(points, (end - 1) as nat, quantile));
        assert(passed_at(points, (end - 1) as nat) == before);
        assert(passed_at(points, end) == through);
        if end == points.len() {
            lemma_prefix_sum_bounds(counts, own + 1, (last + 1) as nat);
            assert(num * all <= all * den) by (nonlinear_arith)
                requires
                    0 <= num <= den,
                    0 <= all,
            ;
        }
    } else {
        // The walk did not pass the first point: nothing was asked for.
        assert(!falls_short(points, end, quantile));
        assert(passed_at(points, end) == 0);
        assert(num * all == 0) by (nonlinear_arith)
            requires
                !(0 * den < num * all),
                0 <= num,
                0 <= all,
        ;
        assert(0 <= through * den) by (nonlinear_arith)
            requires
                0 <= through,
                0 < den,
        ;
    }
}

/// The bracket of a quantile holds the sample at the quantile, whatever
/// else is asked with it.
///
/// This holds for the samples of any histogram that began empty, as long
/// as no counter can have stopped, for every quantile from zero to one,
/// and for every sample but `u64::MAX`, which no bracket can hold below
/// its upper value.
pub proof fn lemma_quantile_bracket_sound(
    p: nat,
    samples: Seq<u64>,
    quantiles: Seq<Quantile>,
    j: int,
    x: u64,
)
    requires
        p <= MAX_PRECISION_BITS,
        samples.len() <= u64::MAX,
        0 <= j < quantiles.len(),
        quantiles[j].valid(),
        is_quantile_value(samples, quantiles[j], x),
        x < u64::MAX,
    ensures
        ({
            let counts = record_all(empty_counts(p), p, samples);
            let bracket = quantile_brackets(ccdf_points(counts, p), quantiles)[j];
            bracket.0 == quantiles[j] && bracket.1 <= x < bracket.2
        }),
{
    let counts = record_all(empty_counts(p), p, samples);
    let points = ccdf_points(counts, p);
    let quantile = quantiles[j];
    let all = samples.len();
    let (num, den) = (quantile.num as int, quantile.den as int);
    let below = count_below(samples, x as nat);
    let upto = count_below(samples, x as nat + 1);
    lemma_prefix_counts(p, samples, slot_count(p));
    lemma_count_below_member(samples, x);
    lemma_count_below_monotone(samples, x as nat + 1, x as nat + 1);
    lemma_bracket_is_slot(counts, p, quantile);

    let own = (first_used(counts) + bracket_at(points, quantile) - 2) as nat;
    let before = prefix_sum(counts, own);
    let through = prefix_sum(counts, own + 1);
    lemma_used_slots(counts);
    lemma_prefix_counts(p, samples, own);
    lemma_prefix_counts(p, samples, own + 1);

    let floor = slot_floor(own, p);
    let next = slot_floor(own + 1, p);
    if x < floor {
        // Then all samples up to `x` lie before the slot.
        lemma_count_below_monotone(samples, x as nat + 1, floor);
        lemma_prefix_sum_zero(counts, first_used(counts) as nat);
        assert(upto * den <= before * den) by (nonlinear_arith)
            requires
                upto <= before,
                den > 0,
        ;
    }
    if x >= next {
        // Then the samples of the slot lie below `x`.
        lemma_count_below_monotone(samples, next, x as nat);
        assert(through * den <= below * den) by (nonlinear_arith)
            requires
                through <= below,
                den > 0,
        ;
    }
    lemma_slot_values_increasing(own, own + 1, p);
}

} // verus!
