//! Quantile estimates: for each requested quantile, the two neighbouring
//! values of the distribution between which the quantile lies.
//!
//! The estimates are read from the counts of the points, so that a bracket
//! holds the sample at the quantile itself. Each bracket depends on the
//! distribution and on its own quantile alone.
use vstd::prelude::*;
use crate::ccdf::{Probability, ccdf_points, ccdf_point, first_used, last_used, prefix_sum, total,
    lemma_used_slots, lemma_prefix_sum_zero, lemma_prefix_sum_tail, lemma_total_fits};
use crate::histogram::HDRHist;

verus! {

/// A quantile as an exact fraction `num / den`, such as 999 / 1000.
#[derive(Clone, Copy, Debug, PartialEq, Eq, Structural)]
pub struct Quantile {
    pub num: u32,
    pub den: u32,
}

impl Quantile {
    /// The fraction names a number between zero and one.
    pub open spec fn valid(&self) -> bool {
        0 < self.den && self.num <= self.den
    }
}

/// The first quantile is at most the second, as fractions.
pub open spec fn at_most(a: Quantile, b: Quantile) -> bool {
    a.num * b.den <= b.num * a.den
}

/// The number of samples in the first `k` points.
pub open spec fn counted_before(points: Seq<(u64, Probability, u64)>, k: nat) -> nat
    decreases k,
{
    if k == 0 {
        0
    } else {
        counted_before(points, (k - 1) as nat) + points[k - 1].2 as nat
    }
}

/// The number of samples in all points.
pub open spec fn counted(points: Seq<(u64, Probability, u64)>) -> nat {
    counted_before(points, points.len())
}

/// The number of samples below the value at which the walk stands after
/// `taken` points: those of the points before the one taken last.
pub open spec fn passed_at(points: Seq<(u64, Probability, u64)>, taken: nat) -> nat {
    if taken == 0 {
        0
    } else {
        counted_before(points, (taken - 1) as nat)
    }
}

/// The samples below the value at which the walk stands are fewer than the
/// quantile's part of all samples: `passed < quantile * counted`, compared
/// exactly.
pub open spec fn falls_short(
    points: Seq<(u64, Probability, u64)>,
    taken: nat,
    quantile: Quantile,
) -> bool {
    passed_at(points, taken) * quantile.den < quantile.num * counted(points)
}

/// The value of the point taken last, zero before the first point.
pub open spec fn upper_at(points: Seq<(u64, Probability, u64)>, taken: nat) -> u64 {
    if taken == 0 {
        0
    } else {
        points[taken - 1].0
    }
}

/// The value of the point taken before the last one, zero where there is none.
pub open spec fn lower_at(points: Seq<(u64, Probability, u64)>, taken: nat) -> u64 {
    if taken <= 1 {
        0
    } else {
        points[taken - 2].0
    }
}

/// Where a walk that starts after `taken` points stops for `quantile`: it
/// takes points as long as the samples below the value at which it stands
/// fall short of the quantile, and stops at the last point at the latest.
pub open spec fn advance(
    points: Seq<(u64, Probability, u64)>,
    taken: nat,
    quantile: Quantile,
) -> nat
    decreases points.len() - taken,
{
    if taken < points.len() && falls_short(points, taken, quantile) {
        advance(points, taken + 1, quantile)
    } else {
        taken
    }
}

/// The number of points up to the bracket of `quantile`: where a walk from
/// the start stops, but at least the first two points where there are two,
/// so that quantile zero gets the bracket of the smallest sample.
pub open spec fn bracket_at(points: Seq<(u64, Probability, u64)>, quantile: Quantile) -> nat {
    let end = advance(points, 0, quantile);
    if points.len() >= 2 && end < 2 {
        2
    } else {
        end
    }
}

/// For each quantile, in order, the quantile with the two values of its
/// own bracket.
pub open spec fn quantile_brackets(
    points: Seq<(u64, Probability, u64)>,
    quantiles: Seq<Quantile>,
) -> Seq<(Quantile, u64, u64)> {
    Seq::new(
        quantiles.len(),
        |j: int|
            (
                quantiles[j],
                lower_at(points, bracket_at(points, quantiles[j])),
                upper_at(points, bracket_at(points, quantiles[j])),
            ),
    )
}

/// The quantiles of the summary: 0.25, 0.5, 0.75, 0.95, 0.99, 0.999 and 1,
/// in thousandths.
pub open spec fn summary_quantiles() -> Seq<Quantile> {
    seq![
        Quantile { num: 250, den: 1000 },
        Quantile { num: 500, den: 1000 },
        Quantile { num: 750, den: 1000 },
        Quantile { num: 950, den: 1000 },
        Quantile { num: 990, den: 1000 },
        Quantile { num: 999, den: 1000 },
        Quantile { num: 1000, den: 1000 },
    ]
}

/// The counts of more points sum to at least as much.
pub proof fn lemma_counted_before_monotone(points: Seq<(u64, Probability, u64)>, m: nat, n: nat)
    requires
        m <= n,
    ensures
        counted_before(points, m) <= counted_before(points, n),
    decreases n,
{
    if m < n {
        lemma_counted_before_monotone(points, m, (n - 1) as nat);
    }
}

/// The first points of a histogram's distribution count what the slots
/// before the next point count.
pub proof fn lemma_ccdf_counted_before(counts: Seq<u64>, p: nat, k: nat)
    requires
        total(counts) > 0,
        k < ccdf_points(counts, p).len(),
    ensures
        counted_before(ccdf_points(counts, p), k) == prefix_sum(
            counts,
            (first_used(counts) + k) as nat,
        ),
    decreases k,
{
    let points = ccdf_points(counts, p);
    let first = first_used(counts);
    lemma_used_slots(counts);
    lemma_prefix_sum_zero(counts, first as nat);
    if k > 0 {
        lemma_ccdf_counted_before(counts, p, (k - 1) as nat);
        assert(points[k - 1] == ccdf_point(counts, p, (first + k - 1) as nat));
    }
}

/// The points of a histogram's distribution count all its samples.
pub proof fn lemma_ccdf_counted(counts: Seq<u64>, p: nat)
    ensures
        counted(ccdf_points(counts, p)) == total(counts),
{
    let points = ccdf_points(counts, p);
    if total(counts) > 0 {
        let first = first_used(counts);
        let last = last_used(counts);
        let k = (points.len() - 1) as nat;
        lemma_used_slots(counts);
        lemma_ccdf_counted_before(counts, p, k);
        lemma_prefix_sum_tail(counts, (last + 1) as nat);
        assert(points[k as int] == ccdf_point(counts, p, (last + 1) as nat));
        assert(points[k as int].2 == 0);
    }
}

/// Where the walk stops, it has reached the last point or a value with
/// enough samples below it; before that, the samples fell short.
pub proof fn lemma_advance_stops(
    points: Seq<(u64, Probability, u64)>,
    taken: nat,
    quantile: Quantile,
)
    requires
        taken <= points.len(),
    ensures
        ({
            let end = advance(points, taken, quantile);
            &&& taken <= end <= points.len()
            &&& end == points.len() || !falls_short(points, end, quantile)
            &&& forall|k: nat| taken <= k < end ==> #[trigger] falls_short(points, k, quantile)
        }),
    decreases points.len() - taken,
{
    if taken < points.len() && falls_short(points, taken, quantile) {
        lemma_advance_stops(points, taken + 1, quantile);
    }
}

/// A walk that starts anywhere on the way of another one for the same
/// quantile stops where that one stops.
pub proof fn lemma_advance_resumes(
    points: Seq<(u64, Probability, u64)>,
    from: nat,
    taken: nat,
    quantile: Quantile,
)
    requires
        from <= taken <= advance(points, from, quantile),
        from <= points.len(),
    ensures
        advance(points, taken, quantile) == advance(points, from, quantile),
    decreases taken - from,
{
    if from < taken {
        lemma_advance_resumes(points, from + 1, taken, quantile);
    }
}

/// What falls short of a quantile falls short of a larger one.
pub proof fn lemma_falls_short_monotone(
    points: Seq<(u64, Probability, u64)>,
    taken: nat,
    a: Quantile,
    b: Quantile,
)
    requires
        a.valid(),
        b.valid(),
        at_most(a, b),
        falls_short(points, taken, a),
    ensures
        falls_short(points, taken, b),
{
    let s = passed_at(points, taken) as int;
    let t = counted(points) as int;
    let (an, ad, bn, bd) = (a.num as int, a.den as int, b.num as int, b.den as int);
    assert(s * bd < bn * t) by (nonlinear_arith)
        requires
            s * ad < an * t,
            an * bd <= bn * ad,
            0 < ad,
            0 < bd,
            0 <= an,
            0 <= bn,
            0 <= s,
            0 <= t,
    {
        assert((s * ad) * bd < (an * t) * bd);
        assert((an * t) * bd == (an * bd) * t);
        assert((an * bd) * t <= (bn * ad) * t);
        assert((s * bd) * ad == (s * ad) * bd);
        assert((bn * ad) * t == (bn * t) * ad);
    }
}

/// A walk for a quantile does not pass the place where a walk from the
/// start for a larger quantile stops, if it starts before that place.
pub proof fn lemma_advance_within(
    points: Seq<(u64, Probability, u64)>,
    taken: nat,
    a: Quantile,
    b: Quantile,
)
    requires
        a.valid(),
        b.valid(),
        at_most(a, b),
        taken <= advance(points, 0, b),
    ensures
        advance(points, taken, a) <= advance(points, 0, b),
    decreases points.len() - taken,
{
    lemma_advance_stops(points, 0, b);
    if taken < points.len() && falls_short(points, taken, a) {
        lemma_falls_short_monotone(points, taken, a, b);
        lemma_advance_within(points, taken + 1, a, b);
    }
}

/// A walk from the start for a quantile may be taken up where the walk
/// for a smaller quantile stopped.
pub proof fn lemma_advance_continues(
    points: Seq<(u64, Probability, u64)>,
    a: Quantile,
    b: Quantile,
)
    requires
        a.valid(),
        b.valid(),
        at_most(a, b),
    ensures
        advance(points, advance(points, 0, a), b) == advance(points, 0, b),
{
    lemma_advance_within(points, 0, a, b);
    lemma_advance_resumes(points, 0, advance(points, 0, a), b);
}

/// Gives, for each quantile, the two values of its bracket among the
/// points of a distribution. The points are walked from where the walk for
/// the quantile before stopped as long as the quantiles rise, and from the
/// start otherwise. The counts of the points must sum to less than `2^96`.
pub fn walk_quantiles(points: &[(u64, Probability, u64)], quantiles: &[Quantile]) -> (brackets:
    Vec<(Quantile, u64, u64)>)
    requires
        counted(points@) < 0x1_0000_0000_0000_0000_0000_0000,
    ensures
        brackets@ == quantile_brackets(points@, quantiles@),
{
    let mut all: u128 = 0;
    let mut i: usize = 0;
    while i < points.len()
        invariant
            i <= points@.len(),
            all == counted_before(points@, i as nat),
            counted(points@) < 0x1_0000_0000_0000_0000_0000_0000,
        decreases points@.len() - i,
    {
        proof {
            lemma_counted_before_monotone(points@, (i + 1) as nat, points@.len());
        }
        all = all + points[i].2 as u128;
        i += 1;
    }
    let mut brackets: Vec<(Quantile, u64, u64)> = Vec::new();
    // The walk stands where a walk from the start for `last` stops.
    let mut last = Quantile { num: 0, den: 1 };
    let mut taken: usize = 0;
    let mut lower: u64 = 0;
    let mut upper: u64 = 0;
    // Samples in the points taken, and in those before the one taken last.
    let mut within: u128 = 0;
    let mut passed: u128 = 0;
    let mut j: usize = 0;
    assert(advance(points@, 0, last) == 0) by {
        assert(!falls_short(points@, 0, last));
    }
    while j < quantiles.len()
        invariant
            j <= quantiles@.len(),
            taken <= points@.len(),
            taken == advance(points@, 0, last),
            all == counted(points@),
            all < 0x1_0000_0000_0000_0000_0000_0000,
            within == counted_before(points@, taken as nat),
            passed == passed_at(points@, taken as nat),
            lower == lower_at(points@, taken as nat),
            upper == upper_at(points@, taken as nat),
            brackets@.len() == j,
            forall|k: int|
                0 <= k < j ==> brackets@[k] == (
                    quantiles@[k],
                    lower_at(points@, bracket_at(points@, quantiles@[k])),
                    upper_at(points@, bracket_at(points@, quantiles@[k])),
                ),
        decreases quantiles@.len() - j,
    {
        let quantile = quantiles[j];
        if rises(last, quantile) {
            proof {
                lemma_advance_continues(points@, last, quantile);
            }
        } else {
            taken = 0;
            lower = 0;
            upper = 0;
            within = 0;
            passed = 0;
        }
        let ghost start = taken as nat;
        let num = quantile.num as u128;
        let den = quantile.den as u128;
        proof {
            lemma_counted_before_monotone(points@, taken as nat, points@.len());
            if taken > 0 {
                lemma_counted_before_monotone(points@, (taken - 1) as nat, taken as nat);
            }
            assert(num * all < 0x1_0000_0000 * 0x1_0000_0000_0000_0000_0000_0000)
                by (nonlinear_arith)
                requires
                    num < 0x1_0000_0000,
                    all < 0x1_0000_0000_0000_0000_0000_0000,
            ;
        }
        let part: u128 = num * all;
        while taken < points.len() && less_product(passed, den, part)
            invariant
                start <= taken <= points@.len(),
                advance(points@, start, quantile) == advance(points@, 0, quantile),
                advance(points@, start, quantile) == advance(points@, taken as nat, quantile),
                all == counted(points@),
                all < 0x1_0000_0000_0000_0000_0000_0000,
                part == quantile.num * all,
                den == quantile.den,
                within == counted_before(points@, taken as nat),
                passed == passed_at(points@, taken as nat),
                passed <= within <= all,
                lower == lower_at(points@, taken as nat),
                upper == upper_at(points@, taken as nat),
            decreases points@.len() - taken,
        {
            let point = points[taken];
            proof {
                lemma_counted_before_monotone(points@, (taken + 1) as nat, points@.len());
            }
            lower = upper;
            upper = point.0;
            passed = within;
            within = within + point.2 as u128;
            taken += 1;
        }
        last = quantile;
        if points.len() >= 2 && taken < 2 {
            brackets.push((quantile, points[0].0, points[1].0));
        } else {
            brackets.push((quantile, lower, upper));
        }
        j += 1;
    }
    assert(brackets@ =~= quantile_brackets(points@, quantiles@));
    brackets
}

/// Whether both quantiles are fractions between zero and one and the
/// second is at least the first.
fn rises(a: Quantile, b: Quantile) -> (yes: bool)
    ensures
        yes == (a.valid() && b.valid() && at_most(a, b)),
{
    if a.den == 0 || b.den == 0 || a.num > a.den || b.num > b.den {
        return false;
    }
    assert(a.num * b.den <= 0xffff_ffff * 0xffff_ffff && b.num * a.den <= 0xffff_ffff
        * 0xffff_ffff) by (nonlinear_arith)
        requires
            a.num <= 0xffff_ffff,
            a.den <= 0xffff_ffff,
            b.num <= 0xffff_ffff,
            b.den <= 0xffff_ffff,
    ;
    (a.num as u64) * (b.den as u64) <= (b.num as u64) * (a.den as u64)
}

/// Whether `count * den < part`.
fn less_product(count: u128, den: u128, part: u128) -> (less: bool)
    requires
        count < 0x1_0000_0000_0000_0000_0000_0000,
        den < 0x1_0000_0000,
    ensures
        less == (count * den < part),
{
    assert(count * den < 0x1_0000_0000_0000_0000_0000_0000 * 0x1_0000_0000) by (nonlinear_arith)
        requires
            count < 0x1_0000_0000_0000_0000_0000_0000,
            den < 0x1_0000_0000,
    ;
    count * den < part
}

impl HDRHist {
    /// For each quantile, in the order given, the quantile with a lower and
    /// an upper value: the values of the two neighbouring points of the
    /// distribution between which the sample at the quantile lies. Quantile
    /// zero gets the bracket of the smallest sample. An empty histogram
    /// gives zero for both values.
    pub fn quantiles(&self, quantiles: &[Quantile]) -> (brackets: Vec<(Quantile, u64, u64)>)
        requires
            self.wf(),
        ensures
            brackets@ == quantile_brackets(
                ccdf_points(self@.counts, self.precision_bits()),
                quantiles@,
            ),
            brackets@.len() == quantiles@.len(),
            forall|j: int| 0 <= j < brackets@.len() ==> (#[trigger] brackets@[j]).0 == quantiles@[j],
            total(self@.counts) == 0 ==> forall|j: int|
                0 <= j < brackets@.len() ==> (#[trigger] brackets@[j]).1 == 0 && brackets@[j].2
                    == 0,
    {
        let points = self.ccdf();
        proof {
            lemma_total_fits(self@.counts, self.precision_bits());
            lemma_ccdf_counted(self@.counts, self.precision_bits());
            if total(self@.counts) == 0 {
                assert forall|j: int| 0 <= j < quantiles@.len() implies bracket_at(
                    points@,
                    #[trigger] quantiles@[j],
                ) == 0 by {
                    assert(advance(points@, 0, quantiles@[j]) == 0);
                }
            }
        }
        walk_quantiles(points.as_slice(), quantiles)
    }

    /// The brackets of the quantiles 0.25, 0.5, 0.75, 0.95, 0.99, 0.999 and 1.
    pub fn summary(&self) -> (brackets: Vec<(Quantile, u64, u64)>)
        requires
            self.wf(),
        ensures
            brackets@ == quantile_brackets(
                ccdf_points(self@.counts, self.precision_bits()),
                summary_quantiles(),
            ),
            brackets@.len() == 7,
            total(self@.counts) == 0 ==> forall|j: int|
                0 <= j < brackets@.len() ==> (#[trigger] brackets@[j]).1 == 0 && brackets@[j].2
                    == 0,
    {
        let mut quantiles: Vec<Quantile> = Vec::new();
        quantiles.push(Quantile { num: 250, den: 1000 });
        quantiles.push(Quantile { num: 500, den: 1000 });
        quantiles.push(Quantile { num: 750, den: 1000 });
        quantiles.push(Quantile { num: 950, den: 1000 });
        quantiles.push(Quantile { num: 990, den: 1000 });
        quantiles.push(Quantile { num: 999, den: 1000 });
        quantiles.push(Quantile { num: 1000, den: 1000 });
        assert(quantiles@ =~= summary_quantiles());
        self.quantiles(quantiles.as_slice())
    }
}

} // verus!
