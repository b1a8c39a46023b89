//! The histogram itself: a fixed grid of counters, filled one sample at a
//! time and merged counter by counter.
use vstd::prelude::*;
use vstd::arithmetic::power2::{pow2, lemma2_to64, lemma_pow2_strictly_increases};
use vstd::bits::lemma_usize_shl_is_mul;
use crate::buckets::{MAX_PRECISION_BITS, slot_count, slot_of, slot_index};

verus! {

/// The precision of a histogram made by [`HDRHist::new`], in bits.
pub const DEFAULT_PRECISION_BITS: usize = 4;

/// A counter after one more sample: counters stop at `u64::MAX`.
pub open spec fn bump(count: u64) -> u64 {
    if count < u64::MAX {
        (count + 1) as u64
    } else {
        u64::MAX
    }
}

/// The sum of two counters, held at `u64::MAX`.
pub open spec fn merge_counts(a: u64, b: u64) -> u64 {
    if a + b > u64::MAX {
        u64::MAX
    } else {
        (a + b) as u64
    }
}

/// The counters of a histogram without samples.
pub open spec fn empty_counts(p: nat) -> Seq<u64> {
    Seq::new(slot_count(p), |i: int| 0u64)
}

/// The counters after one more sample `v`.
pub open spec fn record(counts: Seq<u64>, p: nat, v: u64) -> Seq<u64> {
    let slot = slot_of(v as nat, p) as int;
    counts.update(slot, bump(counts[slot]))
}

/// The counters after the samples of `samples`, in their order.
pub open spec fn record_all(counts: Seq<u64>, p: nat, samples: Seq<u64>) -> Seq<u64>
    decreases samples.len(),
{
    if samples.len() == 0 {
        counts
    } else {
        record(record_all(counts, p, samples.drop_last()), p, samples.last())
    }
}

/// Two grids of the same size, added counter by counter.
pub open spec fn combine(a: Seq<u64>, b: Seq<u64>) -> Seq<u64> {
    Seq::new(a.len(), |i: int| merge_counts(a[i], b[i]))
}

/// What a histogram holds: its precision in bits, and its counters in the
/// order of their slot numbers.
pub struct Grid {
    pub precision: nat,
    pub counts: Seq<u64>,
}

/// A histogram of `u64` samples. Its view is its [`Grid`].
pub struct HDRHist {
    precision: usize,
    counts: Vec<u64>,
}

impl View for HDRHist {
    type V = Grid;

    closed spec fn view(&self) -> Grid {
        Grid { precision: self.precision as nat, counts: self.counts@ }
    }
}

impl Clone for HDRHist {
    /// A histogram with the same precision and the same counters.
    fn clone(&self) -> (copy: Self)
        ensures
            copy@ == self@,
    {
        HDRHist { precision: self.precision, counts: self.counts.clone() }
    }
}

impl HDRHist {
    /// The sub-bucket precision that the histogram was made with, in bits.
    pub open spec fn precision_bits(&self) -> nat {
        self@.precision
    }

    /// The grid has the size that the precision calls for.
    pub open spec fn wf(&self) -> bool {
        &&& self.precision_bits() <= MAX_PRECISION_BITS
        &&& self@.counts.len() == slot_count(self.precision_bits())
    }

    /// An empty histogram with the default precision.
    pub fn new() -> (hist: Self)
        ensures
            hist.wf(),
            hist.precision_bits() == DEFAULT_PRECISION_BITS,
            hist@.counts == empty_counts(DEFAULT_PRECISION_BITS as nat),
    {
        Self::zeroed(DEFAULT_PRECISION_BITS)
    }

    /// An empty histogram with `2^precision_bits` slots in each bucket, or
    /// `None` where the precision is above [`MAX_PRECISION_BITS`].
    pub fn with_precision(precision_bits: usize) -> (made: Option<Self>)
        ensures
            made is Some <==> precision_bits <= MAX_PRECISION_BITS,
            made matches Some(hist) ==> hist.wf() && hist.precision_bits() == precision_bits
                && hist@.counts == empty_counts(precision_bits as nat),
    {
        if precision_bits > MAX_PRECISION_BITS {
            None
        } else {
            Some(Self::zeroed(precision_bits))
        }
    }

    /// A grid of zeroes of the size that the precision calls for.
    fn zeroed(precision: usize) -> (hist: Self)
        requires
            precision <= MAX_PRECISION_BITS,
        ensures
            hist.wf(),
            hist.precision_bits() == precision,
            hist@.counts == empty_counts(precision as nat),
    {
        proof {
            lemma2_to64();
            lemma_pow2_strictly_increases(precision as nat, 23);
            assert((65 - precision) * pow2(precision as nat) < 65 * 0x80_0000) by (nonlinear_arith)
                requires
                    precision <= 22,
                    pow2(precision as nat) < 0x80_0000,
            ;
        }
        let unit: usize = 1usize << precision;
        proof {
            lemma_usize_shl_is_mul(1, precision);
        }
        let slots: usize = (65 - precision) * unit;
        let counts: Vec<u64> = vec![0u64; slots];
        HDRHist { precision, counts }
    }

    /// The precision that the histogram was made with, in bits.
    pub fn precision(&self) -> (bits: usize)
        ensures
            bits == self.precision_bits(),
    {
        self.precision
    }

    /// The counters, in the order of their slot numbers.
    pub(crate) fn slots(&self) -> (counts: &Vec<u64>)
        ensures
            counts@ == self@.counts,
    {
        &self.counts
    }

    /// Counts one more sample: the counter of the sample's slot goes up by
    /// one, unless it has reached `u64::MAX`; no other counter changes.
    pub fn add_value(&mut self, value: u64)
        requires
            old(self).wf(),
        ensures
            final(self).wf(),
            final(self).precision_bits() == old(self).precision_bits(),
            final(self)@.counts == record(old(self)@.counts, old(self).precision_bits(), value),
            forall|slot: int|
                0 <= slot < old(self)@.counts.len() ==> old(self)@.counts[slot]
                    <= #[trigger] final(self)@.counts[slot],
    {
        let slot = slot_index(value, self.precision);
        let count = self.counts[slot];
        self.counts.set(slot, count.saturating_add(1));
    }

    /// The number of samples counted in the slot that `value` belongs to.
    pub fn count_of(&self, value: u64) -> (count: u64)
        requires
            self.wf(),
        ensures
            count == self@.counts[slot_of(value as nat, self.precision_bits()) as int],
    {
        let slot = slot_index(value, self.precision);
        self.counts[slot]
    }

    /// The histogram of the samples of both: each counter is the sum of the
    /// two counters in its place, held at `u64::MAX`.
    pub fn combined(self, other: Self) -> (merged: Self)
        requires
            self.wf(),
            other.wf(),
            self.precision_bits() == other.precision_bits(),
        ensures
            merged.wf(),
            merged.precision_bits() == self.precision_bits(),
            merged@.counts == combine(self@.counts, other@.counts),
    {
        let mut merged = self;
        let n = merged.counts.len();
        let mut i: usize = 0;
        while i < n
            invariant
                i <= n,
                n == self@.counts.len(),
                merged.counts@.len() == n,
                other.counts@.len() == n,
                merged.precision == self.precision,
                forall|j: int|
                    0 <= j < i ==> merged.counts@[j] == merge_counts(
                        self@.counts[j],
                        other@.counts[j],
                    ),
                forall|j: int| i <= j < n ==> merged.counts@[j] == self@.counts[j],
            decreases n - i,
        {
            let sum = merged.counts[i].saturating_add(other.counts[i]);
            merged.counts.set(i, sum);
            i += 1;
        }
        merged
    }
}

} // verus!
