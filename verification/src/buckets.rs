//! The bucketing scheme: which counter a sample belongs to, and which values
//! a counter stands for.
//!
//! With a precision of `p` bits there are `65 - p` buckets of `2^p` slots
//! each. Bucket 0 holds the values below `2^p`, one per slot. Bucket `k > 0`
//! holds the values of bit length `k + p`, cut into `2^p` slots of `2^(k-1)`
//! consecutive values each. Slots are numbered bucket by bucket, so that a
//! larger slot number always means larger values.
use vstd::prelude::*;
use vstd::arithmetic::power2::{pow2, lemma_pow2_pos, lemma_pow2_adds, lemma_pow2_unfold,
    lemma_pow2_strictly_increases, lemma2_to64, lemma2_to64_rest};
use vstd::arithmetic::div_mod::{lemma_fundamental_div_mod, lemma_fundamental_div_mod_converse,
    lemma_mod_bound, lemma_small_mod, lemma_basic_div};
use vstd::bits::{lemma_u64_pow2_no_overflow, lemma_u64_shl_is_mul, lemma_u64_shr_is_div,
    lemma_u64_low_bits_mask_is_mod};
use vstd::std_specs::bits::{u64_leading_zeros, axiom_u64_leading_zeros};

verus! {

/// The largest sub-bucket precision, in bits: the largest one whose grid a
/// `Vec<u64>` can hold wherever `usize` has at least 32 bits. A `Vec` holds
/// fewer than `2^31` bytes there, and `43 * 2^22` counters of eight bytes
/// are the last to stay below that.
pub const MAX_PRECISION_BITS: usize = 22;

/// Number of significant bits of `v`: zero for zero, otherwise the position
/// of the highest set bit, counted from one.
pub open spec fn bit_length(v: nat) -> nat
    decreases v,
{
    if v == 0 {
        0
    } else {
        1 + bit_length(v / 2)
    }
}

/// Number of buckets for a precision of `p` bits.
pub open spec fn bucket_count(p: nat) -> nat {
    (65 - p) as nat
}

/// Number of counters for a precision of `p` bits.
pub open spec fn slot_count(p: nat) -> nat {
    bucket_count(p) * pow2(p)
}

/// The bucket of `v`: how far its bit length exceeds the precision.
pub open spec fn bucket_index(v: nat, p: nat) -> nat {
    if bit_length(v) > p {
        (bit_length(v) - p) as nat
    } else {
        0
    }
}

/// Number of low bits that bucket `index` leaves out of account.
pub open spec fn bucket_shift(index: nat) -> nat {
    if index > 0 {
        (index - 1) as nat
    } else {
        0
    }
}

/// The slot of `v` within its bucket: the `p` bits above the ones left out.
pub open spec fn sub_bucket(v: nat, p: nat) -> nat {
    (v / pow2(bucket_shift(bucket_index(v, p)))) % pow2(p)
}

/// The number of the slot that counts `v`.
pub open spec fn slot_of(v: nat, p: nat) -> nat {
    bucket_index(v, p) * pow2(p) + sub_bucket(v, p)
}

/// Number of consecutive values that share slot number `slot`.
pub open spec fn slot_width(slot: nat, p: nat) -> nat {
    pow2(bucket_shift(slot / pow2(p)))
}

/// The smallest value counted in slot number `slot`. It is defined beyond
/// the last slot too, where it continues the pattern.
pub open spec fn slot_floor(slot: nat, p: nat) -> nat {
    let index = slot / pow2(p);
    let sub = slot % pow2(p);
    if index == 0 {
        sub
    } else {
        (pow2(p) + sub) * pow2((index - 1) as nat)
    }
}

/// `slot_floor` as a `u64`, held at `u64::MAX` where it would exceed it.
pub open spec fn slot_value(slot: nat, p: nat) -> u64 {
    if slot_floor(slot, p) > u64::MAX {
        u64::MAX
    } else {
        slot_floor(slot, p) as u64
    }
}

/// Every positive `v` lies between the two powers of two that its bit length names.
pub proof fn lemma_bit_length_bounds(v: nat)
    ensures
        v < pow2(bit_length(v)),
        v > 0 ==> pow2((bit_length(v) - 1) as nat) <= v,
    decreases v,
{
    lemma2_to64();
    if v > 0 {
        lemma_bit_length_bounds(v / 2);
        lemma_pow2_unfold(bit_length(v));
        if v / 2 > 0 {
            lemma_pow2_unfold((bit_length(v) - 1) as nat);
        }
    }
}

/// A value below `2^k` has at most `k` significant bits.
pub proof fn lemma_bit_length_at_most(v: nat, k: nat)
    requires
        v < pow2(k),
    ensures
        bit_length(v) <= k,
    decreases v,
{
    lemma2_to64();
    if v > 0 {
        lemma_pow2_unfold(k);
        lemma_bit_length_at_most(v / 2, (k - 1) as nat);
    }
}

/// A slot number splits into its bucket and its place in the bucket.
pub proof fn lemma_slot_split(index: nat, sub: nat, p: nat)
    requires
        sub < pow2(p),
    ensures
        (index * pow2(p) + sub) / pow2(p) == index,
        (index * pow2(p) + sub) % pow2(p) == sub,
{
    lemma_fundamental_div_mod_converse(
        (index * pow2(p) + sub) as int,
        pow2(p) as int,
        index as int,
        sub as int,
    );
}

/// The quotient that picks the sub-bucket of a value in a bucket above the
/// first lies in `[2^p, 2^(p+1))`.
proof fn lemma_high_bucket_quotient(v: nat, p: nat)
    requires
        bucket_index(v, p) > 0,
    ensures
        pow2(p) <= v / pow2(bucket_shift(bucket_index(v, p))) < 2 * pow2(p),
        sub_bucket(v, p) + pow2(p) == v / pow2(bucket_shift(bucket_index(v, p))),
{
    let s = bucket_shift(bucket_index(v, p));
    let big = pow2(s);
    let unit = pow2(p);
    let q = v / big;
    lemma_pow2_pos(s);
    lemma_pow2_pos(p);
    lemma_bit_length_bounds(v);
    assert(bit_length(v) == p + s + 1);
    lemma_pow2_adds(p, s);
    lemma_pow2_unfold(bit_length(v));
    assert(unit * big <= v < 2 * (unit * big));
    lemma_fundamental_div_mod(v as int, big as int);
    lemma_mod_bound(v as int, big as int);
    assert(unit <= q < 2 * unit) by (nonlinear_arith)
        requires
            unit * big <= v < 2 * (unit * big),
            v == big * q + v % big,
            0 <= v % big < big,
            big > 0,
    ;
    lemma_fundamental_div_mod_converse(q as int, unit as int, 1, q - unit);
}

/// The bucket and sub-bucket of every 64-bit value are in range.
pub proof fn lemma_slot_in_range(v: u64, p: nat)
    requires
        p <= 64,
    ensures
        bucket_index(v as nat, p) < bucket_count(p),
        sub_bucket(v as nat, p) < pow2(p),
        slot_of(v as nat, p) < slot_count(p),
{
    let index = bucket_index(v as nat, p);
    let sub = sub_bucket(v as nat, p);
    let unit = pow2(p);
    lemma2_to64_rest();
    lemma_bit_length_at_most(v as nat, 64);
    lemma_pow2_pos(p);
    lemma_mod_bound((v as nat / pow2(bucket_shift(index))) as int, unit as int);
    assert(index * unit + sub < (65 - p) * unit) by (nonlinear_arith)
        requires
            index + 1 <= 65 - p,
            sub < unit,
    ;
}

/// Each slot begins where the one before it ends.
pub proof fn lemma_slot_floor_step(slot: nat, p: nat)
    ensures
        slot_floor(slot + 1, p) == slot_floor(slot, p) + slot_width(slot, p),
        slot_width(slot, p) >= 1,
{
    let unit = pow2(p);
    let index = slot / unit;
    let sub = slot % unit;
    let width = slot_width(slot, p);
    lemma_pow2_pos(p);
    lemma_pow2_pos(bucket_shift(index));
    lemma2_to64();
    lemma_fundamental_div_mod(slot as int, unit as int);
    lemma_mod_bound(slot as int, unit as int);
    assert(slot == index * unit + sub) by (nonlinear_arith)
        requires
            slot == unit * index + sub,
    ;
    if sub + 1 < unit {
        lemma_slot_split(index, sub + 1, p);
        assert((slot + 1) / unit == index && (slot + 1) % unit == sub + 1);
        if index > 0 {
            assert((unit + (sub + 1)) * width == (unit + sub) * width + width)
                by (nonlinear_arith);
        }
    } else {
        assert(slot + 1 == (index + 1) * unit + 0) by (nonlinear_arith)
            requires
                slot == index * unit + sub,
                sub + 1 == unit,
        ;
        lemma_slot_split(index + 1, 0, p);
        assert((slot + 1) / unit == index + 1 && (slot + 1) % unit == 0);
        let next = pow2(index);
        assert(slot_floor(slot + 1, p) == (unit + 0) * next);
        if index > 0 {
            lemma_pow2_unfold(index);
            assert((unit + 0) * next == (unit + sub) * width + width) by (nonlinear_arith)
                requires
                    sub + 1 == unit,
                    next == 2 * width,
            ;
        } else {
            assert((unit + 0) * next == sub + width) by (nonlinear_arith)
                requires
                    sub + 1 == unit,
                    next == 1,
                    width == 1,
            ;
        }
    }
}

/// The grid of the largest precision fits in fewer than `2^31` bytes, and
/// that of the next one would not.
pub proof fn lemma_precision_limit()
    ensures
        MAX_PRECISION_BITS == 22,
        slot_count(22) * 8 < 0x8000_0000,
        slot_count(23) * 8 >= 0x8000_0000,
{
    lemma2_to64();
    assert(slot_count(22) == 43 * 0x40_0000);
    assert(slot_count(23) == 42 * 0x80_0000);
}

/// The grid is never empty, and it fits in fewer than `2^31` bytes.
pub proof fn lemma_slot_count_bounds(p: nat)
    requires
        p <= MAX_PRECISION_BITS,
    ensures
        0 < slot_count(p) <= 43 * 0x40_0000,
        slot_count(p) * 8 < 0x8000_0000,
{
    let unit = pow2(p);
    lemma2_to64();
    lemma_pow2_pos(p);
    if p < 21 {
        lemma_pow2_strictly_increases(p, 21);
    }
    assert(0 < (65 - p) * unit <= 43 * 0x40_0000) by (nonlinear_arith)
        requires
            p <= 22,
            0 < unit,
            p == 22 ==> unit == 0x40_0000,
            p < 22 ==> unit <= 0x20_0000,
    ;
}

/// The slot past the end of the grid would begin at `2^64`.
pub proof fn lemma_slot_floor_end(p: nat)
    requires
        p <= 64,
    ensures
        slot_floor(slot_count(p), p) == pow2(64),
{
    lemma_pow2_pos(p);
    lemma_slot_split((65 - p) as nat, 0, p);
    lemma_pow2_adds(p, (64 - p) as nat);
}

/// The first bucket holds the values below `2^p`, each in a slot of its
/// own; bucket `k > 0` begins at `2^(k + p - 1)`, and each of its slots is
/// `2^(k - 1)` values wide.
pub proof fn lemma_bucket_ranges(index: nat, sub: nat, p: nat)
    requires
        sub < pow2(p),
    ensures
        index == 0 ==> slot_floor(sub, p) == sub && slot_width(sub, p) == 1,
        index > 0 ==> slot_floor(index * pow2(p), p) == pow2((index + p - 1) as nat),
        index > 0 ==> slot_width(index * pow2(p) + sub, p) == pow2((index - 1) as nat),
        index > 0 ==> slot_floor(index * pow2(p) + sub, p) == slot_floor(index * pow2(p), p) + sub
            * pow2((index - 1) as nat),
{
    let unit = pow2(p);
    lemma2_to64();
    lemma_pow2_pos(p);
    if index == 0 {
        lemma_basic_div(sub as int, unit as int);
        lemma_small_mod(sub, unit);
    } else {
        let big = pow2((index - 1) as nat);
        lemma_slot_split(index, sub, p);
        lemma_slot_split(index, 0, p);
        lemma_pow2_adds(p, (index - 1) as nat);
        assert((unit + sub) * big == (unit + 0) * big + sub * big) by (nonlinear_arith);
    }
}

/// Later slots begin at larger values.
pub proof fn lemma_slot_floor_increasing(a: nat, b: nat, p: nat)
    requires
        a < b,
    ensures
        slot_floor(a, p) < slot_floor(b, p),
    decreases b - a,
{
    lemma_slot_floor_step(a, p);
    if a + 1 < b {
        lemma_slot_floor_increasing(a + 1, b, p);
    }
}

/// On the grid and one slot past it, later slots stand for larger values.
pub proof fn lemma_slot_values_increasing(a: nat, b: nat, p: nat)
    requires
        p <= MAX_PRECISION_BITS,
        a < b <= slot_count(p),
    ensures
        slot_value(a, p) < slot_value(b, p),
        slot_value(a, p) == slot_floor(a, p),
{
    let n = slot_count(p);
    lemma_slot_floor_increasing(a, b, p);
    if b < n {
        lemma_slot_floor_increasing(b, n, p);
    }
    lemma_slot_floor_end(p);
    lemma2_to64();
    lemma_slot_floor_step((n - 1) as nat, p);
    // The last slot of the grid is more than one value wide.
    let unit = pow2(p);
    lemma_pow2_pos(p);
    assert(n - 1 == (64 - p) * unit + (unit - 1)) by (nonlinear_arith)
        requires
            n == (65 - p) * unit,
    ;
    lemma_slot_split((64 - p) as nat, (unit - 1) as nat, p);
    lemma_pow2_strictly_increases(0, (63 - p) as nat);
    if a < n - 1 {
        lemma_slot_floor_increasing(a, (n - 1) as nat, p);
    }
}

/// The slot of a value holds it: the value is at least the slot's smallest
/// value and below the next slot's.
pub proof fn lemma_slot_brackets(v: nat, p: nat)
    ensures
        slot_floor(slot_of(v, p), p) <= v < slot_floor(slot_of(v, p) + 1, p),
{
    let unit = pow2(p);
    let index = bucket_index(v, p);
    let sub = sub_bucket(v, p);
    let slot = slot_of(v, p);
    lemma_pow2_pos(p);
    lemma2_to64();
    lemma_slot_floor_step(slot, p);
    if index == 0 {
        lemma_bit_length_bounds(v);
        if bit_length(v) < p {
            lemma_pow2_strictly_increases(bit_length(v), p);
        }
        lemma_small_mod(v, unit);
        assert(v / pow2(0) == v);
        assert(index * unit == 0) by (nonlinear_arith)
            requires
                index == 0,
        ;
        assert(slot == v);
        lemma_basic_div(v as int, unit as int);
    } else {
        let big = pow2((index - 1) as nat);
        let q = v / big;
        lemma_high_bucket_quotient(v, p);
        lemma_slot_split(index, sub, p);
        lemma_pow2_pos((index - 1) as nat);
        lemma_fundamental_div_mod(v as int, big as int);
        lemma_mod_bound(v as int, big as int);
        assert(q * big <= v < q * big + big) by (nonlinear_arith)
            requires
                v == big * q + v % big,
                0 <= v % big < big,
        ;
    }
}

/// A value belongs to exactly the slot whose range holds it.
pub proof fn lemma_slot_unique(v: nat, slot: nat, p: nat)
    requires
        slot_floor(slot, p) <= v < slot_floor(slot + 1, p),
    ensures
        slot_of(v, p) == slot,
{
    let own = slot_of(v, p);
    lemma_slot_brackets(v, p);
    if own < slot {
        if own + 1 < slot {
            lemma_slot_floor_increasing(own + 1, slot, p);
        }
    } else if slot < own {
        if slot + 1 < own {
            lemma_slot_floor_increasing(slot + 1, own, p);
        }
    }
}

/// A value lies below a slot's smallest value exactly if its own slot comes earlier.
pub proof fn lemma_slot_order(v: nat, slot: nat, p: nat)
    ensures
        slot_of(v, p) < slot <==> v < slot_floor(slot, p),
{
    let own = slot_of(v, p);
    lemma_slot_brackets(v, p);
    if own < slot {
        if own + 1 < slot {
            lemma_slot_floor_increasing(own + 1, slot, p);
        }
    } else if slot < own {
        lemma_slot_floor_increasing(slot, own, p);
    }
}

/// Two different values that share a slot differ by less than `1 / 2^p` of
/// the smaller one.
pub proof fn lemma_resolution_bound(v1: nat, v2: nat, p: nat)
    requires
        v1 < v2,
        slot_of(v1, p) == slot_of(v2, p),
    ensures
        (v2 - v1) * pow2(p) < v1,
{
    let unit = pow2(p);
    let slot = slot_of(v1, p);
    let index = bucket_index(v1, p);
    let sub = sub_bucket(v1, p);
    lemma_pow2_pos(p);
    lemma2_to64();
    lemma_slot_brackets(v1, p);
    lemma_slot_brackets(v2, p);
    lemma_slot_floor_step(slot, p);
    lemma_mod_bound((v1 / pow2(bucket_shift(index))) as int, unit as int);
    lemma_slot_split(index, sub, p);
    if index > 0 {
        let big = pow2((index - 1) as nat);
        assert((v2 - v1) * unit < v1) by (nonlinear_arith)
            requires
                (unit + sub) * big <= v1,
                v1 < v2 < (unit + sub) * big + big,
                unit > 0,
                big > 0,
        ;
    }
}

/// `leading_zeros` counts the bits that the bit length leaves unused.
proof fn lemma_leading_zeros_is_bit_length(v: u64)
    ensures
        u64_leading_zeros(v) == 64 - bit_length(v as nat),
    decreases v,
{
    reveal(u64_leading_zeros);
    if v != 0 {
        lemma_leading_zeros_is_bit_length(v / 2);
    }
}

/// `2^bits` as a machine integer.
fn power_of_two(bits: usize) -> (r: u64)
    requires
        bits < 64,
    ensures
        r == pow2(bits as nat),
        r >= 1,
{
    proof {
        lemma_u64_pow2_no_overflow(bits as nat);
        lemma_u64_shl_is_mul(1, bits as u64);
    }
    1u64 << (bits as u64)
}

/// The number of the slot that counts `value` at the given precision.
pub fn slot_index(value: u64, precision: usize) -> (slot: usize)
    requires
        precision <= MAX_PRECISION_BITS,
    ensures
        slot == slot_of(value as nat, precision as nat),
        slot < slot_count(precision as nat),
{
    let used: usize = 64 - value.leading_zeros() as usize;
    let index: usize = if used > precision {
        used - precision
    } else {
        0
    };
    let shift: usize = if index > 0 {
        index - 1
    } else {
        0
    };
    let unit: u64 = power_of_two(precision);
    let sub: u64 = (value >> (shift as u64)) & (unit - 1);
    proof {
        let p = precision as nat;
        axiom_u64_leading_zeros(value);
        lemma_leading_zeros_is_bit_length(value);
        assert(index == bucket_index(value as nat, p));
        assert(shift == bucket_shift(index as nat));
        lemma_u64_shr_is_div(value, shift as u64);
        lemma_u64_low_bits_mask_is_mod(value >> (shift as u64), p);
        assert(sub == sub_bucket(value as nat, p));
        lemma_slot_in_range(value, p);
        lemma2_to64();
        lemma_pow2_strictly_increases(p, 23);
        assert(index * unit + sub < 65 * 0x80_0000) by (nonlinear_arith)
            requires
                index < 65,
                sub < unit,
                unit < 0x80_0000,
        ;
    }
    index * (unit as usize) + sub as usize
}

/// The smallest value counted in slot number `slot`, or `u64::MAX` where
/// that value would not fit: the point where the slot before it ends.
pub fn slot_lower_bound(slot: usize, precision: usize) -> (value: u64)
    requires
        precision <= MAX_PRECISION_BITS,
    ensures
        value == slot_value(slot as nat, precision as nat),
{
    let unit: u64 = power_of_two(precision);
    proof {
        lemma2_to64();
        lemma_pow2_strictly_increases(precision as nat, 23);
    }
    let index: usize = slot / (unit as usize);
    let sub: u64 = (slot % (unit as usize)) as u64;
    if index == 0 {
        sub
    } else if index > 64 - precision {
        proof {
            let p = precision as nat;
            let big = pow2((index - 1) as nat);
            let edge = pow2((64 - p) as nat);
            if index - 1 > 64 - p {
                lemma_pow2_strictly_increases((64 - p) as nat, (index - 1) as nat);
            }
            lemma_pow2_adds(p, (64 - p) as nat);
            lemma2_to64_rest();
            assert((unit + sub) * big >= unit * edge) by (nonlinear_arith)
                requires
                    big >= edge,
                    unit >= 1,
                    sub >= 0,
            ;
        }
        u64::MAX
    } else {
        proof {
            let p = precision as nat;
            let big = pow2((index - 1) as nat);
            let edge = pow2((63 - p) as nat);
            if index - 1 < 63 - p {
                lemma_pow2_strictly_increases((index - 1) as nat, (63 - p) as nat);
            }
            lemma_pow2_adds(p + 1, (63 - p) as nat);
            lemma_pow2_unfold(p + 1);
            lemma2_to64_rest();
            assert((unit + sub) * big < (2 * unit) * edge) by (nonlinear_arith)
                requires
                    0 < big <= edge,
                    sub < unit,
            ;
            lemma_u64_shl_is_mul((unit + sub) as u64, (index - 1) as u64);
        }
        (unit + sub) << ((index - 1) as u64)
    }
}

} // verus!
