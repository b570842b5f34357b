//! Binary64 (IEEE-754 double) values carried as their bit patterns: the
//! fields of a pattern, finiteness, zeros, exact negation and the numeric
//! order of finite values.
use vstd::prelude::*;

verus! {

/// The sign bit of a binary64 bit pattern.
pub open spec fn binary64_negative(bits: u64) -> bool {
    bits >= 0x8000_0000_0000_0000
}

/// The biased exponent field of a binary64 bit pattern.
pub open spec fn binary64_biased_exponent(bits: u64) -> nat {
    ((bits / 0x10_0000_0000_0000) % 0x800) as nat
}

/// The fraction field of a binary64 bit pattern.
pub open spec fn binary64_fraction(bits: u64) -> nat {
    (bits % 0x10_0000_0000_0000) as nat
}

/// Whether a binary64 bit pattern is finite (neither infinite nor NaN).
pub open spec fn binary64_is_finite(bits: u64) -> bool {
    binary64_biased_exponent(bits) != 0x7ff
}

/// Whether a binary64 bit pattern is a zero of either sign.
pub open spec fn binary64_is_zero(bits: u64) -> bool {
    bits % 0x8000_0000_0000_0000 == 0
}

/// The integer significand of a finite binary64 bit pattern.
pub open spec fn binary64_significand(bits: u64) -> nat {
    if binary64_biased_exponent(bits) == 0 {
        binary64_fraction(bits)
    } else {
        0x10_0000_0000_0000 + binary64_fraction(bits)
    }
}

/// The exponent of the least significant significand bit of a finite
/// binary64 bit pattern: its value is `significand * 2^exponent`.
pub open spec fn binary64_exponent(bits: u64) -> int {
    if binary64_biased_exponent(bits) == 0 {
        -1074
    } else {
        binary64_biased_exponent(bits) - 1075
    }
}

/// Whether the bit pattern is a zero of either sign.
pub fn is_zero_bits(bits: u64) -> (zero: bool)
    ensures
        zero == binary64_is_zero(bits),
{
    assert((bits & 0x7fff_ffff_ffff_ffff == 0) == (bits % 0x8000_0000_0000_0000 == 0)) by (bit_vector);
    bits & 0x7fff_ffff_ffff_ffff == 0
}

/// Whether the bit pattern is finite: neither an infinity nor a NaN.
pub fn is_finite_bits(bits: u64) -> (finite: bool)
    ensures
        finite == binary64_is_finite(bits),
{
    assert(((bits >> 52u64) & 0x7ff) == (bits / 0x10_0000_0000_0000) % 0x800) by (bit_vector);
    (bits >> 52u64) & 0x7ff != 0x7ff
}


/// The magnitude bits of a pattern: everything but the sign.
pub open spec fn binary64_magnitude(bits: u64) -> int {
    (bits % 0x8000_0000_0000_0000) as int
}

/// An integer key whose order is the numeric order of finite binary64
/// values: the magnitude bits, negated for a negative sign. Both zeros key
/// to `0`.
pub open spec fn binary64_order_key(bits: u64) -> int {
    if binary64_negative(bits) {
        -binary64_magnitude(bits)
    } else {
        binary64_magnitude(bits)
    }
}

/// The pattern of the negated value: the sign bit flipped.
pub open spec fn binary64_negated(bits: u64) -> u64 {
    if binary64_negative(bits) {
        (bits - 0x8000_0000_0000_0000) as u64
    } else {
        (bits + 0x8000_0000_0000_0000) as u64
    }
}

/// The order key of a bit pattern.
pub fn order_key(bits: u64) -> (key: i64)
    ensures
        key as int == binary64_order_key(bits),
{
    let magnitude = bits & 0x7fff_ffff_ffff_ffff;
    proof {
        assert(bits & 0x7fff_ffff_ffff_ffff == bits % 0x8000_0000_0000_0000) by (bit_vector);
    }
    if bits >= 0x8000_0000_0000_0000 {
        -(magnitude as i64)
    } else {
        magnitude as i64
    }
}

/// Negates a binary64 value exactly by flipping its sign bit.
pub fn negated_bits(bits: u64) -> (negated: u64)
    ensures
        negated == binary64_negated(bits),
{
    proof {
        assert(bits ^ 0x8000_0000_0000_0000 == if bits >= 0x8000_0000_0000_0000 {
            (bits - 0x8000_0000_0000_0000) as u64
        } else {
            (bits + 0x8000_0000_0000_0000) as u64
        }) by (bit_vector);
    }
    bits ^ 0x8000_0000_0000_0000
}

/// Negating twice gives the pattern back.
pub proof fn lemma_negated_involution(bits: u64)
    ensures
        binary64_negated(binary64_negated(bits)) == bits,
{
}

/// Negation keeps finiteness and negates the order key.
pub proof fn lemma_negated_value(bits: u64)
    ensures
        binary64_is_finite(binary64_negated(bits)) == binary64_is_finite(bits),
        binary64_order_key(binary64_negated(bits)) == -binary64_order_key(bits),
{
}

/// Whether a pattern is a finite value greater than zero.
pub open spec fn binary64_positive_finite(bits: u64) -> bool {
    binary64_is_finite(bits) && !binary64_negative(bits) && !binary64_is_zero(bits)
}

/// Whether a pattern is a finite value not below zero (either zero counts).
pub open spec fn binary64_nonnegative_finite(bits: u64) -> bool {
    binary64_is_finite(bits) && (!binary64_negative(bits) || binary64_is_zero(bits))
}

/// Whether the bit pattern is a finite value greater than zero.
pub fn is_positive_finite_bits(bits: u64) -> (positive: bool)
    ensures
        positive == binary64_positive_finite(bits),
{
    is_finite_bits(bits) && bits < 0x8000_0000_0000_0000 && !is_zero_bits(bits)
}

/// Whether the bit pattern is a finite value not below zero.
pub fn is_nonnegative_finite_bits(bits: u64) -> (nonnegative: bool)
    ensures
        nonnegative == binary64_nonnegative_finite(bits),
{
    is_finite_bits(bits) && (bits < 0x8000_0000_0000_0000 || is_zero_bits(bits))
}

} // verus!
