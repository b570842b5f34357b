//! Correctly rounded binary64 addition and subtraction on bit patterns: the
//! exact sum is formed in an exact accumulator and rounded once, to nearest
//! with ties to even, as IEEE-754 prescribes; and whether a quotient
//! overflows, decided exactly.
use vstd::arithmetic::div_mod::{lemma_add_mod_noop_right, lemma_fundamental_div_mod_converse, lemma_small_mod};
use vstd::arithmetic::mul::lemma_mul_is_associative;
use vstd::arithmetic::power2::{lemma2_to64, lemma_pow2_adds, lemma_pow2_pos, lemma_pow2_strictly_increases, pow2};
use vstd::prelude::*;

use crate::binary64::{
    binary64_biased_exponent, binary64_exponent, binary64_fraction, binary64_is_finite, binary64_is_zero,
    binary64_negated, binary64_negative, binary64_significand, negated_bits,
};
use crate::solver::exact_dot::{
    accumulator_bits, accumulator_modulus, direction, product_accepted, product_term, rounded_binary64,
    twos_complement_magnitude, ExactDotAccumulator,
};

verus! {

/// The bit pattern of `1.0`.
pub const ONE_BITS: u64 = 0x3ff0_0000_0000_0000;

/// The bit pattern of `-0.0`.
pub const NEGATIVE_ZERO_BITS: u64 = 0x8000_0000_0000_0000;

/// The bit pattern of positive infinity.
pub const POSITIVE_INFINITY_BITS: u64 = 0x7ff0_0000_0000_0000;

/// The bit pattern of negative infinity.
pub const NEGATIVE_INFINITY_BITS: u64 = 0xfff0_0000_0000_0000;

/// The value of a finite binary64 pattern scaled by `2^2148`, an integer:
/// `(-1)^sign * significand * 2^(exponent + 2148)`.
pub open spec fn scaled_value(bits: u64) -> int {
    if binary64_is_zero(bits) {
        0
    } else {
        direction(binary64_negative(bits)) * (binary64_significand(bits) * pow2(
            (binary64_exponent(bits) + 2148) as nat,
        ))
    }
}

/// The binary64 pattern nearest to `exact * 2^-2148`, ties to even, with
/// the sign of `exact`; an infinity of that sign where `rounded_binary64`
/// has no result, which for a sum of binary64 values (a whole multiple of
/// the smallest subnormal) means that it rounds beyond the largest finite
/// value; `zero` when `exact` is zero.
pub open spec fn rounded_signed(exact: int, zero: u64) -> u64 {
    if exact == 0 {
        zero
    } else if exact < 0 {
        match rounded_binary64((-exact) as nat) {
            Some(magnitude) => magnitude | NEGATIVE_ZERO_BITS,
            None => NEGATIVE_INFINITY_BITS,
        }
    } else {
        match rounded_binary64(exact as nat) {
            Some(magnitude) => magnitude,
            None => POSITIVE_INFINITY_BITS,
        }
    }
}

/// The IEEE-754 sum of two finite binary64 values, rounded to nearest with
/// ties to even: the exact sum rounded once, an infinity on overflow, and
/// for an exact zero `-0` only when both values are `-0`.
pub open spec fn binary64_sum(first: u64, second: u64) -> u64 {
    rounded_signed(
        scaled_value(first) + scaled_value(second),
        if first == NEGATIVE_ZERO_BITS && second == NEGATIVE_ZERO_BITS {
            NEGATIVE_ZERO_BITS
        } else {
            0
        },
    )
}

/// The IEEE-754 difference `first - second` of two finite binary64 values:
/// the sum of `first` and the negation of `second`.
pub open spec fn binary64_difference(first: u64, second: u64) -> u64 {
    binary64_sum(first, binary64_negated(second))
}

/// A finite value times `1.0` adds its own scaled value to the accumulator.
proof fn lemma_scaled_as_product(bits: u64)
    requires
        binary64_is_finite(bits),
    ensures
        product_accepted(bits, ONE_BITS),
        product_term(bits, ONE_BITS) == scaled_value(bits),
{
    lemma2_to64();
    lemma_pow2_adds(32, 20);
    assert(binary64_biased_exponent(ONE_BITS) == 1023);
    assert(binary64_fraction(ONE_BITS) == 0);
    assert(binary64_significand(ONE_BITS) == pow2(52));
    assert(binary64_exponent(ONE_BITS) == -52);
    if !binary64_is_zero(bits) {
        let significand = binary64_significand(bits) as int;
        let exponent = binary64_exponent(bits);
        assert(exponent >= -1074);
        let rest = (exponent + 2096) as nat;
        lemma_pow2_adds(52, rest);
        assert(52 + rest == (exponent + 2148) as nat);
        assert((exponent + -52 + 2148) as nat == rest);
        lemma_mul_is_associative(significand, pow2(52) as int, pow2(rest) as int);
    }
}

/// The scaled value of a finite pattern stays below `2^3172` in magnitude.
proof fn lemma_scaled_bound(bits: u64)
    requires
        binary64_is_finite(bits),
    ensures
        -pow2(3172) < scaled_value(bits) < pow2(3172),
{
    lemma_pow2_pos(3172);
    if !binary64_is_zero(bits) {
        lemma2_to64();
        lemma_pow2_adds(32, 21);
        let significand = binary64_significand(bits);
        let shift = (binary64_exponent(bits) + 2148) as nat;
        assert(binary64_biased_exponent(bits) <= 0x7fe);
        assert(significand < pow2(53));
        assert(shift <= 3119);
        lemma_pow2_pos(shift);
        lemma_pow2_adds(53, shift);
        assert(significand * pow2(shift) < pow2(53) * pow2(shift)) by (nonlinear_arith)
            requires
                significand < pow2(53),
                pow2(shift) > 0,
        ;
        if 53 + shift < 3172 {
            lemma_pow2_strictly_increases(53 + shift, 3172);
        }
    }
}

/// An exact sum well inside the accumulator's range: its residue is zero,
/// negative and of magnitude `|exact|` exactly as `exact` is.
proof fn lemma_residue(exact: int, residue: nat)
    requires
        -pow2(4286) < exact < pow2(4286),
        residue as int == exact % accumulator_modulus() as int,
    ensures
        (residue == 0) == (exact == 0),
        (residue >= pow2((accumulator_bits() - 1) as nat)) == (exact < 0),
        twos_complement_magnitude(residue) == if exact < 0 {
            -exact
        } else {
            exact
        },
{
    let top = (accumulator_bits() - 1) as nat;
    let modulus = accumulator_modulus() as int;
    lemma_pow2_strictly_increases(4286, top);
    lemma_pow2_adds(top, 1);
    lemma2_to64();
    assert(modulus == 2 * pow2(top));
    if exact >= 0 {
        lemma_small_mod(exact as nat, modulus as nat);
    } else {
        lemma_fundamental_div_mod_converse(exact, modulus, -1, modulus + exact);
    }
}

/// The correctly rounded sum of two finite binary64 values.
pub fn binary64_add(first: u64, second: u64) -> (sum: u64)
    requires
        binary64_is_finite(first),
        binary64_is_finite(second),
    ensures
        sum == binary64_sum(first, second),
{
    proof {
        lemma_scaled_as_product(first);
        lemma_scaled_as_product(second);
        lemma_scaled_bound(first);
        lemma_scaled_bound(second);
        lemma_pow2_adds(3172, 1);
        lemma_pow2_strictly_increases(3173, 4286);
        lemma2_to64();
        lemma_pow2_pos(accumulator_bits());
    }
    let mut accumulator = ExactDotAccumulator::new();
    let _first_added = accumulator.try_add_product(first, ONE_BITS);
    let ghost after_first = accumulator@;
    let _second_added = accumulator.try_add_product(second, ONE_BITS);
    let ghost exact = scaled_value(first) + scaled_value(second);
    proof {
        let modulus = accumulator_modulus() as int;
        assert(after_first as int == scaled_value(first) % modulus);
        lemma_add_mod_noop_right(scaled_value(second), scaled_value(first), modulus);
        assert(accumulator@ as int == exact % modulus);
        lemma_residue(exact, accumulator@);
    }
    if accumulator.is_zero() {
        if first == NEGATIVE_ZERO_BITS && second == NEGATIVE_ZERO_BITS {
            return NEGATIVE_ZERO_BITS;
        }
        return 0;
    }
    let negative = accumulator.is_negative();
    match accumulator.try_abs_bits() {
        Some(magnitude) => {
            if negative {
                magnitude | NEGATIVE_ZERO_BITS
            } else {
                magnitude
            }
        },
        None => {
            if negative {
                NEGATIVE_INFINITY_BITS
            } else {
                POSITIVE_INFINITY_BITS
            }
        },
    }
}

/// The correctly rounded difference `first - second` of two finite binary64
/// values.
pub fn binary64_subtract(first: u64, second: u64) -> (difference: u64)
    requires
        binary64_is_finite(first),
        binary64_is_finite(second),
    ensures
        difference == binary64_difference(first, second),
{
    let negated = negated_bits(second);
    binary64_add(first, negated)
}

/// The largest finite binary64 value.
pub const LARGEST_FINITE_BITS: u64 = 0x7fef_ffff_ffff_ffff;

/// Half a unit in the last place of the largest finite value, `2^970`.
pub const HALF_LAST_PLACE_BITS: u64 = 0x7c90_0000_0000_0000;

/// Whether the quotient of a finite nonnegative `numerator` by a finite
/// positive `denominator`, rounded to nearest with ties to even, is
/// infinite: the exact quotient reaches the midpoint between the largest
/// finite value and `2^1024`, where the tie goes to the even `2^1024`.
pub open spec fn quotient_overflows(numerator: u64, denominator: u64) -> bool {
    scaled_value(numerator) >= product_term(LARGEST_FINITE_BITS, denominator) + product_term(
        HALF_LAST_PLACE_BITS,
        denominator,
    )
}

/// The product of two finite values, scaled, stays below `2^4196` in
/// magnitude.
proof fn lemma_product_bound(first: u64, second: u64)
    requires
        binary64_is_finite(first),
        binary64_is_finite(second),
    ensures
        -pow2(4196) < product_term(first, second) < pow2(4196),
{
    lemma_pow2_pos(4196);
    if !binary64_is_zero(first) && !binary64_is_zero(second) {
        lemma2_to64();
        lemma_pow2_adds(32, 21);
        let a = binary64_significand(first);
        let b = binary64_significand(second);
        let shift = (binary64_exponent(first) + binary64_exponent(second) + 2148) as nat;
        assert(binary64_biased_exponent(first) <= 0x7fe);
        assert(binary64_biased_exponent(second) <= 0x7fe);
        assert(a < pow2(53) && b < pow2(53));
        assert(shift <= 4090);
        lemma_pow2_pos(shift);
        lemma_pow2_pos(53);
        lemma_pow2_adds(53, 53);
        lemma_pow2_adds(106, shift);
        assert(a * b * pow2(shift) < pow2(53) * pow2(53) * pow2(shift)) by (nonlinear_arith)
            requires
                a < pow2(53),
                b < pow2(53),
                pow2(shift) > 0,
        ;
        if 106 + shift < 4196 {
            lemma_pow2_strictly_increases(106 + shift, 4196);
        }
    }
}

/// Whether `numerator / denominator` overflows to infinity when rounded.
pub fn quotient_overflows_bits(numerator: u64, denominator: u64) -> (overflows: bool)
    requires
        binary64_is_finite(numerator),
        binary64_is_finite(denominator),
    ensures
        overflows == quotient_overflows(numerator, denominator),
{
    let negated_largest = negated_bits(LARGEST_FINITE_BITS);
    let negated_half = negated_bits(HALF_LAST_PLACE_BITS);
    proof {
        lemma_scaled_as_product(numerator);
        lemma_scaled_bound(numerator);
        lemma_product_bound(LARGEST_FINITE_BITS, denominator);
        lemma_product_bound(HALF_LAST_PLACE_BITS, denominator);
        crate::solver::exact_dot::lemma_negated_factor_cancels(LARGEST_FINITE_BITS, denominator);
        crate::solver::exact_dot::lemma_negated_factor_cancels(HALF_LAST_PLACE_BITS, denominator);
        lemma_pow2_strictly_increases(3172, 4196);
        lemma_pow2_adds(4196, 2);
        lemma2_to64();
        lemma_pow2_strictly_increases(4198, 4286);
        lemma_pow2_pos(accumulator_bits());
    }
    let mut accumulator = ExactDotAccumulator::new();
    let _numerator_added = accumulator.try_add_product(numerator, ONE_BITS);
    let ghost first = accumulator@;
    let _largest_added = accumulator.try_add_product(negated_largest, denominator);
    let ghost second = accumulator@;
    let _half_added = accumulator.try_add_product(negated_half, denominator);
    let ghost x = scaled_value(numerator);
    let ghost y = -product_term(LARGEST_FINITE_BITS, denominator);
    let ghost z = -product_term(HALF_LAST_PLACE_BITS, denominator);
    proof {
        let modulus = accumulator_modulus() as int;
        assert(first as int == x % modulus);
        lemma_add_mod_noop_right(y, x, modulus);
        assert(second as int == (x + y) % modulus);
        lemma_add_mod_noop_right(z, x + y, modulus);
        assert(accumulator@ as int == (x + y + z) % modulus);
        lemma_residue(x + y + z, accumulator@);
    }
    !accumulator.is_negative()
}

} // verus!
