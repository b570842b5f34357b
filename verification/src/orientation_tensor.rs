//! Orientation-tensor estimation vocabulary, and the exact dyadic sum that
//! decides the sign of a principal minor without rounding.
//!
//! The exact sum keeps the positive and the negative products apart, each as
//! a natural number of `EXACT_SUM_LIMBS` 64-bit limbs scaled by
//! `2^-MINIMUM_TRIPLE_EXPONENT`; factors are binary64 bit patterns.
use vstd::arithmetic::div_mod::lemma_fundamental_div_mod_converse;
use vstd::arithmetic::mul::{lemma_mul_inequality, lemma_mul_is_associative};
use vstd::arithmetic::power2::{lemma2_to64, lemma_pow2_adds, lemma_pow2_pos, pow2};
use vstd::prelude::*;

use crate::binary64::{
    binary64_biased_exponent, binary64_exponent, binary64_fraction, binary64_is_finite, binary64_is_zero,
    binary64_magnitude, binary64_negated, binary64_negative, binary64_significand, is_zero_bits,
};
use crate::limbs::{lemma_limbs_bound, lemma_limbs_split, lemma_limbs_take_step, lemma_shl_split, limbs_value};
use crate::solver::exact_dot::exact_factor;
use core::cmp::Ordering;

verus! {

/// Whether ratios were supplied directly or selected by cross-validation.
#[derive(Clone, Copy, Debug, PartialEq, Eq, Structural, Hash)]
pub enum AxisRatioSelectionKind {
    /// A caller supplied the selected ratios directly.
    Fixed,
    /// Deterministic leave-one-out cross-validation selected a candidate.
    LeaveOneOut,
}

/// Spectral path used internally for the returned tensor decomposition.
#[derive(Clone, Copy, Debug, PartialEq, Eq, Structural, Hash)]
pub enum OrientationTensorSpectralBackend {
    /// The primary bounded symmetric eigendecomposition returned nonnegative values.
    SymmetricEigen,
    /// Exact-sign PSD certification allowed a bounded SVD after eigensolver roundoff.
    PositiveSemidefiniteSvd,
}

/// Orientation-tensor failures decided without floating-point arithmetic.
#[derive(Clone, Copy, Debug, PartialEq, Eq)]
#[non_exhaustive]
pub enum OrientationTensorError {
    /// A numerical result could not be represented.
    NonFiniteNumericalResult {
        /// The operation that failed.
        operation: &'static str,
    },
}

/// The number of 64-bit limbs of each side of an exact dyadic sum.
pub const EXACT_SUM_LIMBS: usize = 100;

/// The exponent of the least significant bit an exact dyadic sum represents.
pub const MINIMUM_TRIPLE_EXPONENT: i32 = -3222;

/// One limb of a product with carry keeps the running equation.
proof fn lemma_multiply_step(done: int, source: int, factor: int, carry: int, word: int, next_carry: int, limb: int, weight: int)
    by (nonlinear_arith)
    requires
        done + carry * weight == source * factor,
        word + next_carry * 0x1_0000_0000_0000_0000 == limb * factor + carry,
    ensures
        (done + word * weight) + next_carry * (weight * 0x1_0000_0000_0000_0000) == (source + limb * weight)
            * factor,
{
}

/// Multiplies a three-limb significand by a 64-bit factor in place, modulo
/// `2^192`; reports whether the product fit.
pub fn multiply_significand(product: &mut [u64; 3], factor: u64) -> (fits: bool)
    ensures
        limbs_value(final(product)@) as int == (limbs_value(old(product)@) * factor) % (pow2(192) as int),
        fits == (limbs_value(old(product)@) * factor < pow2(192)),
{
    let ghost original = product@;
    let mut carry: u128 = 0;
    let mut index: usize = 0;
    proof {
        lemma2_to64();
        assert(product@.take(0).len() == 0);
        assert(original.take(0).len() == 0);
        assert(limbs_value(original.take(0)) == 0);
        assert(limbs_value(original.take(0)) * factor == 0) by (nonlinear_arith)
            requires
                limbs_value(original.take(0)) == 0,
        ;
        assert(0 * pow2(0) == 0);
    }
    while index < 3
        invariant
            index <= 3,
            product@.len() == 3,
            original.len() == 3,
            carry < 0x1_0000_0000_0000_0000,
            limbs_value(product@.take(index as int)) + carry * pow2((64 * index) as nat) == limbs_value(
                original.take(index as int),
            ) * factor,
            forall|j: int| index <= j < 3 ==> product@[j] == original[j],
        decreases 3 - index,
    {
        let limb = product[index];
        proof {
            assert(limb as int * factor as int <= 0xffff_ffff_ffff_ffff * 0xffff_ffff_ffff_ffff) by (
            nonlinear_arith)
                requires
                    limb <= 0xffff_ffff_ffff_ffff,
                    factor <= 0xffff_ffff_ffff_ffff,
            ;
        }
        let next = limb as u128 * factor as u128 + carry;
        proof {
            assert(next & 0xffff_ffff_ffff_ffffu128 == next % 0x1_0000_0000_0000_0000u128) by (bit_vector);
            assert(next >> 64u128 == next / 0x1_0000_0000_0000_0000u128) by (bit_vector);
        }
        let word = (next & 0xffff_ffff_ffff_ffffu128) as u64;
        let next_carry = next >> 64u128;
        let ghost before = product@;
        product[index] = word;
        proof {
            let i = index as int;
            lemma2_to64();
            assert(product@.take(i) =~= before.take(i));
            lemma_limbs_take_step(product@, i);
            lemma_limbs_take_step(original, i);
            lemma_pow2_adds((64 * i) as nat, 64);
            assert((64 * i) as nat + 64 == (64 * (i + 1)) as nat);
            lemma_multiply_step(
                limbs_value(before.take(i)) as int,
                limbs_value(original.take(i)) as int,
                factor as int,
                carry as int,
                word as int,
                next_carry as int,
                original[i] as int,
                pow2((64 * i) as nat) as int,
            );
        }
        carry = next_carry;
        index += 1;
    }
    proof {
        assert(product@.take(3) =~= product@);
        assert(original.take(3) =~= original);
        lemma_limbs_bound(product@);
        lemma_pow2_pos(192);
        lemma_fundamental_div_mod_converse(
            limbs_value(original) * factor,
            pow2(192) as int,
            carry as int,
            limbs_value(product@) as int,
        );
        if carry > 0 {
            lemma_mul_inequality(1, carry as int, pow2(192) as int);
        }
    }
    carry == 0
}

/// Raises a three-limb value by `bit_shift < 64` bits into four limbs.
fn shifted_limbs(value: &[u64; 3], bit_shift: usize) -> (shifted: [u64; 4])
    requires
        bit_shift < 64,
    ensures
        limbs_value(shifted@) == limbs_value(value@) * pow2(bit_shift as nat),
{
    let v0 = value[0];
    let v1 = value[1];
    let v2 = value[2];
    proof {
        lemma2_to64();
        lemma_pow2_adds(64, 64);
        lemma_pow2_adds(128, 64);
        assert(value@.take(0).len() == 0);
        lemma_limbs_take_step(value@, 0);
        lemma_limbs_take_step(value@, 1);
        lemma_limbs_take_step(value@, 2);
        assert(value@.take(3) =~= value@);
    }
    if bit_shift == 0 {
        let shifted = [v0, v1, v2, 0];
        proof {
            assert(shifted@.take(0).len() == 0);
            lemma_limbs_take_step(shifted@, 0);
            lemma_limbs_take_step(shifted@, 1);
            lemma_limbs_take_step(shifted@, 2);
            lemma_limbs_take_step(shifted@, 3);
            assert(shifted@.take(4) =~= shifted@);
            assert(shifted@[3] as nat * pow2((64 * 3) as nat) == 0) by (nonlinear_arith)
                requires
                    shifted@[3] == 0,
            ;
            assert(limbs_value(value@) * pow2(0) == limbs_value(value@)) by (nonlinear_arith)
                requires
                    pow2(0) == 1,
            ;
        }
        return shifted;
    }
    let b = bit_shift as u64;
    let back = 64 - b;
    let shifted = [v0 << b, (v1 << b) | (v0 >> back), (v2 << b) | (v1 >> back), v2 >> back];
    proof {
        assert((v1 << b) | (v0 >> back) == (v1 << b) + (v0 >> back)) by (bit_vector)
            requires
                0 < b < 64,
                back == 64 - b,
        ;
        assert((v2 << b) | (v1 >> back) == (v2 << b) + (v1 >> back)) by (bit_vector)
            requires
                0 < b < 64,
                back == 64 - b,
        ;
        lemma_shl_split(v0, b);
        lemma_shl_split(v1, b);
        lemma_shl_split(v2, b);
        assert(shifted@.take(0).len() == 0);
        lemma_limbs_take_step(shifted@, 0);
        lemma_limbs_take_step(shifted@, 1);
        lemma_limbs_take_step(shifted@, 2);
        lemma_limbs_take_step(shifted@, 3);
        assert(shifted@.take(4) =~= shifted@);
        let p = pow2(b as nat) as int;
        let w = pow2(64) as int;
        assert((v0 as int + v1 as int * w + v2 as int * (w * w)) * p == v0 as int * p + (v1 as int * p) * w
            + (v2 as int * p) * (w * w)) by (nonlinear_arith);
        assert(((v1 << b) as int + (v0 >> back) as int) * w + ((v2 << b) as int + (v1 >> back) as int) * (w
            * w) + (v2 >> back) as int * (w * (w * w)) == (v0 >> back) as int * w + ((v1 << b) as int + w
            * (v1 >> back) as int) * w + ((v2 << b) as int + w * (v2 >> back) as int) * (w * w))
            by (nonlinear_arith);
        assert(pow2(64) * pow2(64) == pow2(128));
        assert(pow2(128) * pow2(64) == pow2(192));
        assert(v0 as int * pow2(0) == v0 as int) by (nonlinear_arith)
            requires
                pow2(0) == 1,
        ;
        assert(pow2((64 * 1) as nat) == pow2(64));
        assert(pow2((64 * 2) as nat) == pow2(128));
        assert(limbs_value(value@) == v0 as int + v1 as int * w + v2 as int * (w * w));
    }
    shifted
}

/// One limb of a carried sum keeps the running equation.
proof fn lemma_add_step(
    done: int,
    source: int,
    consumed: int,
    weight: int,
    limb_weight: int,
    limb: int,
    limb_source: int,
    part: int,
    carry_in: int,
    carry_out: int,
)
    by (nonlinear_arith)
    requires
        done + carry_in * limb_weight == source + consumed * weight,
        limb + carry_out * 0x1_0000_0000_0000_0000 == limb_source + part + carry_in,
    ensures
        (done + limb * limb_weight) + carry_out * (limb_weight * 0x1_0000_0000_0000_0000) == (source
            + limb_source * limb_weight) + (consumed * weight + part * limb_weight),
{
}

/// One limb of a 128-bit sum: its low word and its carry.
fn split_sum(sum: u128) -> (parts: (u64, u128))
    ensures
        parts.0 as int + parts.1 * 0x1_0000_0000_0000_0000 == sum,
        parts.1 == sum / 0x1_0000_0000_0000_0000,
{
    proof {
        assert(sum & 0xffff_ffff_ffff_ffffu128 == sum % 0x1_0000_0000_0000_0000u128) by (bit_vector);
        assert(sum >> 64u128 == sum / 0x1_0000_0000_0000_0000u128) by (bit_vector);
    }
    ((sum & 0xffff_ffff_ffff_ffffu128) as u64, sum >> 64u128)
}

/// Adds `value * 2^shift` to the target limbs. Succeeds exactly when the
/// four limbs of the raised value start early enough to fit and the sum
/// stays below `2^(64 * EXACT_SUM_LIMBS)`; on failure the target is left
/// partly updated, and its owner treats it as overflowed.
pub fn add_shifted(target: &mut [u64; EXACT_SUM_LIMBS], value: &[u64; 3], shift: usize) -> (added: bool)
    ensures
        added == (shift / 64 + 4 <= EXACT_SUM_LIMBS && limbs_value(old(target)@) + limbs_value(value@)
            * pow2(shift as nat) < pow2((64 * EXACT_SUM_LIMBS) as nat)),
        added ==> limbs_value(final(target)@) == limbs_value(old(target)@) + limbs_value(value@) * pow2(
            shift as nat,
        ),
{
    let word_shift = shift / 64;
    let bit_shift = shift % 64;
    let shifted = shifted_limbs(value, bit_shift);
    if word_shift >= EXACT_SUM_LIMBS {
        return false;
    }
    let ghost original = target@;
    let ghost weight = pow2((64 * word_shift) as nat) as int;
    let ghost raised = limbs_value(value@) * pow2(shift as nat);
    proof {
        lemma2_to64();
        assert(shifted@.take(0).len() == 0);
        assert(0 * weight == 0);
        lemma_pow2_adds((64 * word_shift) as nat, bit_shift as nat);
        assert((64 * word_shift) as nat + bit_shift as nat == shift as nat);
        lemma_mul_is_associative(limbs_value(value@) as int, pow2(bit_shift as nat) as int, weight);
        assert(limbs_value(shifted@) * weight == raised);
    }
    let mut carry: u128 = 0;
    let mut offset: usize = 0;
    while offset < 4
        invariant
            offset <= 4,
            word_shift == shift / 64,
            word_shift < EXACT_SUM_LIMBS,
            word_shift + offset <= EXACT_SUM_LIMBS,
            carry <= 1,
            target@.len() == EXACT_SUM_LIMBS,
            original.len() == EXACT_SUM_LIMBS,
            original == old(target)@,
            shifted@.len() == 4,
            weight == pow2((64 * word_shift) as nat),
            limbs_value(target@.take((word_shift + offset) as int)) + carry * pow2(
                (64 * (word_shift + offset)) as nat,
            ) == limbs_value(original.take((word_shift + offset) as int)) + limbs_value(
                shifted@.take(offset as int),
            ) * weight,
            forall|j: int| word_shift + offset <= j < EXACT_SUM_LIMBS ==> target@[j] == original[j],
        decreases 4 - offset,
    {
        let index = word_shift + offset;
        if index >= EXACT_SUM_LIMBS {
            proof {
                assert(shift / 64 + 4 > EXACT_SUM_LIMBS);
            }
            return false;
        }
        let (limb, next) = split_sum(target[index] as u128 + shifted[offset] as u128 + carry);
        let ghost before = target@;
        target[index] = limb;
        proof {
            let i = index as int;
            let k = offset as int;
            let lw = pow2((64 * i) as nat) as int;
            lemma2_to64();
            assert(target@.take(i) =~= before.take(i));
            lemma_limbs_take_step(target@, i);
            lemma_limbs_take_step(original, i);
            lemma_limbs_take_step(shifted@, k);
            lemma_pow2_adds((64 * i) as nat, 64);
            assert((64 * i) as nat + 64 == (64 * (i + 1)) as nat);
            lemma_pow2_adds((64 * k) as nat, (64 * word_shift) as nat);
            assert((64 * k) as nat + (64 * word_shift) as nat == (64 * i) as nat);
            let consumed = limbs_value(shifted@.take(k)) as int;
            let part = shifted@[k] as int;
            let a = pow2((64 * k) as nat) as int;
            assert((consumed + part * a) * weight == consumed * weight + part * (a * weight))
                by (nonlinear_arith);
            lemma_add_step(
                limbs_value(before.take(i)) as int,
                limbs_value(original.take(i)) as int,
                consumed,
                weight,
                lw,
                limb as int,
                before[i] as int,
                part,
                carry as int,
                next as int,
            );
        }
        carry = next;
        offset += 1;
    }
    let mut index = word_shift + 4;
    proof {
        assert(shifted@.take(4) =~= shifted@);
    }
    while carry != 0
        invariant
            word_shift + 4 <= index <= EXACT_SUM_LIMBS,
            word_shift == shift / 64,
            raised == limbs_value(value@) * pow2(shift as nat),
            carry <= 1,
            target@.len() == EXACT_SUM_LIMBS,
            original.len() == EXACT_SUM_LIMBS,
            original == old(target)@,
            limbs_value(target@.take(index as int)) + carry * pow2((64 * index) as nat) == limbs_value(
                original.take(index as int),
            ) + raised,
            forall|j: int| index <= j < EXACT_SUM_LIMBS ==> target@[j] == original[j],
        decreases EXACT_SUM_LIMBS - index,
    {
        if index >= EXACT_SUM_LIMBS {
            proof {
                assert(target@.take(index as int) =~= target@);
                assert(original.take(index as int) =~= original);
                lemma_limbs_bound(target@);
                assert(carry == 1);
                assert(limbs_value(original) + raised >= pow2((64 * EXACT_SUM_LIMBS) as nat));
            }
            return false;
        }
        let (limb, next) = split_sum(target[index] as u128 + carry);
        let ghost before = target@;
        target[index] = limb;
        proof {
            let i = index as int;
            let lw = pow2((64 * i) as nat) as int;
            lemma2_to64();
            assert(target@.take(i) =~= before.take(i));
            lemma_limbs_take_step(target@, i);
            lemma_limbs_take_step(original, i);
            lemma_pow2_adds((64 * i) as nat, 64);
            assert((64 * i) as nat + 64 == (64 * (i + 1)) as nat);
            lemma_add_step(
                limbs_value(before.take(i)) as int,
                limbs_value(original.take(i)) as int,
                raised as int,
                1,
                lw,
                limb as int,
                before[i] as int,
                0,
                carry as int,
                next as int,
            );
        }
        carry = next;
        index += 1;
    }
    proof {
        let i = index as int;
        lemma_limbs_split(target@, i);
        lemma_limbs_split(original, i);
        assert(target@.skip(i) =~= original.skip(i));
        lemma_limbs_bound(target@);
        assert(0 * pow2((64 * index) as nat) == 0);
    }
    true
}

/// A factor that neither stops nor poisons a product: finite and nonzero.
pub open spec fn factor_regular(bits: u64) -> bool {
    !binary64_is_zero(bits) && binary64_is_finite(bits)
}

/// The index of the first factor that is zero or not finite; the length
/// when every factor is regular.
pub open spec fn first_exceptional(factors: Seq<u64>) -> nat
    decreases factors.len(),
{
    if factors.len() == 0 {
        0
    } else if !factor_regular(factors[0]) {
        0
    } else {
        1 + first_exceptional(factors.drop_first())
    }
}

/// The product of the factors' integer significands.
pub open spec fn significand_product(factors: Seq<u64>) -> nat
    decreases factors.len(),
{
    if factors.len() == 0 {
        1
    } else {
        significand_product(factors.drop_last()) * binary64_significand(factors.last())
    }
}

/// The sum of the factors' least-significant-bit exponents.
pub open spec fn exponent_sum(factors: Seq<u64>) -> int
    decreases factors.len(),
{
    if factors.len() == 0 {
        0
    } else {
        exponent_sum(factors.drop_last()) + binary64_exponent(factors.last())
    }
}

/// Whether an odd number of the factors are negative.
pub open spec fn negative_parity(factors: Seq<u64>) -> bool
    decreases factors.len(),
{
    if factors.len() == 0 {
        false
    } else {
        negative_parity(factors.drop_last()) != binary64_negative(factors.last())
    }
}

/// The first exceptional factor is where the regular prefix ends.
proof fn lemma_first_exceptional(factors: Seq<u64>, index: int)
    requires
        0 <= index <= factors.len(),
        forall|j: int| 0 <= j < index ==> factor_regular(#[trigger] factors[j]),
        index < factors.len() ==> !factor_regular(factors[index]),
    ensures
        first_exceptional(factors) == index,
    decreases index,
{
    if index > 0 {
        let rest = factors.drop_first();
        assert forall|j: int| 0 <= j < index - 1 implies factor_regular(#[trigger] rest[j]) by {
            assert(rest[j] == factors[j + 1]);
        }
        assert(factors[0] == factors[0]);
        assert(factor_regular(factors[0]));
        lemma_first_exceptional(rest, index - 1);
    }
}

/// The parts a finite nonzero binary64 pattern contributes to a product:
/// its integer significand, the exponent of its least significant bit, and
/// its sign; `None` for a zero, an infinity or a NaN.
pub fn dyadic_parts(bits: u64) -> (parts: Option<(u64, i32, bool)>)
    ensures
        parts is None <==> !factor_regular(bits),
        parts matches Some(p) ==> p.0 as nat == binary64_significand(bits) && p.1 as int == binary64_exponent(
            bits,
        ) && p.2 == binary64_negative(bits),
{
    match exact_factor(bits) {
        Some((negative, significand, exponent)) => Some((significand, exponent, negative)),
        None => None,
    }
}

/// An exact sum of signed products of binary64 values: positive and
/// negative products accumulate apart, and an overflowed sum stays so.
#[derive(Clone, Copy, Debug)]
pub struct ExactDyadicSum {
    positive: [u64; EXACT_SUM_LIMBS],
    negative: [u64; EXACT_SUM_LIMBS],
    overflowed: bool,
}

/// The ordering of two natural numbers.
pub open spec fn ordering_of(first: nat, second: nat) -> Ordering {
    if first > second {
        Ordering::Greater
    } else if first < second {
        Ordering::Less
    } else {
        Ordering::Equal
    }
}

/// What adding the product of `factors`, signed by `sign`, does to a sum:
/// a zero factor met before any non-finite one leaves it unchanged; a
/// non-finite factor first marks it overflowed; otherwise the scaled product
/// joins the side its sign picks, or marks the sum overflowed when that side
/// would leave its limbs.
pub open spec fn product_added(before: ExactDyadicSum, after: ExactDyadicSum, factors: Seq<u64>, sign: u64) -> bool {
    let stop = first_exceptional(factors);
    if stop < factors.len() {
        if binary64_is_zero(factors[stop as int]) {
            after == before
        } else {
            after.spec_overflowed() && after.spec_positive() == before.spec_positive()
                && after.spec_negative() == before.spec_negative()
        }
    } else {
        let negative = binary64_negative(sign) != negative_parity(factors);
        let term = significand_product(factors) * pow2(
            (exponent_sum(factors) - MINIMUM_TRIPLE_EXPONENT) as nat,
        );
        let limit = pow2((64 * EXACT_SUM_LIMBS) as nat);
        if negative {
            after.spec_positive() == before.spec_positive() && if before.spec_negative() + term < limit {
                after.spec_negative() == before.spec_negative() + term && after.spec_overflowed()
                    == before.spec_overflowed()
            } else {
                after.spec_overflowed()
            }
        } else {
            after.spec_negative() == before.spec_negative() && if before.spec_positive() + term < limit {
                after.spec_positive() == before.spec_positive() + term && after.spec_overflowed()
                    == before.spec_overflowed()
            } else {
                after.spec_overflowed()
            }
        }
    }
}

/// Bounds on the running product and exponent of up to three regular factors.
proof fn lemma_regular_prefix(factors: Seq<u64>, index: int)
    requires
        0 <= index <= factors.len(),
        forall|j: int| 0 <= j < index ==> factor_regular(#[trigger] factors[j]),
    ensures
        1 <= significand_product(factors.take(index)) <= pow2((53 * index) as nat),
        -1074 * index <= exponent_sum(factors.take(index)) <= 971 * index,
    decreases index,
{
    lemma2_to64();
    if index == 0 {
        assert(factors.take(0).len() == 0);
    } else {
        let prefix = factors.take(index);
        assert(prefix.drop_last() =~= factors.take(index - 1));
        lemma_regular_prefix(factors, index - 1);
        let last = factors[index - 1];
        assert(prefix.last() == last);
        assert(factor_regular(last));
        let sig = binary64_significand(last);
        assert(1 <= sig < 0x20_0000_0000_0000) by {
            if binary64_biased_exponent(last) == 0 {
                assert(binary64_fraction(last) != 0);
            }
        }
        lemma_pow2_adds(32, 21);
        lemma_pow2_adds((53 * (index - 1)) as nat, 53);
        assert((53 * (index - 1)) as nat + 53 == (53 * index) as nat);
        let before = significand_product(factors.take(index - 1)) as int;
        assert(before * sig <= pow2((53 * (index - 1)) as nat) * pow2(53)) by (nonlinear_arith)
            requires
                1 <= before <= pow2((53 * (index - 1)) as nat),
                1 <= sig < pow2(53),
        ;
        assert(before * sig >= 1) by (nonlinear_arith)
            requires
                1 <= before,
                1 <= sig,
        ;
    }
}

impl ExactDyadicSum {
    /// The sum of the positive products, scaled.
    pub closed spec fn spec_positive(self) -> nat {
        limbs_value(self.positive@)
    }

    /// The sum of the magnitudes of the negative products, scaled.
    pub closed spec fn spec_negative(self) -> nat {
        limbs_value(self.negative@)
    }

    /// Whether some product could not be represented.
    pub closed spec fn spec_overflowed(self) -> bool {
        self.overflowed
    }

    /// An empty sum.
    pub fn zero() -> (sum: Self)
        ensures
            sum.spec_positive() == 0,
            sum.spec_negative() == 0,
            !sum.spec_overflowed(),
    {
        let sum = ExactDyadicSum {
            positive: [0; EXACT_SUM_LIMBS],
            negative: [0; EXACT_SUM_LIMBS],
            overflowed: false,
        };
        proof {
            crate::limbs::lemma_limbs_zero(sum.positive@);
            crate::limbs::lemma_limbs_zero(sum.negative@);
        }
        sum
    }

    /// Adds `left * right`, negated when `sign` has its sign bit set.
    pub fn add_product(&mut self, left: u64, right: u64, sign: u64)
        ensures
            product_added(*old(self), *final(self), seq![left, right], sign),
    {
        let factors = [left, right];
        proof {
            assert(factors@ =~= seq![left, right]);
        }
        self.add_factors(&factors, sign);
    }

    /// Adds `first * second * third`, negated when `sign` has its sign bit set.
    pub fn add_triple_product(&mut self, first: u64, second: u64, third: u64, sign: u64)
        ensures
            product_added(*old(self), *final(self), seq![first, second, third], sign),
    {
        let factors = [first, second, third];
        proof {
            assert(factors@ =~= seq![first, second, third]);
        }
        self.add_factors(&factors, sign);
    }

    /// Adds the signed product of up to three factors.
    fn add_factors(&mut self, factors: &[u64], sign: u64)
        requires
            factors@.len() <= 3,
        ensures
            product_added(*old(self), *final(self), factors@, sign),
    {
        let mut product: [u64; 3] = [1, 0, 0];
        let mut exponent: i32 = 0;
        let mut negative = sign >= 0x8000_0000_0000_0000;
        let mut index: usize = 0;
        proof {
            lemma2_to64();
            assert(product@.take(0).len() == 0);
            lemma_limbs_take_step(product@, 0);
            lemma_limbs_take_step(product@, 1);
            lemma_limbs_take_step(product@, 2);
            assert(product@.take(3) =~= product@);
            assert(1 * pow2(0) == 1);
            assert(0 * pow2(64) == 0);
            assert(0 * pow2(128) == 0);
            assert(factors@.take(0).len() == 0);
        }
        while index < factors.len()
            invariant
                index <= factors@.len() <= 3,
                *self == *old(self),
                forall|j: int| 0 <= j < index ==> factor_regular(#[trigger] factors@[j]),
                limbs_value(product@) == significand_product(factors@.take(index as int)),
                exponent as int == exponent_sum(factors@.take(index as int)),
                negative == (binary64_negative(sign) != negative_parity(factors@.take(index as int))),
            decreases factors@.len() - index,
        {
            let factor = factors[index];
            if crate::binary64::is_zero_bits(factor) {
                proof {
                    lemma_first_exceptional(factors@, index as int);
                }
                return;
            }
            let (significand, factor_exponent, factor_negative) = match dyadic_parts(factor) {
                Some(parts) => parts,
                None => {
                    self.overflowed = true;
                    proof {
                        lemma_first_exceptional(factors@, index as int);
                    }
                    return;
                },
            };
            proof {
                lemma_regular_prefix(factors@, index as int);
                lemma_regular_prefix(factors@, index as int + 1);
                let next = factors@.take(index as int + 1);
                assert(next.drop_last() =~= factors@.take(index as int));
                assert(next.last() == factor);
                vstd::arithmetic::power2::lemma_pow2_strictly_increases(
                    (53 * (index as int + 1)) as nat,
                    192,
                );
            }
            negative = negative != factor_negative;
            exponent = exponent + factor_exponent;
            if !multiply_significand(&mut product, significand) {
                self.overflowed = true;
                return;
            }
            proof {
                vstd::arithmetic::div_mod::lemma_small_mod(
                    significand_product(factors@.take(index as int + 1)),
                    pow2(192),
                );
            }
            index += 1;
        }
        proof {
            lemma_first_exceptional(factors@, index as int);
            assert(factors@.take(index as int) =~= factors@);
            lemma_regular_prefix(factors@, index as int);
        }
        let offset = exponent - MINIMUM_TRIPLE_EXPONENT;
        if offset < 0 {
            self.overflowed = true;
            return;
        }
        let shift = offset as usize;
        proof {
            assert(shift / 64 + 4 <= EXACT_SUM_LIMBS);
        }
        if negative {
            if !add_shifted(&mut self.negative, &product, shift) {
                self.overflowed = true;
            }
        } else {
            if !add_shifted(&mut self.positive, &product, shift) {
                self.overflowed = true;
            }
        }
    }
}

/// The highest limb at which two runs of limbs differ, if any.
fn highest_difference(first: &[u64; EXACT_SUM_LIMBS], second: &[u64; EXACT_SUM_LIMBS]) -> (found: Option<usize>)
    ensures
        found is None ==> first@ == second@,
        found matches Some(index) ==> index < EXACT_SUM_LIMBS && first@[index as int] != second@[index as int]
            && forall|j: int| index < j < EXACT_SUM_LIMBS ==> first@[j] == second@[j],
{
    let mut index: usize = EXACT_SUM_LIMBS;
    while index > 0
        invariant
            index <= EXACT_SUM_LIMBS,
            forall|j: int| index <= j < EXACT_SUM_LIMBS ==> first@[j] == second@[j],
        decreases index,
    {
        index -= 1;
        if first[index] != second[index] {
            return Some(index);
        }
    }
    assert(first@ =~= second@);
    None
}

/// Runs of equal length that agree above a limb compare as that limb does.
proof fn lemma_highest_difference(larger: Seq<u64>, smaller: Seq<u64>, index: usize)
    requires
        larger.len() == smaller.len(),
        index < larger.len(),
        larger[index as int] > smaller[index as int],
        forall|j: int| index < j < larger.len() ==> larger[j] == smaller[j],
    ensures
        limbs_value(larger) > limbs_value(smaller),
{
    let i = index as int;
    lemma_limbs_split(larger, i + 1);
    lemma_limbs_split(smaller, i + 1);
    assert(larger.skip(i + 1) =~= smaller.skip(i + 1));
    lemma_limbs_take_step(larger, i);
    lemma_limbs_take_step(smaller, i);
    lemma_limbs_bound(smaller.take(i));
    assert(smaller.take(i).len() == i);
    let p = pow2((64 * i) as nat) as int;
    assert(larger[i] as int * p >= smaller[i] as int * p + p) by (nonlinear_arith)
        requires
            larger[i] as int >= smaller[i] as int + 1,
            p >= 0,
    ;
}

impl ExactDyadicSum {
    /// The sign of the exact sum, as the ordering of its positive part
    /// against its negative part; fails once any product overflowed.
    pub fn exact_sign(&self) -> (result: Result<Ordering, OrientationTensorError>)
        ensures
            self.spec_overflowed() ==> (result matches Err(
                OrientationTensorError::NonFiniteNumericalResult { .. },
            )),
            !self.spec_overflowed() ==> result == Ok::<Ordering, OrientationTensorError>(
                ordering_of(self.spec_positive(), self.spec_negative()),
            ),
    {
        if self.overflowed {
            return Err(
                OrientationTensorError::NonFiniteNumericalResult {
                    operation: "exact dyadic principal-minor accumulation",
                },
            );
        }
        match highest_difference(&self.positive, &self.negative) {
            None => Ok(Ordering::Equal),
            Some(index) => {
                if self.positive[index] > self.negative[index] {
                    proof {
                        lemma_highest_difference(self.positive@, self.negative@, index);
                    }
                    Ok(Ordering::Greater)
                } else {
                    proof {
                        lemma_highest_difference(self.negative@, self.positive@, index);
                    }
                    Ok(Ordering::Less)
                }
            },
        }
    }
}

/// Adding a product and then the same product with the opposite sign
/// leaves the difference of the two sides as it was, unless the sum
/// overflowed.
pub proof fn lemma_opposite_products_cancel(
    before: ExactDyadicSum,
    middle: ExactDyadicSum,
    after: ExactDyadicSum,
    factors: Seq<u64>,
    sign: u64,
)
    requires
        product_added(before, middle, factors, sign),
        product_added(middle, after, factors, binary64_negated(sign)),
        !after.spec_overflowed(),
    ensures
        after.spec_positive() - after.spec_negative() == before.spec_positive() - before.spec_negative(),
{
    assert(binary64_negative(binary64_negated(sign)) == !binary64_negative(sign));
}

/// The neighbouring binary64 value one unit in the last place closer to
/// zero; either zero gives positive zero.
pub fn next_toward_zero(bits: u64) -> (next: u64)
    ensures
        binary64_is_zero(bits) ==> next == 0,
        !binary64_is_zero(bits) ==> next == bits - 1 && binary64_negative(next) == binary64_negative(bits)
            && binary64_magnitude(next) == binary64_magnitude(bits) - 1,
{
    if is_zero_bits(bits) {
        0
    } else {
        bits - 1
    }
}

/// The neighbouring binary64 value one unit in the last place above a
/// nonnegative value.
pub fn next_up_nonnegative(bits: u64) -> (next: u64)
    requires
        bits < u64::MAX,
    ensures
        next == bits + 1,
        bits < 0x7ff0_0000_0000_0000 ==> binary64_magnitude(next) == binary64_magnitude(bits) + 1
            && binary64_negative(next) == binary64_negative(bits),
{
    bits + 1
}

} // verus!
