//! A fixed-width two's-complement accumulator that sums products of binary64
//! values without rounding, and rounds the magnitude once at the end.
//!
//! Values are carried as IEEE-754 binary64 bit patterns. Every finite product
//! `a * b` equals `(-1)^s * m * 2^e` with an integer `m < 2^106` and
//! `e >= EXACT_PRODUCT_MIN_EXPONENT`; the accumulator holds the sum of the
//! terms `(-1)^s * m * 2^(e - EXACT_PRODUCT_MIN_EXPONENT)` modulo
//! `2^(64 * EXACT_DOT_LIMBS)`, little-endian in 64-bit limbs.
use vstd::arithmetic::div_mod::{
    lemma_div_denominator, lemma_fundamental_div_mod, lemma_fundamental_div_mod_converse,
};
use vstd::arithmetic::mul::{lemma_mul_inequality, lemma_mul_is_associative, lemma_mul_nonnegative};
use vstd::arithmetic::power2::{lemma2_to64, lemma_pow2_adds, lemma_pow2_pos, lemma_pow2_strictly_increases, pow2};
use vstd::bits::{lemma_u64_shl_is_mul, lemma_u64_shr_is_div};
use vstd::prelude::*;
use vstd::std_specs::bits::u64_leading_zeros;

use crate::limbs::{
    lemma_div_add_multiple, lemma_limbs_bound, lemma_limbs_div_mod, lemma_limbs_first, lemma_limbs_split,
    lemma_limbs_take_step, lemma_limbs_zero, lemma_shl_split, lemma_shl_truncates, limbs_value,
};

use crate::binary64::{
    binary64_biased_exponent, binary64_exponent, binary64_fraction, binary64_is_finite, binary64_is_zero,
    binary64_negated, binary64_negative, binary64_significand, is_zero_bits,
};

verus! {

/// The exponent of the least significant bit the accumulator represents.
pub const EXACT_PRODUCT_MIN_EXPONENT: i32 = -2148;

/// The number of 64-bit limbs of the accumulator.
pub const EXACT_DOT_LIMBS: usize = 67;

/// The width of the accumulator in bits.
pub open spec fn accumulator_bits() -> nat {
    64 * EXACT_DOT_LIMBS as nat
}

/// `2^width` of the accumulator: the modulus of its arithmetic.
pub open spec fn accumulator_modulus() -> nat {
    pow2(accumulator_bits())
}

/// Shifting right by a bit count inside the limbs: the limb holding the bit,
/// divided within itself, plus the limbs above it at their new weight.
proof fn lemma_limbs_shift_right(limbs: Seq<u64>, shift: nat)
    requires
        shift < 64 * limbs.len(),
    ensures
        limbs_value(limbs) / pow2(shift) == limbs[(shift / 64) as int] as nat / pow2(shift % 64)
            + pow2((64 - shift % 64) as nat) * limbs_value(limbs.skip((shift / 64) as int + 1)),
{
    let w = (shift / 64) as int;
    let off = shift % 64;
    let tail = limbs.skip(w);
    lemma_pow2_pos((64 * w) as nat);
    lemma_pow2_pos(off);
    lemma_pow2_adds((64 * w) as nat, off);
    assert((64 * w) as nat + off == shift);
    lemma_div_denominator(limbs_value(limbs) as int, pow2((64 * w) as nat) as int, pow2(off) as int);
    lemma_limbs_div_mod(limbs, w);
    lemma_limbs_first(tail);
    assert(tail.skip(1) =~= limbs.skip(w + 1));
    lemma_pow2_adds(off, (64 - off) as nat);
    let rest = limbs_value(limbs.skip(w + 1)) as int;
    let hi = pow2((64 - off) as nat) as int;
    let lo = pow2(off) as int;
    assert(pow2(64) * rest == lo * (hi * rest)) by {
        lemma_mul_is_associative(lo, hi, rest);
    }
    lemma_pow2_pos((64 - off) as nat);
    lemma_mul_nonnegative(hi, rest);
    lemma_div_add_multiple(limbs[w] as int, lo, hi * rest);
}

/// The position of the highest set bit of a nonzero word.
proof fn lemma_leading_zeros_bounds(word: u64)
    requires
        word != 0,
    ensures
        0 <= u64_leading_zeros(word) <= 63,
        pow2((63 - u64_leading_zeros(word)) as nat) <= word,
        word < pow2((64 - u64_leading_zeros(word)) as nat),
    decreases word,
{
    reveal(u64_leading_zeros);
    lemma2_to64();
    if word == 1 {
        assert(u64_leading_zeros(0) == 64);
    } else {
        let half = word / 2;
        lemma_leading_zeros_bounds(half);
        let k = (63 - u64_leading_zeros(half)) as nat;
        lemma_pow2_adds(k, 1);
        lemma_pow2_adds(k + 1, 1);
        if k == 63 {
            lemma_pow2_adds(63, 1);
            assert(false);
        }
    }
}

/// Whether bit `bit` of the limbs is set.
pub open spec fn limbs_bit(limbs: Seq<u64>, bit: nat) -> bool {
    (limbs_value(limbs) / pow2(bit)) % 2 == 1
}

/// Reports whether bit `bit` of the words is set; bits past the last limb
/// read as clear.
pub fn bit_is_set(words: &[u64; EXACT_DOT_LIMBS], bit: usize) -> (set: bool)
    ensures
        set == limbs_bit(words@, bit as nat),
{
    let word = bit / 64;
    if word >= EXACT_DOT_LIMBS {
        proof {
            lemma_limbs_bound(words@);
            if bit as nat > accumulator_bits() {
                lemma_pow2_strictly_increases(accumulator_bits(), bit as nat);
            }
            lemma_pow2_pos(bit as nat);
            vstd::arithmetic::div_mod::lemma_basic_div(limbs_value(words@) as int, pow2(bit as nat) as int);
        }
        return false;
    }
    let offset = bit % 64;
    let limb = words[word];
    let set = limb & (1u64 << offset as u64) != 0;
    proof {
        let off = offset as u64;
        lemma_limbs_shift_right(words@, bit as nat);
        assert(limb & (1u64 << off) != 0 <==> (limb >> off) % 2 == 1) by (bit_vector)
            requires
                off < 64,
        ;
        lemma_u64_shr_is_div(limb, off);
        lemma_pow2_pos((64 - offset) as nat);
        lemma_pow2_pos((63 - offset) as nat);
        lemma_pow2_adds(1, (63 - offset) as nat);
        lemma2_to64();
        let rest = limbs_value(words@.skip(word as int + 1)) as int;
        let k = pow2((63 - offset) as nat) as int * rest;
        assert(pow2((64 - offset) as nat) * rest == 2 * k) by {
            lemma_mul_is_associative(2, pow2((63 - offset) as nat) as int, rest);
        }
        lemma_mul_nonnegative(pow2((63 - offset) as nat) as int, rest);
        lemma_div_add_multiple((limb as nat / pow2(offset as nat)) as int, 2, k);
    }
    set
}

/// Joining the high bits of one word with the low bits of the next is the
/// sum of the two pieces, taken modulo `2^64`.
proof fn lemma_join_words(x: u64, y: u64, off: u64)
    requires
        0 < off < 64,
    ensures
        ((x >> off) | (y << ((64 - off) as u64))) as nat == (x as nat / pow2(off as nat) + pow2(
            (64 - off) as nat,
        ) * y as nat) % pow2(64),
{
    let up = (64 - off) as u64;
    assert((x >> off) | (y << up) == (x >> off) + (y << up)) by (bit_vector)
        requires
            0 < off < 64,
            up == 64 - off,
    ;
    lemma_u64_shr_is_div(x, off);
    lemma_shl_truncates(y, up);
    lemma2_to64();
    lemma_pow2_pos(off as nat);
    lemma_pow2_pos(up as nat);
    lemma_pow2_adds(off as nat, up as nat);
    let hi = x as nat / pow2(off as nat);
    assert(hi < pow2(up as nat)) by {
        vstd::arithmetic::div_mod::lemma_div_is_ordered(x as int, 0xffff_ffff_ffff_ffff, pow2(off as nat) as int);
        assert(x as int <= pow2(64) - 1);
        vstd::arithmetic::div_mod::lemma_div_multiples_vanish_quotient(1, pow2(up as nat) as int, pow2(off as nat) as int);
        vstd::arithmetic::div_mod::lemma_div_is_ordered(x as int, pow2(64) - 1, pow2(off as nat) as int);
        lemma_fundamental_div_mod(pow2(64) - 1, pow2(off as nat) as int);
        lemma_mul_is_associative(pow2(up as nat) as int, pow2(off as nat) as int, 1);
        lemma_div_add_multiple(pow2(off as nat) - 1, pow2(off as nat) as int, pow2(up as nat) - 1);
        assert(pow2(off as nat) - 1 + pow2(off as nat) * (pow2(up as nat) - 1) == pow2(64) - 1) by (nonlinear_arith)
            requires
                pow2(off as nat) * pow2(up as nat) == pow2(64),
        ;
        vstd::arithmetic::div_mod::lemma_basic_div(pow2(off as nat) - 1, pow2(off as nat) as int);
    }
    let low = y as nat % pow2(off as nat);
    assert(up as nat == (64 - off) as nat);
    assert(64 - up == off);
    lemma_fundamental_div_mod(y as int, pow2(off as nat) as int);
    let q = y as nat / pow2(off as nat);
    assert(pow2(up as nat) * y == pow2(up as nat) * low + pow2(64) * q) by (nonlinear_arith)
        requires
            y == pow2(off as nat) * q + low,
            pow2(off as nat) * pow2(up as nat) == pow2(64),
    ;
    lemma_mul_nonnegative(pow2(64) as int, q as int);
    vstd::arithmetic::mul::lemma_mul_is_commutative(low as int, pow2(up as nat) as int);
    lemma_div_add_multiple((hi + pow2(up as nat) * low) as int, pow2(64) as int, q as int);
    vstd::arithmetic::div_mod::lemma_small_mod((hi + pow2(up as nat) * low) as nat, pow2(64));
}

/// The 64 bits of the words starting at bit `shift`; bits past the last limb
/// read as clear.
#[verifier::rlimit(30)]
pub fn shifted_low_u64(words: &[u64; EXACT_DOT_LIMBS], shift: usize) -> (bits: u64)
    ensures
        bits as nat == (limbs_value(words@) / pow2(shift as nat)) % pow2(64),
{
    let word = shift / 64;
    let offset = shift % 64;
    let low = if word < EXACT_DOT_LIMBS {
        words[word] >> offset as u64
    } else {
        0
    };
    let bits = if offset == 0 {
        low
    } else {
        let next = if word + 1 < EXACT_DOT_LIMBS {
            words[word + 1]
        } else {
            0
        };
        low | (next << (64 - offset) as u64)
    };
    proof {
        lemma2_to64();
        lemma_pow2_pos(shift as nat);
        if word >= EXACT_DOT_LIMBS {
            lemma_limbs_bound(words@);
            if shift as nat > accumulator_bits() {
                lemma_pow2_strictly_increases(accumulator_bits(), shift as nat);
            }
            vstd::arithmetic::div_mod::lemma_basic_div(limbs_value(words@) as int, pow2(shift as nat) as int);
            let up = (64 - offset) as u64;
            assert(0u64 | (0u64 << up) == 0) by (bit_vector);
        } else {
            let rest = words@.skip(word as int + 1);
            lemma_limbs_shift_right(words@, shift as nat);
            if offset == 0 {
                let limb = words[word as int];
                assert(limb >> 0u64 == limb) by (bit_vector);
                lemma_mul_nonnegative(pow2(64) as int, limbs_value(rest) as int);
                lemma_div_add_multiple(words[word as int] as int, pow2(64) as int, limbs_value(rest) as int);
                vstd::arithmetic::div_mod::lemma_small_mod(words[word as int] as nat, pow2(64));
            } else {
                let off = offset as u64;
                let next: u64 = if word + 1 < EXACT_DOT_LIMBS { words[word as int + 1] } else { 0 };
                let up = pow2((64 - off) as nat) as int;
                lemma_pow2_pos((64 - off) as nat);
                if word + 1 < EXACT_DOT_LIMBS {
                    lemma_limbs_first(rest);
                } else {
                    assert(rest.len() == 0);
                }
                let further = if word + 1 < EXACT_DOT_LIMBS { limbs_value(rest.skip(1)) as int } else { 0 };
                assert(limbs_value(rest) == next + pow2(64) * further);
                lemma_pow2_adds((64 - off) as nat, 64);
                assert(up * (next + pow2(64) * further) == up * next + pow2(64) * (up * further)) by {
                    vstd::arithmetic::mul::lemma_mul_is_distributive_add(up, next as int, pow2(64) * further);
                    lemma_mul_is_associative(up, pow2(64) as int, further);
                    lemma_mul_is_associative(pow2(64) as int, up, further);
                    vstd::arithmetic::mul::lemma_mul_is_commutative(up, pow2(64) as int);
                }
                lemma_mul_nonnegative(up, further);
                lemma_mul_nonnegative(up, next as int);
                lemma_pow2_pos(off as nat);
                lemma_div_add_multiple(
                    words[word as int] as nat / pow2(off as nat) + up * next,
                    pow2(64) as int,
                    up * further,
                );
                lemma_join_words(words[word as int], next, off);
            }
        }
    }
    bits
}

/// Whether the limbs hold a set bit below bit `exclusive`.
pub open spec fn limbs_any_below(limbs: Seq<u64>, exclusive: nat) -> bool {
    limbs_value(limbs) % pow2(exclusive) != 0
}

/// Reports whether any bit below bit `exclusive` is set.
pub fn any_bits_below(words: &[u64; EXACT_DOT_LIMBS], exclusive: usize) -> (any: bool)
    requires
        exclusive / 64 <= EXACT_DOT_LIMBS,
    ensures
        any == limbs_any_below(words@, exclusive as nat),
{
    let full_words = exclusive / 64;
    let mut index: usize = 0;
    while index < full_words
        invariant
            index <= full_words <= EXACT_DOT_LIMBS,
            full_words == exclusive / 64,
            forall|j: int| 0 <= j < index ==> words[j] == 0,
        decreases full_words - index,
    {
        if words[index] != 0 {
            proof {
                let prefix = words@.take(full_words as int);
                lemma_limbs_zero(prefix);
                assert(prefix[index as int] != 0);
                lemma_limbs_below(words@, exclusive as nat);
            }
            return true;
        }
        index += 1;
    }
    let remainder = exclusive % 64;
    let any = if remainder != 0 && full_words < EXACT_DOT_LIMBS {
        proof {
            vstd::bits::lemma_u64_pow2_no_overflow(remainder as nat);
            vstd::bits::lemma_u64_shl_is_mul(1, remainder as u64);
        }
        let mask = (1u64 << remainder as u64) - 1;
        words[full_words] & mask != 0
    } else {
        false
    };
    proof {
        let prefix = words@.take(full_words as int);
        lemma_limbs_zero(prefix);
        assert forall|j: int| 0 <= j < prefix.len() implies prefix[j] == 0 by {
            assert(prefix[j] == words[j]);
        }
        lemma_limbs_below(words@, exclusive as nat);
        lemma2_to64();
        if remainder != 0 && full_words < EXACT_DOT_LIMBS {
            let r = remainder as u64;
            vstd::bits::lemma_u64_pow2_no_overflow(r as nat);
            vstd::bits::lemma_u64_shl_is_mul(1, r);
            vstd::bits::lemma_u64_low_bits_mask_is_mod(words[full_words as int], r as nat);
            assert(((1u64 << r) - 1) as u64 == vstd::bits::low_bits_mask(r as nat) as u64);
        }
    }
    any
}

/// Regrouping a limb split at a bit inside it.
proof fn lemma_regroup(base: int, limb: int, word_base: int, rest: int, pr: int, pu: int, q: int, m: int)
    requires
        limb == pr * q + m,
        word_base == pr * pu,
    ensures
        base * (limb + word_base * rest) == base * m + (base * pr) * (q + pu * rest),
{
    vstd::arithmetic::mul::lemma_mul_is_distributive_add(base, limb, word_base * rest);
    vstd::arithmetic::mul::lemma_mul_is_distributive_add(base, pr * q, m);
    lemma_mul_is_associative(base, pr, q);
    lemma_mul_is_associative(pr, pu, rest);
    lemma_mul_is_associative(base, pr, pu * rest);
    vstd::arithmetic::mul::lemma_mul_is_distributive_add(base * pr, q, pu * rest);
}

/// The bits below `exclusive`: the whole limbs below it, and the low bits of
/// the limb it falls in.
proof fn lemma_limbs_below(limbs: Seq<u64>, exclusive: nat)
    requires
        exclusive / 64 <= limbs.len(),
    ensures
        exclusive / 64 < limbs.len() ==> limbs_value(limbs) % pow2(exclusive) == limbs_value(
            limbs.take((exclusive / 64) as int),
        ) + pow2(64 * (exclusive / 64)) * (limbs[(exclusive / 64) as int] as nat % pow2(
            exclusive % 64,
        )),
        exclusive / 64 == limbs.len() ==> limbs_value(limbs) % pow2(exclusive) == limbs_value(limbs),
        limbs_value(limbs) % pow2(exclusive) == 0 <==> (limbs_value(limbs.take((exclusive / 64) as int)) == 0
            && (exclusive / 64 < limbs.len() ==> limbs[(exclusive / 64) as int] as nat % pow2(
            exclusive % 64,
        ) == 0)),
{
    let w = (exclusive / 64) as int;
    let r = exclusive % 64;
    lemma_pow2_pos(exclusive);
    lemma_pow2_pos((64 * w) as nat);
    lemma_pow2_pos(r);
    if w == limbs.len() {
        assert(limbs.take(w) =~= limbs);
        lemma_limbs_bound(limbs);
        if exclusive > 64 * w {
            lemma_pow2_strictly_increases((64 * w) as nat, exclusive);
        }
        vstd::arithmetic::div_mod::lemma_small_mod(limbs_value(limbs), pow2(exclusive));
        assert(limbs_value(limbs) % pow2(exclusive) == limbs_value(limbs.take(w)));
    } else {
        let low = limbs_value(limbs.take(w)) as int;
        let base = pow2((64 * w) as nat) as int;
        let limb = limbs[w] as int;
        let rest = limbs_value(limbs.skip(w + 1)) as int;
        let pr = pow2(r) as int;
        let pu = pow2((64 - r) as nat) as int;
        lemma_limbs_split(limbs, w);
        lemma_limbs_first(limbs.skip(w));
        assert(limbs.skip(w).skip(1) =~= limbs.skip(w + 1));
        lemma_limbs_bound(limbs.take(w));
        lemma_pow2_adds((64 * w) as nat, r);
        lemma_pow2_adds(r, (64 - r) as nat);
        lemma_fundamental_div_mod(limb, pr);
        let q = limb / pr;
        let m = limb % pr;
        lemma_regroup(base, limb, pow2(64) as int, rest, pr, pu, q, m);
        assert(low + base * m < base * pr) by (nonlinear_arith)
            requires
                low < base,
                0 <= m <= pr - 1,
                base > 0,
        ;
        lemma_mul_nonnegative(base, m);
        lemma_mul_nonnegative(pu, rest);
        lemma_mul_nonnegative(pr, q);
        assert(q >= 0) by {
            vstd::arithmetic::div_mod::lemma_div_pos_is_pos(limb, pr);
        }
        lemma_fundamental_div_mod_converse(limbs_value(limbs) as int, base * pr, q + pu * rest, low + base * m);
        assert(limbs_value(limbs) % pow2(exclusive) == low + base * m);
        if low + base * m == 0 {
            assert(m == 0) by (nonlinear_arith)
                requires
                    low + base * m == 0,
                    low >= 0,
                    m >= 0,
                    base > 0,
            ;
            assert(low == 0);
        }
        if low == 0 && m == 0 {
            assert(base * m == 0) by (nonlinear_arith)
                requires
                    m == 0,
            ;
        }
    }
}

/// The index of the highest set bit of the words, or `None` when they are
/// all clear.
pub fn highest_set_bit(words: &[u64; EXACT_DOT_LIMBS]) -> (highest: Option<usize>)
    ensures
        highest is None <==> limbs_value(words@) == 0,
        highest matches Some(bit) ==> pow2(bit as nat) <= limbs_value(words@) < pow2(bit as nat + 1),
{
    let mut index: usize = EXACT_DOT_LIMBS;
    while index > 0
        invariant
            index <= EXACT_DOT_LIMBS,
            forall|j: int| index <= j < EXACT_DOT_LIMBS ==> words[j] == 0,
        decreases index,
    {
        index -= 1;
        let word = words[index];
        if word != 0 {
            let zeros = word.leading_zeros();
            proof {
                lemma_leading_zeros_bounds(word);
            }
            let bit = index * 64 + (63 - zeros as usize);
            proof {
                let k = (63 - u64_leading_zeros(word)) as nat;
                let tail = words@.skip(index as int + 1);
                lemma_limbs_zero(tail);
                assert forall|j: int| 0 <= j < tail.len() implies tail[j] == 0 by {
                    assert(tail[j] == words[index as int + 1 + j]);
                }
                lemma_limbs_split(words@, index as int + 1);
                lemma_limbs_take_step(words@, index as int);
                lemma_limbs_bound(words@.take(index as int));
                let i = index as int;
                let base = pow2((64 * i) as nat) as int;
                let low = limbs_value(words@.take(i)) as int;
                lemma_pow2_pos((64 * i) as nat);
                lemma_pow2_pos(bit as nat);
                lemma_pow2_adds((64 * i) as nat, k);
                lemma_pow2_adds((64 * i) as nat, k + 1);
                assert((64 * i) as nat + k == bit as nat);
                assert(limbs_value(tail) == 0);
                assert(pow2((64 * (i + 1)) as nat) * limbs_value(tail) == 0) by (nonlinear_arith)
                    requires
                        limbs_value(tail) == 0,
                ;
                assert(limbs_value(words@) == limbs_value(words@.take(i + 1)));
                assert(limbs_value(words@) == low + word * base);
                assert(pow2(k) * base <= word * base) by {
                    lemma_mul_inequality(pow2(k) as int, word as int, base);
                }
                assert(low + word * base < pow2(k + 1) * base) by (nonlinear_arith)
                    requires
                        low < base,
                        word + 1 <= pow2(k + 1),
                        low >= 0,
                ;
                vstd::arithmetic::mul::lemma_mul_is_commutative(pow2(k) as int, base);
                vstd::arithmetic::mul::lemma_mul_is_commutative(pow2(k + 1) as int, base);
            }
            return Some(bit);
        }
    }
    proof {
        lemma_limbs_zero(words@);
    }
    None
}

/// `1` for a set carry or borrow, `0` otherwise.
pub open spec fn carry_value(carry: bool) -> int {
    if carry {
        1
    } else {
        0
    }
}

/// `-1` for a subtraction, `1` for an addition.
pub open spec fn direction(negative: bool) -> int {
    if negative {
        -1
    } else {
        1
    }
}

/// One limb of a sum (or, with `negative`, a difference) with carry (or
/// borrow) in and out.
fn step_limb(a: u64, b: u64, carry: bool, negative: bool) -> (out: (u64, bool))
    ensures
        out.0 as int + direction(negative) * carry_value(out.1) * pow2(64) == a as int + direction(negative)
            * (b as int + carry_value(carry)),
{
    proof {
        lemma2_to64();
    }
    let incoming: u128 = if carry {
        1
    } else {
        0
    };
    if negative {
        let subtrahend: u128 = b as u128 + incoming;
        if a as u128 >= subtrahend {
            ((a as u128 - subtrahend) as u64, false)
        } else {
            ((a as u128 + 0x1_0000_0000_0000_0000u128 - subtrahend) as u64, true)
        }
    } else {
        let total: u128 = a as u128 + b as u128 + incoming;
        if total >= 0x1_0000_0000_0000_0000u128 {
            ((total - 0x1_0000_0000_0000_0000u128) as u64, true)
        } else {
            (total as u64, false)
        }
    }
}

/// The two's complement of the words in place: their value becomes its
/// negation modulo `2^(64 * EXACT_DOT_LIMBS)`.
pub fn twos_complement_in_place(words: &mut [u64; EXACT_DOT_LIMBS])
    ensures
        limbs_value(final(words)@) == (accumulator_modulus() - limbs_value(old(words)@)) as int
            % accumulator_modulus() as int,
{
    let ghost original = words@;
    proof {
        assert(words@.take(0).len() == 0);
        lemma2_to64();
    }
    let mut index: usize = 0;
    while index < EXACT_DOT_LIMBS
        invariant
            index <= EXACT_DOT_LIMBS,
            original.len() == EXACT_DOT_LIMBS,
            words@.len() == EXACT_DOT_LIMBS,
            limbs_value(words@.take(index as int)) + limbs_value(original.take(index as int)) + 1
                == pow2((64 * index) as nat),
            forall|j: int| index <= j < EXACT_DOT_LIMBS ==> words@[j] == original[j],
        decreases EXACT_DOT_LIMBS - index,
    {
        let word = words[index];
        let ghost before = words@;
        words[index] = !word;
        proof {
            let i = index as int;
            assert(!word == 0xffff_ffff_ffff_ffff - word) by (bit_vector);
            assert(words@.take(i) =~= before.take(i));
            lemma_limbs_take_step(words@, i);
            lemma_limbs_take_step(original, i);
            lemma2_to64();
            lemma_pow2_adds((64 * i) as nat, 64);
            assert((64 * i) as nat + 64 == (64 * (i + 1)) as nat);
            let p = pow2((64 * i) as nat) as int;
            assert((0xffff_ffff_ffff_ffff - word) * p + word * p + p == 0x1_0000_0000_0000_0000 * p)
                by (nonlinear_arith);
        }
        index += 1;
    }
    assert(words@.take(EXACT_DOT_LIMBS as int) =~= words@);
    assert(original.take(EXACT_DOT_LIMBS as int) =~= original);
    let ghost inverted = words@;
    let mut carry = true;
    index = 0;
    proof {
        assert(words@.take(0).len() == 0);
        assert(inverted.take(0).len() == 0);
    }
    while index < EXACT_DOT_LIMBS && carry
        invariant
            index <= EXACT_DOT_LIMBS,
            inverted.len() == EXACT_DOT_LIMBS,
            words@.len() == EXACT_DOT_LIMBS,
            limbs_value(words@.take(index as int)) + carry_value(carry) * pow2((64 * index) as nat)
                == limbs_value(inverted.take(index as int)) + 1,
            forall|j: int| index <= j < EXACT_DOT_LIMBS ==> words@[j] == inverted[j],
        decreases EXACT_DOT_LIMBS - index,
    {
        let (sum, next) = step_limb(words[index], 0, carry, false);
        let ghost before = words@;
        words[index] = sum;
        proof {
            let i = index as int;
            assert(words@.take(i) =~= before.take(i));
            lemma_limbs_take_step(words@, i);
            lemma_limbs_take_step(inverted, i);
            lemma_pow2_adds((64 * i) as nat, 64);
            assert((64 * i) as nat + 64 == (64 * (i + 1)) as nat);
            let p = pow2((64 * i) as nat) as int;
            assert(sum * p + carry_value(next) * (p * pow2(64)) == before[i] * p + p) by (nonlinear_arith)
                requires
                    sum + carry_value(next) * pow2(64) == before[i] + 1,
            ;
        }
        carry = next;
        index += 1;
    }
    proof {
        let m = accumulator_modulus() as int;
        let v = limbs_value(original) as int;
        lemma_limbs_bound(words@);
        lemma_limbs_bound(original);
        if carry {
            assert(words@.take(EXACT_DOT_LIMBS as int) =~= words@);
            assert(inverted.take(EXACT_DOT_LIMBS as int) =~= inverted);
            vstd::arithmetic::div_mod::lemma_mod_self_0(m);
        } else {
            let i = index as int;
            lemma_limbs_split(words@, i);
            lemma_limbs_split(inverted, i);
            assert(words@.skip(i) =~= inverted.skip(i));
            vstd::arithmetic::div_mod::lemma_small_mod((m - v) as nat, m as nat);
        }
    }
}

/// The limbs of a 128-bit product raised by `offset < 64` bits.
pub open spec fn product_parts_value(parts: Seq<u64>) -> int {
    parts[0] as int + pow2(64) * parts[1] as int + pow2(128) * parts[2] as int
}

/// Three limbs have the value of their weighted sum.
proof fn lemma_three_limbs(parts: Seq<u64>)
    requires
        parts.len() == 3,
    ensures
        limbs_value(parts) == product_parts_value(parts),
        limbs_value(parts.take(0)) == 0,
        limbs_value(parts.take(1)) == parts[0],
        limbs_value(parts.take(2)) == parts[0] + pow2(64) * parts[1],
{
    lemma2_to64();
    lemma_pow2_adds(64, 64);
    assert(parts.take(0).len() == 0);
    lemma_limbs_take_step(parts, 0);
    lemma_limbs_take_step(parts, 1);
    lemma_limbs_take_step(parts, 2);
    assert(parts.take(3) =~= parts);
    assert(parts[0] as int * pow2(0) == parts[0] as int) by (nonlinear_arith)
        requires
            pow2(0) == 1,
    ;
    vstd::arithmetic::mul::lemma_mul_is_commutative(parts[1] as int, pow2(64) as int);
    vstd::arithmetic::mul::lemma_mul_is_commutative(parts[2] as int, pow2(128) as int);
}

/// Splits a 128-bit product raised by `offset < 64` bits into three limbs.
fn product_parts(product: u128, offset: usize) -> (parts: [u64; 3])
    requires
        offset < 64,
    ensures
        product_parts_value(parts@) == product as int * pow2(offset as nat),
{
    let low = (product & 0xffff_ffff_ffff_ffffu128) as u64;
    let high = (product >> 64u128) as u64;
    proof {
        assert(product == (product >> 64u128) * 0x1_0000_0000_0000_0000u128 + (product
            & 0xffff_ffff_ffff_ffffu128)) by (bit_vector);
        assert((product & 0xffff_ffff_ffff_ffffu128) < 0x1_0000_0000_0000_0000u128) by (bit_vector);
        assert((product >> 64u128) < 0x1_0000_0000_0000_0000u128) by (bit_vector);
        lemma2_to64();
        lemma_pow2_adds(64, 64);
        assert(product as int == low as int + pow2(64) * high as int);
    }
    if offset == 0 {
        proof {
            assert(product as int * pow2(0) == product as int);
        }
        return [low, high, 0];
    }
    let off = offset as u64;
    let up = 64 - off;
    let parts = [low << off, (low >> up) | (high << off), high >> up];
    proof {
        assert((low >> up) | (high << off) == (low >> up) + (high << off)) by (bit_vector)
            requires
                0 < off < 64,
                up == 64 - off,
        ;
        lemma_shl_split(low, off);
        lemma_shl_split(high, off);
        let p = pow2(off as nat) as int;
        let b = pow2(64) as int;
        assert(product as int * p == low as int * p + b * (high as int * p)) by (nonlinear_arith)
            requires
                product as int == low as int + b * high as int,
        ;
        assert(b * ((high << off) as int + b * (high >> up) as int) == b * (high << off) as int + (b * b)
            * (high >> up) as int) by (nonlinear_arith);
    }
    parts
}

/// The term a product adds: `product * 2^shift`, negated for a subtraction.
pub open spec fn signed_shifted(product: u128, shift: nat, negative: bool) -> int {
    direction(negative) * (product as int * pow2(shift))
}

/// The limbs of the parts consumed once the limb at `index` is reached,
/// counting from limb `word`.
pub open spec fn consumed_parts(index: int, word: int) -> int {
    if index - word < 3 {
        index - word
    } else {
        3
    }
}

/// Adds `product * 2^shift` (or subtracts it, when `negative`) to the words,
/// modulo `2^(64 * EXACT_DOT_LIMBS)`. Fails, leaving the words unchanged,
/// when the three limbs the raised product spans do not all fit.
pub fn add_shifted_signed_product(
    words: &mut [u64; EXACT_DOT_LIMBS],
    product: u128,
    shift: usize,
    negative: bool,
) -> (added: Option<()>)
    ensures
        added is None <==> shift / 64 + 2 >= EXACT_DOT_LIMBS,
        added is None ==> final(words)@ == old(words)@,
        added is Some ==> limbs_value(final(words)@) as int == (limbs_value(old(words)@) as int
            + signed_shifted(product, shift as nat, negative)) % accumulator_modulus() as int,
{
    let word = shift / 64;
    let offset = shift % 64;
    let parts = product_parts(product, offset);
    if word + 2 >= EXACT_DOT_LIMBS {
        return None;
    }
    let ghost original = words@;
    let ghost pw = pow2((64 * word) as nat) as int;
    let ghost total = product_parts_value(parts@);
    proof {
        lemma_three_limbs(parts@);
        assert(direction(negative) * carry_value(false) * pow2((64 * word) as nat) == 0);
        assert(direction(negative) * (0 * pw) == 0);
    }
    let mut carry = false;
    let mut index = word;
    while index < EXACT_DOT_LIMBS && (index <= word + 2 || carry)
        invariant
            word + 2 < EXACT_DOT_LIMBS,
            word <= index <= EXACT_DOT_LIMBS,
            original.len() == EXACT_DOT_LIMBS,
            words@.len() == EXACT_DOT_LIMBS,
            parts@.len() == 3,
            pw == pow2((64 * word) as nat),
            forall|j: int| index <= j < EXACT_DOT_LIMBS ==> words@[j] == original[j],
            limbs_value(words@.take(index as int)) + direction(negative) * carry_value(carry) * pow2(
                (64 * index) as nat,
            ) == limbs_value(original.take(index as int)) + direction(negative) * (limbs_value(
                parts@.take(consumed_parts(index as int, word as int)),
            ) * pw),
        decreases EXACT_DOT_LIMBS - index,
    {
        let part = if index - word < 3 {
            parts[index - word]
        } else {
            0
        };
        let (limb, next) = step_limb(words[index], part, carry, negative);
        let ghost before = words@;
        words[index] = limb;
        proof {
            let i = index as int;
            let k = consumed_parts(i, word as int);
            assert(words@.take(i) =~= before.take(i));
            lemma_limbs_take_step(words@, i);
            lemma_limbs_take_step(original, i);
            lemma_pow2_adds((64 * i) as nat, 64);
            assert((64 * i) as nat + 64 == (64 * (i + 1)) as nat);
            let p = pow2((64 * i) as nat) as int;
            let consumed = limbs_value(parts@.take(k)) as int;
            if k < 3 {
                lemma_limbs_take_step(parts@, k);
                lemma_pow2_adds((64 * k) as nat, (64 * word) as nat);
                assert((64 * k) as nat + (64 * word) as nat == (64 * i) as nat);
                assert(consumed_parts(i + 1, word as int) == k + 1);
                let a = pow2((64 * k) as nat) as int;
                assert((consumed + part * a) * pw == consumed * pw + part * (a * pw)) by (nonlinear_arith);
            } else {
                assert(consumed_parts(i + 1, word as int) == 3);
                assert(part == 0);
                assert(part as int * p == 0) by (nonlinear_arith)
                    requires
                        part == 0,
                ;
            }
            assert(limbs_value(parts@.take(consumed_parts(i + 1, word as int))) * pw == consumed * pw
                + part * p);
            lemma_carry_step(
                limbs_value(before.take(i)) as int,
                limbs_value(original.take(i)) as int,
                limbs_value(parts@.take(k)) as int,
                pw,
                p,
                limb as int,
                before[i] as int,
                part as int,
                carry_value(carry),
                carry_value(next),
                direction(negative),
                pow2(64) as int,
            );
        }
        carry = next;
        index += 1;
    }
    proof {
        let i = index as int;
        let m = accumulator_modulus() as int;
        let term = signed_shifted(product, shift as nat, negative);
        assert(consumed_parts(i, word as int) == 3);
        assert(parts@.take(3) =~= parts@);
        lemma_pow2_adds(offset as nat, (64 * word) as nat);
        assert(offset as nat + (64 * word) as nat == shift as nat);
        assert(total * pw == product as int * pow2(shift as nat)) by {
            lemma_mul_is_associative(product as int, pow2(offset as nat) as int, pw);
        }
        lemma_limbs_bound(words@);
        if index == EXACT_DOT_LIMBS {
            assert(words@.take(i) =~= words@);
            assert(original.take(i) =~= original);
            let q = direction(negative) * carry_value(carry);
            lemma_fundamental_div_mod_converse(
                limbs_value(original) as int + term,
                m,
                q,
                limbs_value(words@) as int,
            );
        } else {
            assert(!carry);
            assert(direction(negative) * carry_value(carry) * pow2((64 * i) as nat) == 0) by (nonlinear_arith)
                requires
                    carry_value(carry) == 0,
            ;
            lemma_limbs_split(words@, i);
            lemma_limbs_split(original, i);
            assert(words@.skip(i) =~= original.skip(i));
            assert(limbs_value(words@) == limbs_value(original) + term);
            lemma_fundamental_div_mod_converse(
                limbs_value(original) as int + term,
                m,
                0,
                limbs_value(words@) as int,
            );
        }
    }
    Some(())
}

/// One limb of a carried sum or difference keeps the running equation.
proof fn lemma_carry_step(
    done: int,
    source: int,
    consumed: int,
    weight: int,
    limb_weight: int,
    limb: int,
    limb_source: int,
    part: int,
    carry_in: int,
    carry_out: int,
    sign: int,
    base: int,
)
    by (nonlinear_arith)
    requires
        done + sign * carry_in * limb_weight == source + sign * (consumed * weight),
        limb + sign * carry_out * base == limb_source + sign * (part + carry_in),
    ensures
        (done + limb * limb_weight) + sign * carry_out * (limb_weight * base) == (source + limb_source
            * limb_weight) + sign * (consumed * weight + part * limb_weight),
{
}

/// Splits a finite nonzero binary64 bit pattern into its sign, integer
/// significand and the exponent of its least significant bit; `None` for a
/// zero, an infinity or a NaN.
pub fn exact_factor(bits: u64) -> (factor: Option<(bool, u64, i32)>)
    ensures
        factor is None <==> !binary64_is_finite(bits) || binary64_is_zero(bits),
        factor matches Some(parts) ==> parts.0 == binary64_negative(bits) && parts.1 as nat
            == binary64_significand(bits) && parts.2 as int == binary64_exponent(bits),
{
    let negative = bits >> 63 != 0;
    let magnitude = bits & 0x7fff_ffff_ffff_ffff;
    let biased_exponent = (magnitude >> 52) & 0x7ff;
    let fraction = magnitude & 0x000f_ffff_ffff_ffff;
    proof {
        assert((bits >> 63 != 0) == (bits >= 0x8000_0000_0000_0000)) by (bit_vector);
        assert(((bits & 0x7fff_ffff_ffff_ffff) >> 52) & 0x7ff == (bits / 0x10_0000_0000_0000) % 0x800)
            by (bit_vector);
        assert((bits & 0x7fff_ffff_ffff_ffff) & 0x000f_ffff_ffff_ffff == bits % 0x10_0000_0000_0000)
            by (bit_vector);
        assert((bits & 0x7fff_ffff_ffff_ffff == 0) == (bits % 0x8000_0000_0000_0000 == 0)) by (bit_vector);
        assert(fraction < 0x10_0000_0000_0000);
        assert(fraction < 0x10_0000_0000_0000 ==> (1u64 << 52u64) | fraction == 0x10_0000_0000_0000
            + fraction) by (bit_vector);
    }
    if biased_exponent == 0x7ff || magnitude == 0 {
        return None;
    }
    if biased_exponent == 0 {
        Some((negative, fraction, -1074))
    } else {
        Some((negative, (1u64 << 52u64) | fraction, biased_exponent as i32 - 1023 - 52))
    }
}

/// The term that the product of two binary64 values adds to the
/// accumulator: the product scaled by `2^-EXACT_PRODUCT_MIN_EXPONENT`, zero
/// when either factor is a zero.
pub open spec fn product_term(first: u64, second: u64) -> int {
    if binary64_is_zero(first) || binary64_is_zero(second) {
        0
    } else {
        direction(binary64_negative(first) != binary64_negative(second)) * (binary64_significand(
            first,
        ) * binary64_significand(second) * pow2(
            (binary64_exponent(first) + binary64_exponent(second) + 2148) as nat,
        ))
    }
}

/// Whether the product of two binary64 values can be accumulated: a zero
/// factor always can; otherwise both must be finite.
pub open spec fn product_accepted(first: u64, second: u64) -> bool {
    binary64_is_zero(first) || binary64_is_zero(second) || (binary64_is_finite(first)
        && binary64_is_finite(second))
}

/// An exact dot-product accumulator: the sum of the products added so far,
/// scaled by `2^-EXACT_PRODUCT_MIN_EXPONENT`, in two's complement.
#[derive(Clone, Debug)]
pub struct ExactDotAccumulator {
    words: [u64; EXACT_DOT_LIMBS],
}

impl ExactDotAccumulator {
    /// The value of the accumulator's limbs, modulo its width.
    pub closed spec fn view(&self) -> nat {
        limbs_value(self.words@)
    }

    /// A cleared accumulator.
    pub fn new() -> (accumulator: Self)
        ensures
            accumulator@ == 0,
    {
        let accumulator = ExactDotAccumulator { words: [0; EXACT_DOT_LIMBS] };
        proof {
            lemma_limbs_zero(accumulator.words@);
        }
        accumulator
    }

    /// The accumulator's value is below its modulus.
    pub proof fn lemma_bounded(&self)
        ensures
            self@ < accumulator_modulus(),
    {
        lemma_limbs_bound(self.words@);
    }

    /// Adds the exact product of two binary64 values. Fails, and changes
    /// nothing, when a factor is infinite or NaN and neither is a zero.
    pub fn try_add_product(&mut self, first: u64, second: u64) -> (added: Option<()>)
        ensures
            added is Some <==> product_accepted(first, second),
            added is None ==> final(self)@ == old(self)@,
            added is Some ==> final(self)@ as int == (old(self)@ as int + product_term(first, second))
                % accumulator_modulus() as int,
    {
        proof {
            lemma_limbs_bound(self.words@);
            lemma_pow2_pos(accumulator_bits());
        }
        if is_zero_bits(first) || is_zero_bits(second) {
            proof {
                vstd::arithmetic::div_mod::lemma_small_mod(self@, accumulator_modulus());
            }
            return Some(());
        }
        let (first_negative, first_significand, first_exponent) = match exact_factor(first) {
            Some(parts) => parts,
            None => {
                return None;
            },
        };
        let (second_negative, second_significand, second_exponent) = match exact_factor(second) {
            Some(parts) => parts,
            None => {
                return None;
            },
        };
        proof {
            assert(binary64_biased_exponent(first) <= 0x7fe);
            assert(binary64_biased_exponent(second) <= 0x7fe);
            assert(first_significand < 0x20_0000_0000_0000);
            assert(second_significand < 0x20_0000_0000_0000);
            assert(first_significand as int * second_significand as int <= 0x20_0000_0000_0000
                * 0x20_0000_0000_0000) by (nonlinear_arith)
                requires
                    first_significand < 0x20_0000_0000_0000,
                    second_significand < 0x20_0000_0000_0000,
            ;
        }
        let product = first_significand as u128 * second_significand as u128;
        let exponent = match first_exponent.checked_add(second_exponent) {
            Some(value) => value,
            None => {
                return None;
            },
        };
        let offset = match exponent.checked_sub(EXACT_PRODUCT_MIN_EXPONENT) {
            Some(value) => value,
            None => {
                return None;
            },
        };
        if offset < 0 {
            return None;
        }
        let shift = offset as usize;
        add_shifted_signed_product(&mut self.words, product, shift, first_negative != second_negative)
    }
}

/// The magnitude of a two's-complement value of the accumulator's width.
pub open spec fn twos_complement_magnitude(value: nat) -> nat {
    if value >= pow2((accumulator_bits() - 1) as nat) {
        (accumulator_modulus() - value) as nat
    } else {
        value
    }
}

/// `value / 2^shift` rounded to the nearest integer, ties to even.
pub open spec fn round_half_even(value: nat, shift: nat) -> nat {
    let quotient = value / pow2(shift);
    let remainder = value % pow2(shift);
    let half = pow2((shift - 1) as nat);
    if remainder > half || (remainder == half && quotient % 2 == 1) {
        quotient + 1
    } else {
        quotient
    }
}

/// The binary64 bit pattern nearest to `magnitude * 2^EXACT_PRODUCT_MIN_EXPONENT`,
/// ties to even; `None` when it overflows the largest finite exponent or
/// rounds to zero.
pub open spec fn rounded_binary64(magnitude: nat) -> Option<u64> {
    if magnitude == 0 {
        Some(0)
    } else {
        let highest = vstd::arithmetic::logarithm::log(2, magnitude as int);
        let exponent = highest - 2148;
        if exponent > 1023 {
            None
        } else if exponent >= -1022 {
            let significand = round_half_even(magnitude, (highest - 52) as nat);
            if significand == pow2(53) {
                if exponent + 1 > 1023 {
                    None
                } else {
                    Some(((exponent + 1 + 1023) * pow2(52)) as u64)
                }
            } else {
                Some(((exponent + 1023) * pow2(52) + significand - pow2(52)) as u64)
            }
        } else {
            let significand = round_half_even(magnitude, 1074);
            if significand == 0 {
                None
            } else {
                Some(significand as u64)
            }
        }
    }
}

/// The base-two logarithm of a value between consecutive powers of two.
proof fn lemma_log2(value: nat, highest: nat)
    requires
        pow2(highest) <= value < pow2(highest + 1),
    ensures
        vstd::arithmetic::logarithm::log(2, value as int) == highest,
    decreases highest,
{
    lemma2_to64();
    if highest == 0 {
        vstd::arithmetic::logarithm::lemma_log0(2, value as int);
    } else {
        lemma_pow2_adds((highest - 1) as nat, 1);
        lemma_pow2_pos((highest - 1) as nat);
        vstd::arithmetic::logarithm::lemma_log_s(2, value as int);
        lemma_pow2_adds(highest, 1);
        lemma_log2(value / 2, (highest - 1) as nat);
    }
}

/// Bounds on a value carry over to its quotient by a power of two.
proof fn lemma_div_pow2_bounds(value: nat, low: nat, width: nat)
    requires
        pow2(low + width) <= value < pow2(low + width + 1),
    ensures
        pow2(width) <= value / pow2(low) < pow2(width + 1),
{
    lemma_pow2_pos(low);
    lemma_pow2_adds(low, width);
    lemma_pow2_adds(low, width + 1);
    assert(low + (width + 1) == low + width + 1);
    vstd::arithmetic::div_mod::lemma_div_is_ordered(
        (pow2(low) * pow2(width)) as int,
        value as int,
        pow2(low) as int,
    );
    vstd::arithmetic::div_mod::lemma_div_multiples_vanish(pow2(width) as int, pow2(low) as int);
    lemma_fundamental_div_mod(value as int, pow2(low) as int);
    let q = value as int / pow2(low) as int;
    if q >= pow2(width + 1) {
        lemma_mul_inequality(pow2(width + 1) as int, q, pow2(low) as int);
        vstd::arithmetic::mul::lemma_mul_is_commutative(pow2(width + 1) as int, pow2(low) as int);
    }
}

/// The integer significand kept before rounding: 53 bits for a normal
/// result, fewer than 53 for a subnormal one.
proof fn lemma_retained_significand(value: nat, highest: nat, shift: nat, normal: bool)
    requires
        pow2(highest) <= value < pow2(highest + 1),
        normal ==> shift + 52 == highest,
        !normal ==> shift == 1074 && highest < 1126,
    ensures
        normal ==> pow2(52) <= value / pow2(shift) < pow2(53),
        !normal ==> value / pow2(shift) < pow2(52),
        value / pow2(shift) < pow2(64),
        (value / pow2(shift)) % pow2(64) == value / pow2(shift),
        pow2(52) == 0x10_0000_0000_0000,
        pow2(53) == 0x20_0000_0000_0000,
        pow2(64) == 0x1_0000_0000_0000_0000,
{
    lemma2_to64();
    lemma_pow2_adds(32, 21);
    lemma_pow2_adds(32, 20);
    if normal {
        lemma_div_pow2_bounds(value, shift, 52);
    } else {
        if highest + 1 < 1126 {
            lemma_pow2_strictly_increases(highest + 1, 1126);
        }
        lemma_pow2_adds(1074, 52);
        lemma_pow2_pos(1074);
        if value / pow2(1074) >= pow2(52) {
            lemma_fundamental_div_mod(value as int, pow2(1074) as int);
            lemma_mul_inequality(pow2(52) as int, value as int / pow2(1074) as int, pow2(1074) as int);
            vstd::arithmetic::mul::lemma_mul_is_commutative(pow2(52) as int, pow2(1074) as int);
        }
    }
    vstd::arithmetic::div_mod::lemma_small_mod(value / pow2(shift), pow2(64));
}

/// The rounding decision read from the bits: the bit just below the kept
/// ones is set, and either a lower bit is set or the kept value is odd.
proof fn lemma_round_bits(value: nat, shift: nat)
    requires
        shift >= 1,
    ensures
        ((value / pow2((shift - 1) as nat)) % 2 == 1 && (value % pow2((shift - 1) as nat) != 0 || (value
            / pow2(shift)) % 2 == 1)) == (round_half_even(value, shift) == value / pow2(shift) + 1),
{
    let below = (shift - 1) as nat;
    let half = pow2(below) as int;
    lemma_pow2_pos(below);
    lemma_pow2_adds(below, 1);
    lemma2_to64();
    assert(below + 1 == shift);
    vstd::arithmetic::div_mod::lemma_mod_breakdown(value as int, half, 2);
    lemma_div_denominator(value as int, half, 2);
    let bit = (value as int / half) % 2;
    let low = value as int % half;
    assert(value as int % (half * 2) == half * bit + low);
    assert(bit == 0 || bit == 1);
    if bit == 1 {
        assert(half * bit == half);
    } else {
        assert(half * bit == 0);
    }
}

/// The top bit of the limbs is set exactly when their value reaches half
/// the modulus.
proof fn lemma_top_bit(words: Seq<u64>)
    requires
        words.len() == EXACT_DOT_LIMBS,
    ensures
        (words[EXACT_DOT_LIMBS - 1] >= 0x8000_0000_0000_0000) == (limbs_value(words) >= pow2(
            (accumulator_bits() - 1) as nat,
        )),
{
    let last = EXACT_DOT_LIMBS - 1;
    lemma_limbs_split(words, last as int);
    lemma_limbs_first(words.skip(last as int));
    assert(words.skip(last as int).skip(1).len() == 0);
    lemma_limbs_bound(words.take(last as int));
    lemma2_to64();
    lemma_pow2_adds((64 * last) as nat, 63);
    assert((64 * last) as nat + 63 == (accumulator_bits() - 1) as nat);
    let base = pow2((64 * last) as nat) as int;
    let low = limbs_value(words.take(last as int)) as int;
    let top = words[last as int] as int;
    lemma_pow2_pos((64 * last) as nat);
    assert(pow2(63) == 0x8000_0000_0000_0000) by {
        lemma_pow2_adds(32, 31);
    }
    assert(limbs_value(words) == low + base * top);
    assert(pow2((accumulator_bits() - 1) as nat) == base * 0x8000_0000_0000_0000);
    if top >= 0x8000_0000_0000_0000 {
        assert(base * top >= base * 0x8000_0000_0000_0000) by (nonlinear_arith)
            requires
                top >= 0x8000_0000_0000_0000,
                base > 0,
        ;
    } else {
        assert(low + base * top < base * 0x8000_0000_0000_0000) by (nonlinear_arith)
            requires
                top + 1 <= 0x8000_0000_0000_0000,
                base > 0,
                0 <= low < base,
        ;
    }
}

impl ExactDotAccumulator {
    /// Whether the accumulated two's-complement value is negative: its top
    /// bit is set.
    pub fn is_negative(&self) -> (negative: bool)
        ensures
            negative == (self@ >= pow2((accumulator_bits() - 1) as nat)),
    {
        proof {
            lemma_top_bit(self.words@);
        }
        self.words[EXACT_DOT_LIMBS - 1] >= 0x8000_0000_0000_0000
    }

    /// Whether the accumulator holds zero.
    pub fn is_zero(&self) -> (zero: bool)
        ensures
            zero == (self@ == 0),
    {
        highest_set_bit(&self.words).is_none()
    }

    /// The magnitude of the accumulated sum, rounded once to the nearest
    /// binary64 value (ties to even) and returned as its bit pattern; `None`
    /// when it overflows the binary64 range or rounds to zero from a nonzero
    /// sum below the smallest subnormal.
    pub fn try_abs_bits(&self) -> (bits: Option<u64>)
        ensures
            bits == rounded_binary64(twos_complement_magnitude(self@)),
    {
        let mut magnitude = self.words;
        let top = magnitude[EXACT_DOT_LIMBS - 1];
        proof {
            lemma_top_bit(magnitude@);
            lemma_limbs_bound(magnitude@);
            assert((top >> 63u64 != 0) == (top >= 0x8000_0000_0000_0000)) by (bit_vector);
        }
        if top >> 63u64 != 0 {
            twos_complement_in_place(&mut magnitude);
            proof {
                lemma_pow2_pos((accumulator_bits() - 1) as nat);
                vstd::arithmetic::div_mod::lemma_small_mod(
                    (accumulator_modulus() - self@) as nat,
                    accumulator_modulus(),
                );
            }
        }
        let ghost value = limbs_value(magnitude@);
        assert(value == twos_complement_magnitude(self@));
        let highest_bit = match highest_set_bit(&magnitude) {
            Some(bit) => bit,
            None => {
                return Some(0);
            },
        };
        proof {
            lemma_limbs_bound(magnitude@);
            if highest_bit >= accumulator_bits() {
                if highest_bit > accumulator_bits() {
                    lemma_pow2_strictly_increases(accumulator_bits(), highest_bit as nat);
                }
            }
            lemma_log2(value, highest_bit as nat);
        }
        let exact_exponent = highest_bit as i32 + EXACT_PRODUCT_MIN_EXPONENT;
        if exact_exponent > 1023 {
            return None;
        }
        let normal = exact_exponent >= -1022;
        let retained_exponent = if normal {
            exact_exponent - 52
        } else {
            -1074
        };
        let shift = (retained_exponent - EXACT_PRODUCT_MIN_EXPONENT) as usize;
        let mut significand = shifted_low_u64(&magnitude, shift);
        proof {
            lemma_retained_significand(value, highest_bit as nat, shift as nat, normal);
        }
        let halfway = shift - 1;
        let round_up = bit_is_set(&magnitude, halfway) && (any_bits_below(&magnitude, halfway)
            || significand & 1 == 1);
        proof {
            assert(significand & 1 == 1 <==> significand % 2 == 1) by (bit_vector);
            lemma_round_bits(value, shift as nat);
        }
        if round_up {
            significand = significand + 1;
        }
        assert(significand == round_half_even(value, shift as nat));
        proof {
            assert(1u64 << 52u64 == 0x10_0000_0000_0000) by (bit_vector);
            assert(1u64 << 53u64 == 0x20_0000_0000_0000) by (bit_vector);
            assert(0x20_0000_0000_0000u64 >> 1u64 == 0x10_0000_0000_0000) by (bit_vector);
            assert(pow2(52) == 0x10_0000_0000_0000);
            assert(pow2(53) == 0x20_0000_0000_0000);
        }
        if normal {
            let mut rounded_exponent = exact_exponent;
            if significand == 1u64 << 53u64 {
                significand = significand >> 1u64;
                rounded_exponent = rounded_exponent + 1;
            }
            if rounded_exponent > 1023 || !(1u64 << 52u64 <= significand && significand < 1u64 << 53u64) {
                return None;
            }
            let biased = (rounded_exponent + 1023) as u64;
            let fraction = significand - (1u64 << 52u64);
            proof {
                assert(biased < 0x800 && fraction < 0x10_0000_0000_0000 ==> (biased << 52u64) | fraction
                    == biased * 0x10_0000_0000_0000 + fraction) by (bit_vector);
            }
            let bits = (biased << 52u64) | fraction;
            proof {
                let highest = vstd::arithmetic::logarithm::log(2, value as int);
                assert(highest == highest_bit);
                assert(highest - 2148 == exact_exponent);
                assert(round_half_even(value, (highest - 52) as nat) == round_half_even(value, shift as nat));
            }
            Some(bits)
        } else if significand == 0 || significand > 1u64 << 52u64 {
            None
        } else if significand == 1u64 << 52u64 {
            Some(0x0010_0000_0000_0000)
        } else {
            Some(significand)
        }
    }
}

/// Accumulation order does not matter: adding two products in either order
/// leaves the accumulator with the same value.
pub proof fn lemma_accumulation_commutes(value: nat, first: (u64, u64), second: (u64, u64))
    ensures
        ((value + product_term(first.0, first.1)) % accumulator_modulus() as int + product_term(
            second.0,
            second.1,
        )) % accumulator_modulus() as int == ((value + product_term(second.0, second.1))
            % accumulator_modulus() as int + product_term(first.0, first.1)) % accumulator_modulus() as int,
{
    let m = accumulator_modulus() as int;
    let a = product_term(first.0, first.1);
    let b = product_term(second.0, second.1);
    lemma_pow2_pos(accumulator_bits());
    vstd::arithmetic::div_mod::lemma_add_mod_noop_right(b, value + a, m);
    vstd::arithmetic::div_mod::lemma_add_mod_noop_right(a, value + b, m);
    assert(b + (value + a) == a + (value + b));
}

/// Taking the two's complement twice gives the value back.
pub proof fn lemma_twos_complement_involution(value: nat)
    requires
        value < accumulator_modulus(),
    ensures
        (accumulator_modulus() - ((accumulator_modulus() - value) as int % accumulator_modulus() as int))
            as int % accumulator_modulus() as int == value,
{
    let m = accumulator_modulus() as int;
    lemma_pow2_pos(accumulator_bits());
    if value == 0 {
        vstd::arithmetic::div_mod::lemma_mod_self_0(m);
        vstd::arithmetic::div_mod::lemma_mod_self_0(m);
    } else {
        vstd::arithmetic::div_mod::lemma_small_mod((m - value) as nat, m as nat);
        vstd::arithmetic::div_mod::lemma_small_mod(value, m as nat);
    }
}

/// Negating a factor negates the term its product adds, so a product and
/// the product with one factor negated cancel in the accumulator.
pub proof fn lemma_negated_factor_cancels(first: u64, second: u64)
    ensures
        product_term(binary64_negated(first), second) == -product_term(first, second),
        product_accepted(binary64_negated(first), second) == product_accepted(first, second),
{
    let negated = binary64_negated(first);
    assert(binary64_is_zero(negated) == binary64_is_zero(first));
    assert(binary64_biased_exponent(negated) == binary64_biased_exponent(first));
    assert(binary64_fraction(negated) == binary64_fraction(first));
    assert(binary64_negative(negated) == !binary64_negative(first));
    let magnitude = binary64_significand(first) * binary64_significand(second) * pow2(
        (binary64_exponent(first) + binary64_exponent(second) + 2148) as nat,
    );
    assert(direction(!binary64_negative(first) != binary64_negative(second)) * magnitude == -(direction(
        binary64_negative(first) != binary64_negative(second),
    ) * magnitude)) by (nonlinear_arith);
}

} // verus!
