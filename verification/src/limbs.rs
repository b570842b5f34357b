//! Natural numbers held as little-endian runs of 64-bit limbs, and the
//! facts about limb arithmetic that multi-word accumulators rest on.
use vstd::arithmetic::div_mod::{lemma_fundamental_div_mod, lemma_fundamental_div_mod_converse};
use vstd::arithmetic::mul::{lemma_mul_inequality, lemma_mul_nonnegative};
use vstd::arithmetic::power2::{lemma2_to64, lemma_pow2_adds, lemma_pow2_pos, pow2};
use vstd::bits::lemma_u64_shr_is_div;
use vstd::prelude::*;

verus! {

/// The value of little-endian 64-bit limbs as a natural number.
pub open spec fn limbs_value(limbs: Seq<u64>) -> nat
    decreases limbs.len(),
{
    if limbs.len() == 0 {
        0
    } else {
        limbs_value(limbs.drop_last()) + limbs.last() as nat * pow2((64 * (limbs.len() - 1)) as nat)
    }
}

/// Adding a multiple of the divisor moves the quotient and keeps the remainder.
pub proof fn lemma_div_add_multiple(a: int, d: int, k: int)
    requires
        0 <= a,
        0 < d,
        0 <= k,
    ensures
        (a + d * k) / d == a / d + k,
        (a + d * k) % d == a % d,
{
    lemma_fundamental_div_mod(a, d);
    assert(a + d * k == (a / d + k) * d + a % d) by (nonlinear_arith)
        requires
            a == d * (a / d) + a % d,
    ;
    lemma_fundamental_div_mod_converse(a + d * k, d, a / d + k, a % d);
}

/// The prefix of `i + 1` limbs adds limb `i` at its weight.
pub proof fn lemma_limbs_take_step(limbs: Seq<u64>, i: int)
    requires
        0 <= i < limbs.len(),
    ensures
        limbs_value(limbs.take(i + 1)) == limbs_value(limbs.take(i)) + limbs[i] as nat * pow2(
            (64 * i) as nat,
        ),
{
    assert(limbs.take(i + 1).drop_last() =~= limbs.take(i));
}

/// Limbs are bounded by their width.
pub proof fn lemma_limbs_bound(limbs: Seq<u64>)
    ensures
        limbs_value(limbs) < pow2((64 * limbs.len()) as nat),
    decreases limbs.len(),
{
    if limbs.len() == 0 {
        lemma2_to64();
    } else {
        let n = limbs.len();
        let low = pow2((64 * (n - 1)) as nat);
        lemma_limbs_bound(limbs.drop_last());
        lemma2_to64();
        lemma_pow2_adds((64 * (n - 1)) as nat, 64);
        assert(limbs.last() as nat <= 0xffff_ffff_ffff_ffff);
        lemma_mul_inequality(limbs.last() as int, 0xffff_ffff_ffff_ffff, low as int);
        assert((64 * (n - 1)) as nat + 64 == (64 * n) as nat);
    }
}

/// The limbs split at any index into a low part and a weighted high part.
pub proof fn lemma_limbs_split(limbs: Seq<u64>, i: int)
    requires
        0 <= i <= limbs.len(),
    ensures
        limbs_value(limbs) == limbs_value(limbs.take(i)) + pow2((64 * i) as nat) * limbs_value(
            limbs.skip(i),
        ),
    decreases limbs.len(),
{
    if i == limbs.len() {
        assert(limbs.take(i) =~= limbs);
        assert(limbs.skip(i).len() == 0);
    } else {
        let n = limbs.len();
        let rest = limbs.drop_last();
        lemma_limbs_split(rest, i);
        assert(rest.take(i) =~= limbs.take(i));
        assert(limbs.skip(i).drop_last() =~= rest.skip(i));
        assert(limbs.skip(i).last() == limbs.last());
        lemma_pow2_adds((64 * i) as nat, (64 * (n - 1 - i)) as nat);
        assert((64 * i) as nat + (64 * (n - 1 - i)) as nat == (64 * (n - 1)) as nat);
        let w = pow2((64 * i) as nat) as int;
        let r = limbs_value(rest.skip(i)) as int;
        let l = limbs.last() as int;
        let h = pow2((64 * (n - 1 - i)) as nat) as int;
        assert(w * (r + l * h) == w * r + l * (w * h)) by (nonlinear_arith);
    }
}

/// Dividing limbs by the weight of a limb index drops the limbs below it, and
/// the remainder is the value of those limbs.
pub proof fn lemma_limbs_div_mod(limbs: Seq<u64>, i: int)
    requires
        0 <= i <= limbs.len(),
    ensures
        limbs_value(limbs) / pow2((64 * i) as nat) == limbs_value(limbs.skip(i)),
        limbs_value(limbs) % pow2((64 * i) as nat) == limbs_value(limbs.take(i)),
{
    lemma_limbs_split(limbs, i);
    lemma_limbs_bound(limbs.take(i));
    assert(limbs.take(i).len() == i);
    vstd::arithmetic::mul::lemma_mul_is_commutative(
        pow2((64 * i) as nat) as int,
        limbs_value(limbs.skip(i)) as int,
    );
    lemma_fundamental_div_mod_converse(
        limbs_value(limbs) as int,
        pow2((64 * i) as nat) as int,
        limbs_value(limbs.skip(i)) as int,
        limbs_value(limbs.take(i)) as int,
    );
}

/// A nonempty run of limbs is its first limb plus `2^64` times the rest.
pub proof fn lemma_limbs_first(limbs: Seq<u64>)
    requires
        limbs.len() >= 1,
    ensures
        limbs_value(limbs) == limbs[0] as nat + pow2(64) * limbs_value(limbs.skip(1)),
{
    lemma_limbs_split(limbs, 1);
    lemma_limbs_take_step(limbs, 0);
    assert(limbs.take(0).len() == 0);
    lemma2_to64();
    assert(limbs[0] as nat * pow2(0) == limbs[0] as nat) by (nonlinear_arith)
        requires
            pow2(0) == 1,
    ;
    assert(pow2((64 * 1) as nat) == pow2(64));
}

/// Limbs have value zero exactly when every limb is zero.
pub proof fn lemma_limbs_zero(limbs: Seq<u64>)
    ensures
        limbs_value(limbs) == 0 <==> forall|j: int| 0 <= j < limbs.len() ==> limbs[j] == 0,
    decreases limbs.len(),
{
    if limbs.len() > 0 {
        let n = limbs.len();
        lemma_limbs_zero(limbs.drop_last());
        lemma_pow2_pos((64 * (n - 1)) as nat);
        lemma_mul_nonnegative(limbs.last() as int, pow2((64 * (n - 1)) as nat) as int);
        if limbs.last() != 0 {
            lemma_mul_inequality(1, limbs.last() as int, pow2((64 * (n - 1)) as nat) as int);
        }
        if forall|j: int| 0 <= j < limbs.len() ==> limbs[j] == 0 {
            assert forall|j: int| 0 <= j < n - 1 implies limbs.drop_last()[j] == 0 by {
                assert(limbs[j] == 0);
            }
        }
        if limbs_value(limbs) == 0 {
            assert forall|j: int| 0 <= j < limbs.len() implies limbs[j] == 0 by {
                if j < n - 1 {
                    assert(limbs.drop_last()[j] == limbs[j]);
                }
            }
        }
    }
}

/// A left shift by `s` keeps the low `64 - s` bits of the word, raised by `s`.
pub proof fn lemma_shl_truncates(y: u64, s: u64)
    requires
        0 < s < 64,
    ensures
        (y << s) as nat == (y as nat % pow2((64 - s) as nat)) * pow2(s as nat),
        (y as nat % pow2((64 - s) as nat)) * pow2(s as nat) <= pow2(64) - pow2(s as nat),
{
    let keep = (64 - s) as u64;
    assert(y << s == (y & ((1u64 << keep) - 1) as u64) << s) by (bit_vector)
        requires
            0 < s < 64,
            keep == 64 - s,
    ;
    vstd::bits::lemma_u64_pow2_no_overflow(keep as nat);
    vstd::bits::lemma_u64_shl_is_mul(1, keep);
    vstd::bits::lemma_u64_low_bits_mask_is_mod(y, keep as nat);
    lemma2_to64();
    let mask = ((1u64 << keep) - 1) as u64;
    assert(mask == vstd::bits::low_bits_mask(keep as nat) as u64);
    let low = y as nat % pow2(keep as nat);
    assert((y & mask) as nat == low);
    lemma_pow2_pos(keep as nat);
    lemma_pow2_pos(s as nat);
    lemma_pow2_adds(keep as nat, s as nat);
    assert(low <= pow2(keep as nat) - 1);
    lemma_mul_inequality(low as int, pow2(keep as nat) - 1, pow2(s as nat) as int);
    assert((pow2(keep as nat) - 1) * pow2(s as nat) == pow2(64) - pow2(s as nat)) by (nonlinear_arith)
        requires
            pow2(keep as nat) * pow2(s as nat) == pow2(64),
    ;
    vstd::bits::lemma_u64_pow2_no_overflow(s as nat);
    vstd::bits::lemma_u64_shl_is_mul((y & ((1u64 << keep) - 1) as u64), s);
}

/// A word raised by `off` bits: the bits that stay in the word, and those
/// that spill into the next word.
pub proof fn lemma_shl_split(y: u64, off: u64)
    requires
        0 < off < 64,
    ensures
        y as int * pow2(off as nat) == (y << off) as int + pow2(64) * (y >> ((64 - off) as u64)) as int,
{
    let up = (64 - off) as u64;
    lemma_shl_truncates(y, off);
    lemma_u64_shr_is_div(y, up);
    lemma_pow2_pos(up as nat);
    lemma_pow2_adds(up as nat, off as nat);
    lemma_fundamental_div_mod(y as int, pow2(up as nat) as int);
    let q = y as int / pow2(up as nat) as int;
    let r = y as int % pow2(up as nat) as int;
    assert(y as int * pow2(off as nat) == r * pow2(off as nat) + pow2(64) * q) by (nonlinear_arith)
        requires
            y as int == pow2(up as nat) * q + r,
            pow2(64) == pow2(up as nat) * pow2(off as nat),
    ;
}

} // verus!
