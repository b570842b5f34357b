//! Binomial coefficients and the greatest common divisor used to count
//! complete polynomial spaces.
use vstd::prelude::*;
use vstd::arithmetic::div_mod::lemma_mod_multiples_basic;

verus! {

/// The binomial coefficient `C(n, k)`, by Pascal's rule.
pub open spec fn binomial(n: nat, k: nat) -> nat
    decreases n,
{
    if k == 0 {
        1
    } else if n == 0 {
        0
    } else {
        binomial((n - 1) as nat, (k - 1) as nat) + binomial((n - 1) as nat, k)
    }
}

/// The greatest common divisor by Euclid's remainder recursion.
pub open spec fn spec_gcd(left: nat, right: nat) -> nat
    decreases right,
{
    if right == 0 {
        left
    } else {
        spec_gcd(right, left % right)
    }
}

/// `C(n, k) = 0` for `k > n`.
pub proof fn lemma_binomial_above(n: nat, k: nat)
    requires
        k > n,
    ensures
        binomial(n, k) == 0,
    decreases n,
{
    if n > 0 {
        lemma_binomial_above((n - 1) as nat, (k - 1) as nat);
        lemma_binomial_above((n - 1) as nat, k);
    }
}

/// `C(n, n) = 1`.
pub proof fn lemma_binomial_diagonal(n: nat)
    ensures
        binomial(n, n) == 1,
    decreases n,
{
    if n > 0 {
        lemma_binomial_diagonal((n - 1) as nat);
        lemma_binomial_above((n - 1) as nat, n);
    }
}

/// Absorption: `k C(n, k) = n C(n - 1, k - 1)` for positive `n` and `k`.
pub proof fn lemma_binomial_absorption(n: nat, k: nat)
    requires
        n > 0,
        k > 0,
    ensures
        k * binomial(n, k) == n * binomial((n - 1) as nat, (k - 1) as nat),
    decreases n,
{
    let c = binomial((n - 1) as nat, (k - 1) as nat);
    if n == 1 {
        if k == 1 {
            assert(binomial(1, 1) == binomial(0, 0) + binomial(0, 1));
            assert(binomial(1, 1) == 1);
            assert(binomial(0, 0) == 1);
        } else {
            lemma_binomial_above(1, k);
            lemma_binomial_above(0, (k - 1) as nat);
            assert(k * 0 == 0) by (nonlinear_arith);
        }
    } else if k == 1 {
        lemma_binomial_one(n);
        assert(binomial((n - 1) as nat, 0) == 1);
        assert(1 * n == n * 1) by (nonlinear_arith);
    } else {
        lemma_binomial_absorption((n - 1) as nat, k);
        lemma_binomial_absorption((n - 1) as nat, (k - 1) as nat);
        let a = binomial((n - 2) as nat, (k - 1) as nat);
        let b = binomial((n - 2) as nat, (k - 2) as nat);
        let x = binomial((n - 1) as nat, k);
        let t = binomial(n, k);
        assert(t == c + x);
        assert(c == b + a);
        let kk = k as int;
        let nn = n as int;
        assert(kk * x == (nn - 1) * a);
        assert((kk - 1) * c == (nn - 1) * b);
        assert(kk * t == nn * c) by (nonlinear_arith)
            requires
                t == c + x,
                c == b + a,
                kk * x == (nn - 1) * a,
                (kk - 1) * c == (nn - 1) * b,
        ;
    }
}

/// `C(n, 1) = n`.
pub proof fn lemma_binomial_one(n: nat)
    ensures
        binomial(n, 1) == n,
    decreases n,
{
    if n > 0 {
        lemma_binomial_one((n - 1) as nat);
        assert(binomial(n, 1) == binomial((n - 1) as nat, 0) + binomial((n - 1) as nat, 1));
    }
}

/// Symmetry: `C(n, k) = C(n, n - k)` for `k <= n`.
pub proof fn lemma_binomial_symmetry(n: nat, k: nat)
    requires
        k <= n,
    ensures
        binomial(n, k) == binomial(n, (n - k) as nat),
    decreases n,
{
    if n == 0 {
    } else if k == 0 {
        lemma_binomial_diagonal(n);
    } else if k == n {
        lemma_binomial_diagonal(n);
    } else {
        // C(n,k) = C(n-1,k-1) + C(n-1,k) = C(n-1,n-k) + C(n-1,n-1-k) = C(n, n-k)
        lemma_binomial_symmetry((n - 1) as nat, (k - 1) as nat);
        lemma_binomial_symmetry((n - 1) as nat, k);
    }
}

/// Along a diagonal with `i <= m`, binomial coefficients do not decrease:
/// `C(m, i) <= C(m + 1, i + 1)`.
pub proof fn lemma_binomial_diagonal_monotone(m: nat, i: nat)
    requires
        i <= m,
    ensures
        binomial(m, i) <= binomial(m + 1, i + 1),
{
    lemma_binomial_absorption(m + 1, i + 1);
    let a = binomial(m, i);
    let b = binomial(m + 1, i + 1);
    assert((i + 1) * b == (m + 1) * a);
    assert(a <= b) by (nonlinear_arith)
        requires
            (i + 1) * b == (m + 1) * a,
            i <= m,
    ;
}

/// Along a diagonal starting at or right of the middle, binomial coefficients
/// do not decrease: `C(n - k + i, i) <= C(n - k + j, j)` for `i <= j <= k <= n - k`.
pub proof fn lemma_binomial_diagonal_monotone_range(n: nat, k: nat, i: nat, j: nat)
    requires
        i <= j <= k,
        2 * k <= n,
    ensures
        binomial((n - k + i) as nat, i) <= binomial((n - k + j) as nat, j),
    decreases j - i,
{
    if i < j {
        lemma_binomial_diagonal_monotone((n - k + i) as nat, i);
        lemma_binomial_diagonal_monotone_range(n, k, i + 1, j);
    }
}

/// Euclid's algorithm for the greatest common divisor.
pub fn greatest_common_divisor(left: usize, right: usize) -> (divisor: usize)
    ensures
        divisor == spec_gcd(left as nat, right as nat),
{
    let mut left = left;
    let mut right = right;
    let ghost original = spec_gcd(left as nat, right as nat);
    while right != 0
        invariant
            spec_gcd(left as nat, right as nat) == original,
        decreases right,
    {
        let remainder = left % right;
        left = right;
        right = remainder;
    }
    left
}

/// The greatest common divisor divides both arguments: it is returned with
/// the two cofactors.
proof fn lemma_gcd_factors(a: nat, b: nat) -> (factors: (nat, nat))
    ensures
        a == spec_gcd(a, b) * factors.0,
        b == spec_gcd(a, b) * factors.1,
    decreases b,
{
    if b == 0 {
        (1, 0)
    } else {
        let (p, q) = lemma_gcd_factors(b, a % b);
        let g = spec_gcd(a, b);
        let k = a / b;
        vstd::arithmetic::div_mod::lemma_fundamental_div_mod(a as int, b as int);
        assert(a == b * k + a % b);
        assert(a == g * (p * k + q)) by (nonlinear_arith)
            requires
                a == b * k + a % b,
                b == g * p,
                a % b == g * q,
        ;
        (p * k + q, p)
    }
}

/// Bezout's identity: the greatest common divisor is an integer
/// combination of the arguments.
proof fn lemma_gcd_bezout(a: nat, b: nat) -> (coefficients: (int, int))
    ensures
        a * coefficients.0 + b * coefficients.1 == spec_gcd(a, b),
    decreases b,
{
    if b == 0 {
        (1, 0)
    } else {
        let (x, y) = lemma_gcd_bezout(b, a % b);
        let k = (a / b) as int;
        vstd::arithmetic::div_mod::lemma_fundamental_div_mod(a as int, b as int);
        let rest = (a % b) as int;
        assert(a as int == b * k + rest);
        assert(a * y + b * (x - k * y) == b * x + rest * y) by (nonlinear_arith)
            requires
                a as int == b * k + rest,
        ;
        (y, x - k * y)
    }
}

/// One exact step of the multiplicative binomial recurrence: given
/// `r = C(m - 1, i - 1)`, dividing `r` and `i` by their greatest common
/// divisor `g` leaves `i / g` dividing `m`, and the two quotients multiply
/// to `C(m, i)`.
proof fn lemma_binomial_step(r: nat, m: nat, i: nat, g: nat)
    requires
        i >= 1,
        m >= 1,
        r == binomial((m - 1) as nat, (i - 1) as nat),
        g == spec_gcd(r, i),
    ensures
        i / g >= 1,
        g >= 1,
        i % g == 0,
        r % g == 0,
        m % (i / g) == 0,
        (r / g) * (m / (i / g)) == binomial(m, i),
{
    lemma_binomial_absorption(m, i);
    let c = binomial(m, i);
    assert(i * c == m * r);
    let (p, q) = lemma_gcd_factors(r, i);
    let (x, y) = lemma_gcd_bezout(r, i);
    assert(g >= 1) by {
        if g == 0 {
            assert(i == 0 * q);
        }
    }
    assert(q >= 1) by {
        if q == 0 {
            assert(i == g * 0);
        }
    }
    lemma_mod_multiples_basic(p as int, g as int);
    lemma_mod_multiples_basic(q as int, g as int);
    assert(r == p * g && i == q * g) by (nonlinear_arith)
        requires
            r == g * p,
            i == g * q,
    ;
    vstd::arithmetic::div_mod::lemma_div_multiples_vanish(p as int, g as int);
    vstd::arithmetic::div_mod::lemma_div_multiples_vanish(q as int, g as int);
    assert(r / g == p && i / g == q);
    let t = c * x + m * y;
    assert(g * m == g * (q * t)) by (nonlinear_arith)
        requires
            r * x + i * y == g,
            i * c == m * r,
            i == g * q,
            t == c * x + m * y,
    ;
    vstd::arithmetic::mul::lemma_mul_equality_converse(g as int, m as int, q * t);
    assert(t >= 0) by {
        if t < 0 {
            assert(q * t < 0) by (nonlinear_arith)
                requires
                    q >= 1,
                    t < 0,
            ;
        }
    }
    let tn = t as nat;
    assert(m == tn * q) by (nonlinear_arith)
        requires
            m == q * t,
            tn == t,
    ;
    lemma_mod_multiples_basic(tn as int, q as int);
    vstd::arithmetic::div_mod::lemma_div_multiples_vanish(tn as int, q as int);
    assert(m / q == tn) by {
        assert(m as int == (q as int) * (tn as int));
    }
    assert((g * q) * c == (g * q) * (p * tn)) by (nonlinear_arith)
        requires
            i * c == m * r,
            i == g * q,
            r == g * p,
            m == q * tn,
    ;
    assert(g * q != 0) by (nonlinear_arith)
        requires
            g >= 1,
            q >= 1,
    ;
    vstd::arithmetic::mul::lemma_mul_equality_converse((g * q) as int, c as int, (p * tn) as int);
}

/// Computes `C(n, k)` for `k <= n`, or `None` exactly when the
/// coefficient exceeds `usize::MAX`.
///
/// The multiplicative recurrence `C(m, i) = C(m - 1, i - 1) m / i` is applied
/// along the shorter diagonal, cancelling the common factor of the running
/// value and `i` before multiplying so that every step is exact.
pub fn checked_binomial(n: usize, k: usize) -> (result: Option<usize>)
    requires
        k <= n,
    ensures
        binomial(n as nat, k as nat) <= usize::MAX ==> result == Some(
            binomial(n as nat, k as nat) as usize,
        ),
        binomial(n as nat, k as nat) > usize::MAX ==> result is None,
{
    proof {
        lemma_binomial_symmetry(n as nat, k as nat);
    }
    let short = if k <= n - k { k } else { n - k };
    let ghost target = binomial(n as nat, k as nat);
    assert(target == binomial(n as nat, short as nat));
    let mut result: usize = 1;
    let mut index: usize = 1;
    while index <= short
        invariant
            1 <= index <= short + 1,
            2 * short <= n,
            target == binomial(n as nat, short as nat),
            target == binomial(n as nat, k as nat),
            result == binomial((n - short + index - 1) as nat, (index - 1) as nat),
        decreases short + 1 - index,
    {
        let numerator = n - short + index;
        let ghost r = result as nat;
        let divisor_gcd = greatest_common_divisor(result, index);
        proof {
            lemma_binomial_step(r, numerator as nat, index as nat, divisor_gcd as nat);
        }
        let reduced = result / divisor_gcd;
        let remaining_divisor = index / divisor_gcd;
        let reduced_numerator = numerator / remaining_divisor;
        match reduced.checked_mul(reduced_numerator) {
            Some(product) => {
                result = product;
            },
            None => {
                proof {
                    assert(reduced * reduced_numerator > usize::MAX);
                    assert(binomial(numerator as nat, index as nat) > usize::MAX);
                    assert(numerator == n - short + index);
                    lemma_binomial_diagonal_monotone_range(
                        n as nat,
                        short as nat,
                        index as nat,
                        short as nat,
                    );
                    assert(n - short + short == n);
                    assert(binomial((n - short + index) as nat, index as nat) == binomial(
                        numerator as nat,
                        index as nat,
                    ));
                    assert(binomial((n - short + short) as nat, short as nat) == binomial(
                        n as nat,
                        short as nat,
                    ));
                    assert(target > usize::MAX);
                }
                return None;
            },
        }
        index = index + 1;
    }
    assert(n - short + short == n);
    Some(result)
}

} // verus!
