//! Small arithmetic helpers shared by the classifier and the plan builders:
//! greatest common divisor, power-of-two recognition and integer square
//! roots, each pinned to a spec-level definition.

use vstd::prelude::*;

verus! {

/// Greatest common divisor by Euclid's rule.
pub open spec fn spec_gcd(a: nat, b: nat) -> nat
    decreases b,
{
    if b == 0 {
        a
    } else {
        spec_gcd(b, a % b)
    }
}

/// Relies on num_integer::gcd: the greatest common divisor of the two
/// arguments, which for unsigned integers is the Euclidean one.
#[verifier::external_body]
pub(crate) fn gcd(a: usize, b: usize) -> (r: usize)
    ensures
        r == spec_gcd(a as nat, b as nat),
{
    num_integer::gcd(a, b)
}

/// One is coprime to everything.
pub proof fn lemma_gcd_one_left(n: nat)
    requires
        n >= 2,
    ensures
        spec_gcd(1, n) == 1,
{
    assert(1nat % n == 1) by {
        vstd::arithmetic::div_mod::lemma_small_mod(1, n);
    }
    assert(spec_gcd(1, n) == spec_gcd(n, 1));
    assert(n % 1 == 0);
    assert(spec_gcd(n, 1) == spec_gcd(1, 0));
}

/// Bezout coefficients for the greatest common divisor, from Euclid's
/// recursion: the returned pair `(x, y)` has `a*x + b*y == gcd(a, b)`.
pub proof fn lemma_bezout(a: nat, b: nat) -> (r: (int, int))
    ensures
        a * r.0 + b * r.1 == spec_gcd(a, b),
    decreases b,
{
    if b == 0 {
        let r: (int, int) = (1, 0);
        assert(a * 1 + b * 0 == a) by (nonlinear_arith)
            requires
                b == 0,
        ;
        r
    } else {
        vstd::arithmetic::div_mod::lemma_fundamental_div_mod(a as int, b as int);
        vstd::arithmetic::div_mod::lemma_mod_bound(a as int, b as int);
        let q: int = a as int / b as int;
        let m: nat = a % b;
        let p: (int, int) = lemma_bezout(b, m);
        let r: (int, int) = (p.1, p.0 - q * p.1);
        assert(a * r.0 + b * r.1 == b * p.0 + m * p.1) by (nonlinear_arith)
            requires
                a == b * q + m,
                r.0 == p.1,
                r.1 == p.0 - q * p.1,
        ;
        assert(spec_gcd(a, b) == spec_gcd(b, m));
        r
    }
}

/// A common multiple of two coprime numbers below their product is zero.
pub proof fn lemma_coprime_common_multiple_zero(c1: int, c2: int, d: int, u: int, v: int)
    requires
        1 <= c1,
        1 <= c2,
        spec_gcd(c1 as nat, c2 as nat) == 1,
        d == c1 * u,
        d == c2 * v,
        0 <= d < c1 * c2,
    ensures
        d == 0,
{
    let p = lemma_bezout(c1 as nat, c2 as nat);
    assert(d == c1 * c2 * (p.0 * v + p.1 * u)) by (nonlinear_arith)
        requires
            c1 * p.0 + c2 * p.1 == 1,
            d == c1 * u,
            d == c2 * v,
    ;
    assert(d == 0) by (nonlinear_arith)
        requires
            d == c1 * c2 * (p.0 * v + p.1 * u),
            0 <= d < c1 * c2,
            1 <= c1,
            1 <= c2,
    ;
}

/// Whether `n` is a power of two (and at least one).
pub open spec fn spec_is_pow2(n: int) -> bool
    decreases n,
{
    if n <= 0 {
        false
    } else if n == 1 {
        true
    } else {
        n % 2 == 0 && spec_is_pow2(n / 2)
    }
}

/// Power-of-two test, by repeated halving.
pub fn is_pow2(n: usize) -> (r: bool)
    ensures
        r == spec_is_pow2(n as int),
{
    if n == 0 {
        return false;
    }
    let mut m: usize = n;
    while m > 1 && m % 2 == 0
        invariant
            m >= 1,
            spec_is_pow2(n as int) == spec_is_pow2(m as int),
        decreases m,
    {
        m = m / 2;
    }
    m == 1
}

/// The integer square root, defined by counting up.
pub open spec fn spec_isqrt(n: nat) -> nat
    decreases n,
{
    if n == 0 {
        0
    } else {
        let r = spec_isqrt((n - 1) as nat);
        if (r + 1) * (r + 1) <= n {
            r + 1
        } else {
            r
        }
    }
}

pub proof fn lemma_isqrt_bounds(n: nat)
    ensures
        spec_isqrt(n) * spec_isqrt(n) <= n,
        n < (spec_isqrt(n) + 1) * (spec_isqrt(n) + 1),
    decreases n,
{
    let s = spec_isqrt(n);
    if n == 0 {
        assert(s == 0);
        assert(s * s <= n && n < (s + 1) * (s + 1)) by (nonlinear_arith)
            requires
                s == 0,
                n == 0,
        ;
    } else {
        lemma_isqrt_bounds((n - 1) as nat);
        let r = spec_isqrt((n - 1) as nat);
        if (r + 1) * (r + 1) <= n {
            assert(s == r + 1);
            assert(s * s <= n && n < (s + 1) * (s + 1)) by (nonlinear_arith)
                requires
                    s == r + 1,
                    (r + 1) * (r + 1) <= n,
                    n - 1 < (r + 1) * (r + 1),
            ;
        } else {
            assert(s == r);
            assert(s * s <= n && n < (s + 1) * (s + 1)) by (nonlinear_arith)
                requires
                    s == r,
                    r * r <= n - 1,
                    n >= 1,
                    !((r + 1) * (r + 1) <= n),
            ;
        }
    }
}

/// Any `r` within the square-root bracket is the integer square root.
pub proof fn lemma_isqrt_from_bounds(n: nat, r: nat)
    requires
        r * r <= n,
        n < (r + 1) * (r + 1),
    ensures
        spec_isqrt(n) == r,
{
    lemma_isqrt_bounds(n);
    let s = spec_isqrt(n);
    assert(s == r) by (nonlinear_arith)
        requires
            s * s <= n,
            n < (s + 1) * (s + 1),
            r * r <= n,
            n < (r + 1) * (r + 1),
    ;
}

/// Integer square root, by counting up.
pub fn isqrt(n: usize) -> (r: usize)
    ensures
        r == spec_isqrt(n as nat),
        r * r <= n < (r + 1) * (r + 1),
{
    if n < 2 {
        proof {
            assert(n * n <= n && n < (n + 1) * (n + 1)) by (nonlinear_arith)
                requires
                    n < 2,
            ;
            lemma_isqrt_from_bounds(n as nat, n as nat);
        }
        return n;
    }
    let mut r: usize = 0;
    while r + 1 <= n / (r + 1)
        invariant
            n >= 2,
            r < n,
            r * r <= n,
        decreases n - r,
    {
        proof {
            vstd::arithmetic::div_mod::lemma_fundamental_div_mod(n as int, r + 1);
            vstd::arithmetic::div_mod::lemma_mod_bound(n as int, r + 1);
            assert((r + 1) * (r + 1) <= n) by (nonlinear_arith)
                requires
                    n as int == (r + 1) * (n as int / (r + 1)) + n as int % (r + 1),
                    n as int % (r + 1) >= 0,
                    r + 1 <= n as int / (r + 1),
            ;
            assert(r + 1 < n) by (nonlinear_arith)
                requires
                    (r + 1) * (r + 1) <= n,
                    n >= 2,
            ;
        }
        r = r + 1;
    }
    proof {
        vstd::arithmetic::div_mod::lemma_fundamental_div_mod(n as int, r + 1);
        vstd::arithmetic::div_mod::lemma_mod_bound(n as int, r + 1);
        assert(n < (r + 1) * (r + 1)) by (nonlinear_arith)
            requires
                n as int == (r + 1) * (n as int / (r + 1)) + n as int % (r + 1),
                0 <= n as int % (r + 1) < r + 1,
                !(r + 1 <= n as int / (r + 1)),
                n as int / (r + 1) >= 0,
        ;
        lemma_isqrt_from_bounds(n as nat, r as nat);
    }
    r
}

/// The least `s` with `s * s >= n`: the bound below which the coprime split
/// search enumerates candidate divisors.
pub open spec fn spec_ceil_sqrt(n: nat) -> nat {
    if spec_isqrt(n) * spec_isqrt(n) == n {
        spec_isqrt(n)
    } else {
        spec_isqrt(n) + 1
    }
}

/// Ceiling of the square root.
pub fn ceil_sqrt(n: usize) -> (r: usize)
    ensures
        r == spec_ceil_sqrt(n as nat),
{
    let s: usize = isqrt(n);
    if s * s == n {
        s
    } else {
        assert(s < usize::MAX) by (nonlinear_arith)
            requires
                s * s <= n <= usize::MAX,
                usize::MAX >= 3,
        ;
        s + 1
    }
}

} // verus!
