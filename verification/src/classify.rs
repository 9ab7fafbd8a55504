//! The factor classifier: decides which decomposition strategy the kernel
//! generator uses for a size, and finds the coprime split that the
//! prime-factor decomposition is built on.

use vstd::prelude::*;

verus! {

use crate::arith::{
    spec_gcd, spec_is_pow2, spec_isqrt, spec_ceil_sqrt, gcd, is_pow2, isqrt, ceil_sqrt,
    lemma_gcd_one_left, lemma_isqrt_bounds,
};

/// The four decomposition strategies a kernel can be built from.
#[derive(Clone, Copy, PartialEq, Eq, Structural, Debug)]
pub enum FFTType {
    PowerOfTwo,
    Prime,
    Coprime,
    Mixed,
}

/// The largest `v` with `1 < v <= b` that divides `n` with a cofactor
/// coprime to it; `1` when no such `v` exists.
pub open spec fn spec_split_below(n: int, b: int) -> int
    decreases b,
{
    if b <= 1 {
        1
    } else if n % b == 0 && spec_gcd(b as nat, (n / b) as nat) == 1 {
        b
    } else {
        spec_split_below(n, b - 1)
    }
}

/// The divisor the coprime search settles on: the largest divisor of `n`
/// below the ceiling of the square root whose cofactor is coprime to it.
pub open spec fn spec_split_v1(n: int) -> int {
    spec_split_below(n, spec_ceil_sqrt(n as nat) - 1)
}

/// Whether `n` is the square of an odd integer.
pub open spec fn spec_odd_square(n: int) -> bool {
    spec_isqrt(n as nat) * spec_isqrt(n as nat) == n && spec_isqrt(n as nat) % 2 == 1
}

/// The decomposition strategy for size `n`; the first matching rule wins.
/// Even perfect squares deliberately fall through to the coprime search,
/// and sizes without any coprime split land on the direct prime form.
pub open spec fn spec_fft_type(n: int) -> FFTType {
    if spec_is_pow2(n) {
        FFTType::PowerOfTwo
    } else if spec_odd_square(n) {
        FFTType::Mixed
    } else if spec_split_v1(n) == 1 {
        FFTType::Prime
    } else {
        FFTType::Coprime
    }
}

/// No candidate strictly above the settled divisor qualifies.
pub proof fn lemma_split_below_max(n: int, b: int, d: int)
    requires
        spec_split_below(n, b) < d <= b,
    ensures
        !(n % d == 0 && spec_gcd(d as nat, (n / d) as nat) == 1),
    decreases b,
{
    if b <= 1 {
    } else if n % b == 0 && spec_gcd(b as nat, (n / b) as nat) == 1 {
    } else {
        if d < b {
            lemma_split_below_max(n, b - 1, d);
        }
    }
}

/// Candidates below the ceiling of the square root are strictly smaller
/// than their cofactor.
proof fn lemma_candidate_below_cofactor(n: int, v1: int, v2: int)
    requires
        n >= 2,
        1 <= v1 < spec_ceil_sqrt(n as nat),
        v1 * v2 == n,
    ensures
        v1 < v2,
{
    lemma_isqrt_bounds(n as nat);
    let s = spec_isqrt(n as nat);
    if s * s == n {
        assert(v1 < s);
        assert(v1 < v2) by (nonlinear_arith)
            requires
                1 <= v1 < s,
                s * s == n,
                v1 * v2 == n,
        ;
    } else {
        assert(v1 <= s);
        assert(v1 < v2) by (nonlinear_arith)
            requires
                1 <= v1 <= s,
                s * s <= n,
                s * s != n,
                v1 * v2 == n,
        ;
    }
}

/// The coprime split search: walk candidate divisors downward from the
/// square root and return the first divisor whose cofactor is coprime to
/// it, smaller factor first. Every size of at least two has the fallback
/// split `(1, n)`, so the search always succeeds.
pub fn compute_coprimes(n: usize) -> (r: (usize, usize))
    requires
        2 <= n,
    ensures
        r.0 == spec_split_v1(n as int),
        r.0 * r.1 == n,
        1 <= r.0 < r.1,
        spec_gcd(r.0 as nat, r.1 as nat) == 1,
        forall|d: int|
            r.0 < d < spec_ceil_sqrt(n as nat) ==> !(#[trigger] (n as int % d) == 0 && spec_gcd(
                d as nat,
                (n as int / d) as nat,
            ) == 1),
{
    let sqr: usize = ceil_sqrt(n);
    proof {
        lemma_isqrt_bounds(n as nat);
        assert(sqr >= 2) by (nonlinear_arith)
            requires
                n >= 2,
                sqr == spec_ceil_sqrt(n as nat),
                spec_isqrt(n as nat) * spec_isqrt(n as nat) <= n,
                n < (spec_isqrt(n as nat) + 1) * (spec_isqrt(n as nat) + 1),
                sqr == spec_ceil_sqrt(n as nat),
                (spec_isqrt(n as nat) * spec_isqrt(n as nat) == n ==> sqr == spec_isqrt(n as nat)),
                (spec_isqrt(n as nat) * spec_isqrt(n as nat) != n ==> sqr == spec_isqrt(n as nat) + 1),
        ;
    }
    let mut v1: usize = sqr - 1;
    while v1 > 1
        invariant
            2 <= n,
            1 <= v1 <= sqr - 1,
            sqr == spec_ceil_sqrt(n as nat),
            spec_split_v1(n as int) == spec_split_below(n as int, v1 as int),
        decreases v1,
    {
        let v2: usize = n / v1;
        proof {
            vstd::arithmetic::div_mod::lemma_fundamental_div_mod(n as int, v1 as int);
        }
        if v2 * v1 == n && gcd(v1, v2) == 1 {
            proof {
                assert(n as int % v1 as int == 0) by (nonlinear_arith)
                    requires
                        n as int == v1 * (n as int / v1 as int) + n as int % (v1 as int),
                        v2 == n as int / v1 as int,
                        v2 * v1 == n,
                ;
                assert(spec_split_below(n as int, v1 as int) == v1);
                lemma_candidate_below_cofactor(n as int, v1 as int, v2 as int);
                assert forall|d: int|
                    v1 < d < spec_ceil_sqrt(n as nat) implies !(#[trigger] (n as int % d) == 0
                    && spec_gcd(d as nat, (n as int / d) as nat) == 1) by {
                    lemma_split_below_max(n as int, spec_ceil_sqrt(n as nat) - 1, d);
                }
                assert(v1 * v2 == n) by (nonlinear_arith)
                    requires
                        v2 * v1 == n,
                ;
            }
            return (v1, v2);
        }
        proof {
            if n as int % v1 as int == 0 {
                assert(v2 * v1 == n) by (nonlinear_arith)
                    requires
                        n as int == v1 * (n as int / v1 as int) + n as int % (v1 as int),
                        n as int % v1 as int == 0,
                        v2 == n as int / v1 as int,
                ;
                assert(spec_gcd(v1 as nat, (n as int / v1 as int) as nat) != 1);
            }
            assert(spec_split_below(n as int, v1 as int) == spec_split_below(
                n as int,
                v1 as int - 1,
            ));
        }
        v1 = v1 - 1;
    }
    proof {
        lemma_gcd_one_left(n as nat);
        assert(spec_split_below(n as int, 1int) == 1);
        assert(1 * n == n) by (nonlinear_arith);
        assert forall|d: int|
            1 < d < spec_ceil_sqrt(n as nat) implies !(#[trigger] (n as int % d) == 0
            && spec_gcd(d as nat, (n as int / d) as nat) == 1) by {
            lemma_split_below_max(n as int, spec_ceil_sqrt(n as nat) - 1, d);
        }
    }
    (1, n)
}

impl FFTType {
    /// Decide the decomposition strategy for size `n`: a power of two, an
    /// odd perfect square, the best coprime split, or the direct prime form
    /// when no coprime split exists.
    pub fn compute_type(n: usize) -> (t: FFTType)
        requires
            1 <= n,
        ensures
            t == spec_fft_type(n as int),
    {
        if is_pow2(n) {
            FFTType::PowerOfTwo
        } else {
            let sqr: usize = isqrt(n);
            proof {
                assert((spec_isqrt(n as nat) * spec_isqrt(n as nat) == n) == (sqr * sqr == n))
                    by (nonlinear_arith)
                    requires
                        sqr == spec_isqrt(n as nat),
                ;
            }
            if sqr * sqr == n && sqr % 2 == 1 {
                FFTType::Mixed
            } else {
                let split: (usize, usize) = compute_coprimes(n);
                if split.0 == 1 {
                    FFTType::Prime
                } else {
                    FFTType::Coprime
                }
            }
        }
    }
}

} // verus!
