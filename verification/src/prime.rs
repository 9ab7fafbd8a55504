//! Plan for the direct symmetric form of a prime-size transform.
//!
//! A kernel built from this plan precomputes the twiddles with exponents
//! `1 .. (n+1)/2`, the pairwise sums `xp_m = x[m] + x[n-m]` and differences
//! `xn_m = x[m] - x[n-m]`, and output zero as `x[0] + sum of all xp_m`.
//! For each output band `a` in `1 .. (n+1)/2` it accumulates four sums over
//! `m` in `1 .. (n+1)/2`, driven by the folded exponent of `a * m`:
//!
//! - `re_a = x[0].re + sum of w[tw].re * xp_m.re`,
//! - `re_b = sum of (+/-) w[tw].im * xn_m.im`,
//! - `im_a = x[0].im + sum of w[tw].re * xp_m.im`,
//! - `im_b = sum of (+/-) w[tw].im * xn_m.re`,
//!
//! where the sign is negative exactly when the unfolded exponent fell in
//! the upper half (the `conj` flag). Output `a` is then
//! `(re_a - re_b, im_a + im_b)` for `a` in the lower half, and output `a`
//! with `a` in the upper half reuses band `n - a` as
//! `(re_a + re_b, im_a - im_b)`.
//!
//! The plan exists only when no product `a * m` of two indices in
//! `1 .. (n+1)/2` is divisible by `n` — true of every prime — since a zero
//! folded exponent has no precomputed twiddle to refer to.

use vstd::prelude::*;

verus! {

/// One accumulated product: the folded twiddle exponent and whether the
/// unfolded exponent fell in the upper half (flipping the `im` sign).
#[derive(Clone, Copy, PartialEq, Eq, Structural, Debug)]
pub struct PrimeTerm {
    pub tw: usize,
    pub conj: bool,
}

/// The exponent `e` reduced modulo `n` and folded into `[0, n/2]` by
/// twiddle symmetry.
pub open spec fn spec_fold(n: int, e: int) -> int {
    if e % n > n / 2 {
        n - e % n
    } else {
        e % n
    }
}

/// Whether the exponent `e` reduced modulo `n` falls in the upper half.
pub open spec fn spec_upper(n: int, e: int) -> bool {
    e % n > n / 2
}

pub struct PrimePlan {
    /// The transform size.
    pub n: usize,
    /// `(n + 1) / 2`: twiddles and bands carry indices `1 .. half`.
    pub half: usize,
    /// `terms[a][m]` drives the product accumulated into band `a + 1` for
    /// inner index `m + 1`: the folded exponent of `(a+1) * (m+1)` and its
    /// upper-half flag.
    pub terms: Vec<Vec<PrimeTerm>>,
    /// `fold_out[k]` sends output `k + 1` to its band: the folded index of
    /// `k + 1` and whether `k + 1` lies in the upper half (picking the
    /// conjugate recombination).
    pub fold_out: Vec<(usize, bool)>,
}

/// Build the direct symmetric plan for an odd size `n`, or nothing when
/// some folded exponent would be zero (impossible for primes).
pub fn prime_plan(n: usize) -> (r: Option<PrimePlan>)
    requires
        3 <= n,
        n % 2 == 1,
        n <= 65535,
    ensures
        match r {
            Some(p) => {
                &&& p.n == n
                &&& p.half == (n + 1) / 2
                &&& p.terms@.len() == (n + 1) / 2 - 1
                &&& forall|a: int|
                    0 <= a < p.terms@.len() ==> (#[trigger] p.terms@[a])@.len() == (n + 1) / 2 - 1
                &&& forall|a: int, m: int|
                    0 <= a < p.terms@.len() && 0 <= m < p.terms@.len() ==> {
                        &&& (#[trigger] p.terms@[a]@[m]).tw == spec_fold(
                            n as int,
                            (a + 1) * (m + 1),
                        )
                        &&& p.terms@[a]@[m].conj == spec_upper(n as int, (a + 1) * (m + 1))
                        &&& 1 <= p.terms@[a]@[m].tw < (n + 1) / 2
                    }
                &&& p.fold_out@.len() == n - 1
                &&& forall|k: int|
                    0 <= k < n - 1 ==> {
                        &&& (#[trigger] p.fold_out@[k]).0 == spec_fold(n as int, k + 1)
                        &&& p.fold_out@[k].1 == spec_upper(n as int, k + 1)
                        &&& 1 <= p.fold_out@[k].0 < (n + 1) / 2
                    }
            },
            None => exists|a: int, m: int|
                1 <= a < (n + 1) / 2 && 1 <= m < (n + 1) / 2 && #[trigger] ((a * m) % (n as int))
                    == 0,
        },
{
    let half: usize = (n + 1) / 2;
    let mut terms: Vec<Vec<PrimeTerm>> = Vec::new();
    let mut a: usize = 0;
    while a < half - 1
        invariant
            3 <= n <= 65535,
            n % 2 == 1,
            half == (n + 1) / 2,
            a <= half - 1,
            terms@.len() == a,
            forall|aa: int| 0 <= aa < a ==> (#[trigger] terms@[aa])@.len() == half - 1,
            forall|aa: int, mm: int|
                0 <= aa < a && 0 <= mm < half - 1 ==> {
                    &&& (#[trigger] terms@[aa]@[mm]).tw == spec_fold(n as int, (aa + 1) * (mm + 1))
                    &&& terms@[aa]@[mm].conj == spec_upper(n as int, (aa + 1) * (mm + 1))
                    &&& 1 <= terms@[aa]@[mm].tw < half
                },
        decreases half - a,
    {
        let mut band: Vec<PrimeTerm> = Vec::new();
        let mut m: usize = 0;
        while m < half - 1
            invariant
                3 <= n <= 65535,
                n % 2 == 1,
                half == (n + 1) / 2,
                a < half - 1,
                m <= half - 1,
                band@.len() == m,
                forall|mm: int|
                    0 <= mm < m ==> {
                        &&& (#[trigger] band@[mm]).tw == spec_fold(n as int, (a + 1) * (mm + 1))
                        &&& band@[mm].conj == spec_upper(n as int, (a + 1) * (mm + 1))
                        &&& 1 <= band@[mm].tw < half
                    },
            decreases half - m,
        {
            proof {
                assert((a + 1) * (m + 1) <= 1073741824) by (nonlinear_arith)
                    requires
                        0 <= a,
                        0 <= m,
                        a + 1 <= 32768,
                        m + 1 <= 32768,
                ;
            }
            let e: usize = (a + 1) * (m + 1);
            let mn: usize = e % n;
            if mn == 0 {
                proof {
                    let aw: int = a + 1;
                    let mw: int = m + 1;
                    assert((aw * mw) % (n as int) == 0);
                    assert(1 <= aw < (n + 1) / 2 && 1 <= mw < (n + 1) / 2);
                }
                return None;
            }
            let term: PrimeTerm = if mn > n / 2 {
                PrimeTerm { tw: n - mn, conj: true }
            } else {
                PrimeTerm { tw: mn, conj: false }
            };
            proof {
                vstd::arithmetic::div_mod::lemma_mod_bound(e as int, n as int);
            }
            band.push(term);
            m = m + 1;
        }
        terms.push(band);
        a = a + 1;
    }
    let mut fold_out: Vec<(usize, bool)> = Vec::new();
    let mut k: usize = 0;
    while k < n - 1
        invariant
            3 <= n <= 65535,
            n % 2 == 1,
            half == (n + 1) / 2,
            k <= n - 1,
            fold_out@.len() == k,
            forall|kk: int|
                0 <= kk < k ==> {
                    &&& (#[trigger] fold_out@[kk]).0 == spec_fold(n as int, kk + 1)
                    &&& fold_out@[kk].1 == spec_upper(n as int, kk + 1)
                    &&& 1 <= fold_out@[kk].0 < half
                },
        decreases n - 1 - k,
    {
        let kn: usize = k + 1;
        proof {
            vstd::arithmetic::div_mod::lemma_small_mod(kn as nat, n as nat);
        }
        let pair: (usize, bool) = if kn > n / 2 {
            (n - kn, true)
        } else {
            (kn, false)
        };
        fold_out.push(pair);
        k = k + 1;
    }
    proof {
        assert forall|a1: int, m1: int|
            1 <= a1 < (n + 1) / 2 && 1 <= m1 < (n + 1) / 2 implies #[trigger] ((a1 * m1) % (
        n as int)) != 0 by {
            assert(terms@[a1 - 1]@[m1 - 1].tw == spec_fold(n as int, a1 * m1));
            assert(terms@[a1 - 1]@[m1 - 1].tw >= 1);
        }
    }
    Some(PrimePlan { n, half, terms, fold_out })
}

/// The fold is sound: with the upper-half flag clear the folded exponent
/// is the reduced exponent itself, and with it set the two add up to a
/// full turn, so the kernel reads the conjugate of the folded twiddle.
pub proof fn lemma_fold_conjugate(n: int, e: int)
    requires
        1 <= n,
        0 <= e,
    ensures
        !spec_upper(n, e) ==> spec_fold(n, e) == e % n,
        spec_upper(n, e) ==> spec_fold(n, e) == n - e % n && (spec_fold(n, e) + e % n) % n == 0,
{
    vstd::arithmetic::div_mod::lemma_mod_bound(e, n);
    if spec_upper(n, e) {
        vstd::arithmetic::div_mod::lemma_mod_self_0(n);
    }
}

/// Opposite output bands see opposite exponents: `m*k` and `m*(n-k)` add
/// up to a multiple of `n`, so the upper band's products are conjugates
/// of the lower band's and the recombination may reuse the lower band
/// with flipped signs.
pub proof fn lemma_band_symmetry(n: int, m: int, k: int)
    requires
        1 <= n,
        0 <= m,
        0 <= k <= n,
    ensures
        (m * k + m * (n - k)) % n == 0,
{
    assert(m * k + m * (n - k) == n * m + 0) by (nonlinear_arith);
    vstd::arithmetic::div_mod::lemma_mod_multiples_vanish(m, 0, n);
    vstd::arithmetic::div_mod::lemma_small_mod(0, n as nat);
}

} // verus!
