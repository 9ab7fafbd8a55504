//! Plan for the prime-factor (coprime) split of a size `n = c1 * c2` with
//! coprime factors: the twiddleless re-indexing that feeds `c2` row
//! transforms of size `c1`, then `c1` column transforms of size `c2`, and
//! draws output `k` from column `k mod c1` at element `k mod c2`.

use vstd::prelude::*;

verus! {

use crate::arith::{lemma_coprime_common_multiple_zero, spec_gcd};
use crate::classify::{compute_coprimes, spec_split_v1};

pub struct CoprimePlan {
    /// The transform size, the product of the two coprime factors.
    pub n: usize,
    /// The smaller factor: the size of each row transform.
    pub c1: usize,
    /// The larger factor: the size of each column transform.
    pub c2: usize,
    /// `rows[i][j]` is the input index fed to slot `j` of row transform `i`:
    /// `(c1*i + c2*j) mod n`.
    pub rows: Vec<Vec<usize>>,
    /// `combine[k]` is the pair (column, element) output `k` is drawn from:
    /// `(k mod c1, k mod c2)`.
    pub combine: Vec<(usize, usize)>,
}

/// Build the coprime-split plan for `n`, with the factors found by the
/// coprime search.
pub fn coprime_plan(n: usize) -> (p: CoprimePlan)
    requires
        2 <= n,
        n <= usize::MAX / 2,
    ensures
        p.n == n,
        p.c1 == spec_split_v1(n as int),
        p.c1 * p.c2 == n,
        1 <= p.c1 < p.c2,
        spec_gcd(p.c1 as nat, p.c2 as nat) == 1,
        p.rows@.len() == p.c2,
        forall|i: int| 0 <= i < p.c2 ==> #[trigger] p.rows@[i]@.len() == p.c1,
        forall|i: int, j: int|
            0 <= i < p.c2 && 0 <= j < p.c1 ==> #[trigger] p.rows@[i]@[j] == (p.c1 * i + p.c2 * j)
                % (n as int),
        p.combine@.len() == n,
        forall|k: int| 0 <= k < n ==> (#[trigger] p.combine@[k]).0 == k % (p.c1 as int),
        forall|k: int| 0 <= k < n ==> (#[trigger] p.combine@[k]).1 == k % (p.c2 as int),
        forall|k1: int, k2: int|
            0 <= k1 < k2 < n ==> (#[trigger] p.combine@[k1]) != (#[trigger] p.combine@[k2]),
        forall|i1: int, j1: int, i2: int, j2: int|
            0 <= i1 < p.c2 && 0 <= j1 < p.c1 && 0 <= i2 < p.c2 && 0 <= j2 < p.c1 && (i1 != i2 || j1
                != j2) ==> (#[trigger] p.rows@[i1]@[j1]) != (#[trigger] p.rows@[i2]@[j2]),
{
    let split: (usize, usize) = compute_coprimes(n);
    let c1: usize = split.0;
    let c2: usize = split.1;
    let mut rows: Vec<Vec<usize>> = Vec::new();
    let mut i: usize = 0;
    while i < c2
        invariant
            2 <= n <= usize::MAX / 2,
            c1 * c2 == n,
            1 <= c1 < c2,
            i <= c2,
            rows@.len() == i,
            forall|ii: int| 0 <= ii < i ==> #[trigger] rows@[ii]@.len() == c1,
            forall|ii: int, j: int|
                0 <= ii < i && 0 <= j < c1 ==> #[trigger] rows@[ii]@[j] == (c1 * ii + c2 * j) % (
                n as int),
        decreases c2 - i,
    {
        let mut row: Vec<usize> = Vec::new();
        let mut j: usize = 0;
        while j < c1
            invariant
                2 <= n <= usize::MAX / 2,
                c1 * c2 == n,
                1 <= c1 < c2,
                i < c2,
                j <= c1,
                row@.len() == j,
                forall|jj: int|
                    0 <= jj < j ==> #[trigger] row@[jj] == (c1 * (i as int) + c2 * jj) % (n as int),
            decreases c1 - j,
        {
            proof {
                assert(c1 * i < n && c2 * j < n) by (nonlinear_arith)
                    requires
                        c1 * c2 == n,
                        1 <= c1,
                        1 <= c2,
                        0 <= i < c2,
                        0 <= j < c1,
                ;
            }
            let idx: usize = (c1 * i + c2 * j) % n;
            row.push(idx);
            j = j + 1;
        }
        rows.push(row);
        i = i + 1;
    }
    let mut combine: Vec<(usize, usize)> = Vec::new();
    let mut k: usize = 0;
    while k < n
        invariant
            1 <= c1,
            1 <= c2,
            k <= n,
            combine@.len() == k,
            forall|kk: int| 0 <= kk < k ==> (#[trigger] combine@[kk]).0 == kk % (c1 as int),
            forall|kk: int| 0 <= kk < k ==> (#[trigger] combine@[kk]).1 == kk % (c2 as int),
        decreases n - k,
    {
        combine.push((k % c1, k % c2));
        k = k + 1;
    }
    let p = CoprimePlan { n, c1, c2, rows, combine };
    proof {
        assert forall|k1: int, k2: int|
            0 <= k1 < k2 < n implies (#[trigger] p.combine@[k1]) != (#[trigger] p.combine@[k2]) by {
            if p.combine@[k1] == p.combine@[k2] {
                lemma_coprime_remainders_unique(c1 as int, c2 as int, k1, k2);
            }
        }
        assert forall|i1: int, j1: int, i2: int, j2: int|
            0 <= i1 < p.c2 && 0 <= j1 < p.c1 && 0 <= i2 < p.c2 && 0 <= j2 < p.c1 && (i1 != i2 || j1
                != j2) implies (#[trigger] p.rows@[i1]@[j1]) != (#[trigger] p.rows@[i2]@[j2]) by {
            if p.rows@[i1]@[j1] == p.rows@[i2]@[j2] {
                lemma_coprime_input_slots_unique(c1 as int, c2 as int, i1, j1, i2, j2);
            }
        }
    }
    p
}

/// For coprime factors, the remainder pair determines the index: two
/// indices below `c1 * c2` with the same remainders modulo `c1` and
/// modulo `c2` are equal. Distinct outputs of the recombination therefore
/// read distinct column cells.
pub proof fn lemma_coprime_remainders_unique(c1: int, c2: int, k1: int, k2: int)
    requires
        1 <= c1,
        1 <= c2,
        spec_gcd(c1 as nat, c2 as nat) == 1,
        0 <= k1 < c1 * c2,
        0 <= k2 < c1 * c2,
        k1 % c1 == k2 % c1,
        k1 % c2 == k2 % c2,
    ensures
        k1 == k2,
{
    vstd::arithmetic::div_mod::lemma_fundamental_div_mod(k1, c1);
    vstd::arithmetic::div_mod::lemma_fundamental_div_mod(k2, c1);
    vstd::arithmetic::div_mod::lemma_fundamental_div_mod(k1, c2);
    vstd::arithmetic::div_mod::lemma_fundamental_div_mod(k2, c2);
    if k1 != k2 {
        let lo = if k1 < k2 {
            k1
        } else {
            k2
        };
        let hi = if k1 < k2 {
            k2
        } else {
            k1
        };
        let d = hi - lo;
        let u = hi / c1 - lo / c1;
        assert(d == c1 * u) by (nonlinear_arith)
            requires
                hi == c1 * (hi / c1) + hi % c1,
                lo == c1 * (lo / c1) + lo % c1,
                hi % c1 == lo % c1,
                u == hi / c1 - lo / c1,
                d == hi - lo,
        ;
        let v = hi / c2 - lo / c2;
        assert(d == c2 * v) by (nonlinear_arith)
            requires
                hi == c2 * (hi / c2) + hi % c2,
                lo == c2 * (lo / c2) + lo % c2,
                hi % c2 == lo % c2,
                v == hi / c2 - lo / c2,
                d == hi - lo,
        ;
        lemma_coprime_common_multiple_zero(c1, c2, d, u, v);
        assert(false);
    }
}

/// For coprime factors, distinct row slots of the re-indexing read
/// distinct input samples: `(c1*i + c2*j) mod (c1*c2)` determines the
/// pair `(i, j)` over `[0, c2) x [0, c1)`.
pub proof fn lemma_coprime_input_slots_unique(
    c1: int,
    c2: int,
    i1: int,
    j1: int,
    i2: int,
    j2: int,
)
    requires
        1 <= c1,
        1 <= c2,
        spec_gcd(c1 as nat, c2 as nat) == 1,
        0 <= i1 < c2,
        0 <= j1 < c1,
        0 <= i2 < c2,
        0 <= j2 < c1,
        (c1 * i1 + c2 * j1) % (c1 * c2) == (c1 * i2 + c2 * j2) % (c1 * c2),
    ensures
        i1 == i2,
        j1 == j2,
{
    let n = c1 * c2;
    let a = c1 * i1 + c2 * j1;
    let b = c1 * i2 + c2 * j2;
    assert(0 <= a < 2 * n && 0 <= b < 2 * n) by (nonlinear_arith)
        requires
            n == c1 * c2,
            a == c1 * i1 + c2 * j1,
            b == c1 * i2 + c2 * j2,
            0 <= i1 < c2,
            0 <= j1 < c1,
            0 <= i2 < c2,
            0 <= j2 < c1,
            1 <= c1,
            1 <= c2,
    ;
    vstd::arithmetic::div_mod::lemma_fundamental_div_mod(a, n);
    vstd::arithmetic::div_mod::lemma_mod_bound(a, n);
    vstd::arithmetic::div_mod::lemma_fundamental_div_mod(b, n);
    vstd::arithmetic::div_mod::lemma_mod_bound(b, n);
    let t = a / n - b / n;
    assert(a - b == n * t && -1 <= t <= 1) by (nonlinear_arith)
        requires
            a == n * (a / n) + a % n,
            b == n * (b / n) + b % n,
            a % n == b % n,
            0 <= a % n < n,
            0 <= b % n < n,
            0 <= a < 2 * n,
            0 <= b < 2 * n,
            1 <= n,
            t == a / n - b / n,
    ;
    let p = crate::arith::lemma_bezout(c1 as nat, c2 as nat);
    let dj = j1 - j2;
    let w = c2 * t - i1 + i2;
    assert(c2 * dj == c1 * w) by (nonlinear_arith)
        requires
            a - b == n * t,
            n == c1 * c2,
            a == c1 * i1 + c2 * j1,
            b == c1 * i2 + c2 * j2,
            dj == j1 - j2,
            w == c2 * t - i1 + i2,
    ;
    assert(dj == c1 * (dj * p.0 + w * p.1)) by (nonlinear_arith)
        requires
            c1 * p.0 + c2 * p.1 == 1,
            c2 * dj == c1 * w,
            dj == j1 - j2,
    ;
    assert(dj == 0) by (nonlinear_arith)
        requires
            dj == c1 * (dj * p.0 + w * p.1),
            -c1 < dj < c1,
            1 <= c1,
    ;
    assert(i1 == i2) by (nonlinear_arith)
        requires
            a - b == n * t,
            n == c1 * c2,
            a == c1 * i1 + c2 * j1,
            b == c1 * i2 + c2 * j2,
            j1 == j2,
            -c2 < i1 - i2 < c2,
            -1 <= t <= 1,
            1 <= c1,
            1 <= c2,
    ;
}

/// The exponent algebra of the twiddleless split: against output `k`, the
/// input fed through `(c1*i + c2*j) mod n` carries exactly the exponent
/// that the row transform (exponent `j*k mod c1`, scaled by `c2`) and the
/// column transform (exponent `i*k mod c2`, scaled by `c1`) together
/// produce. No interior twiddle is left over.
pub proof fn lemma_good_thomas_exponent(c1: int, c2: int, i: int, j: int, k: int)
    requires
        1 <= c1,
        1 <= c2,
        0 <= i,
        0 <= j,
        0 <= k,
    ensures
        (((c1 * i + c2 * j) % (c1 * c2)) * k) % (c1 * c2) == (c1 * ((i * k) % c2) + c2 * ((j * k)
            % c1)) % (c1 * c2),
{
    let n = c1 * c2;
    assert(0 < n) by (nonlinear_arith)
        requires
            n == c1 * c2,
            1 <= c1,
            1 <= c2,
    ;
    vstd::arithmetic::div_mod::lemma_mul_mod_noop_left(c1 * i + c2 * j, k, n);
    vstd::arithmetic::div_mod::lemma_fundamental_div_mod(i * k, c2);
    vstd::arithmetic::div_mod::lemma_fundamental_div_mod(j * k, c1);
    let a = (i * k) / c2;
    let b = (j * k) / c1;
    assert(c1 * (i * k) == n * a + c1 * ((i * k) % c2)) by (nonlinear_arith)
        requires
            n == c1 * c2,
            i * k == c2 * a + (i * k) % c2,
    ;
    assert(c2 * (j * k) == n * b + c2 * ((j * k) % c1)) by (nonlinear_arith)
        requires
            n == c1 * c2,
            j * k == c1 * b + (j * k) % c1,
    ;
    assert((c1 * i + c2 * j) * k == c1 * (i * k) + c2 * (j * k)) by (nonlinear_arith);
    assert(n * (a + b) == n * a + n * b) by (nonlinear_arith);
    assert((c1 * i + c2 * j) * k == n * (a + b) + (c1 * ((i * k) % c2) + c2 * ((j * k) % c1)));
    vstd::arithmetic::div_mod::lemma_mod_multiples_vanish(
        a + b,
        c1 * ((i * k) % c2) + c2 * ((j * k) % c1),
        n,
    );
}

} // verus!
