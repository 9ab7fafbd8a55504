//! Plan for the mixed-radix split of `n = c1 * c2`: `c1` row transforms of
//! size `c2` over strided input, a twiddle multiplication at every interior
//! cell, `c2` column transforms of size `c1`, and a transpose-like
//! recombination.
//!
//! Column `y` transforms `[row_0[y] * w(0), row_1[y] * w(y), ...,
//! row_{c1-1}[y] * w((c1-1)*y)]`, where `w(e)` is the twiddle with exponent
//! `e` over length `n`. The exponent table keeps the raw products `i * y`:
//! successive entries of a column step by `c2` through the flattened table
//! without wrapping modulo `n`, which is the same twiddle value either way.
//! The generator applies this plan to odd perfect squares (`c1 == c2`); the
//! hand-tuned sizes use it with rectangular splits.

use vstd::prelude::*;

verus! {

use crate::arith::{isqrt, spec_isqrt};
use crate::classify::{FFTType, spec_fft_type, spec_odd_square};

pub struct MixedPlan {
    /// The transform size, the product of the two factors.
    pub n: usize,
    /// The number of rows; each column transform has this size.
    pub c1: usize,
    /// The size of each row transform; there are `c2` columns.
    pub c2: usize,
    /// `rows[i][j]` is the input index fed to slot `j` of row transform `i`:
    /// `i + j*c1`.
    pub rows: Vec<Vec<usize>>,
    /// `twiddles[y][i]` is the twiddle exponent (over length `n`) applied to
    /// element `y` of row `i` before column `y` is transformed: `i * y`.
    pub twiddles: Vec<Vec<usize>>,
    /// `combine[k]` is the pair (column, element) output `k` is drawn from:
    /// `(k mod c2, k / c2)`.
    pub combine: Vec<(usize, usize)>,
}

/// Everything the emitter needs to know of a well-formed mixed-radix plan:
/// the index maps and the exponent table, element by element.
pub open spec fn spec_mixed_plan_wf(p: MixedPlan) -> bool {
    &&& p.c1 * p.c2 == p.n
    &&& 1 <= p.c1
    &&& 1 <= p.c2
    &&& p.rows@.len() == p.c1
    &&& forall|i: int| 0 <= i < p.c1 ==> (#[trigger] p.rows@[i])@.len() == p.c2
    &&& forall|i: int, j: int|
        0 <= i < p.c1 && 0 <= j < p.c2 ==> #[trigger] p.rows@[i]@[j] == i + j * p.c1
    &&& p.twiddles@.len() == p.c2
    &&& forall|y: int| 0 <= y < p.c2 ==> (#[trigger] p.twiddles@[y])@.len() == p.c1
    &&& forall|y: int, i: int|
        0 <= y < p.c2 && 0 <= i < p.c1 ==> #[trigger] p.twiddles@[y]@[i] == i * y
    &&& p.combine@.len() == p.n
    &&& forall|k: int| 0 <= k < p.n ==> (#[trigger] p.combine@[k]).0 == k % (p.c2 as int)
    &&& forall|k: int| 0 <= k < p.n ==> (#[trigger] p.combine@[k]).1 == k / (p.c2 as int)
    &&& forall|k1: int, k2: int|
        0 <= k1 < k2 < p.n ==> (#[trigger] p.combine@[k1]) != (#[trigger] p.combine@[k2])
}

/// Build the mixed-radix plan for `n = c1 * c2`.
pub fn mixed_plan(n: usize, c1: usize, c2: usize) -> (p: MixedPlan)
    requires
        1 <= c1,
        1 <= c2,
        c1 * c2 == n,
    ensures
        p.n == n,
        p.c1 == c1,
        p.c2 == c2,
        spec_mixed_plan_wf(p),
{
    let mut rows: Vec<Vec<usize>> = Vec::new();
    let mut i: usize = 0;
    while i < c1
        invariant
            1 <= c1,
            1 <= c2,
            c1 * c2 == n,
            i <= c1,
            rows@.len() == i,
            forall|ii: int| 0 <= ii < i ==> (#[trigger] rows@[ii])@.len() == c2,
            forall|ii: int, j: int|
                0 <= ii < i && 0 <= j < c2 ==> #[trigger] rows@[ii]@[j] == ii + j * c1,
        decreases c1 - i,
    {
        let mut row: Vec<usize> = Vec::new();
        let mut j: usize = 0;
        while j < c2
            invariant
                1 <= c1,
                1 <= c2,
                c1 * c2 == n,
                i < c1,
                j <= c2,
                row@.len() == j,
                forall|jj: int| 0 <= jj < j ==> #[trigger] row@[jj] == i + jj * c1,
            decreases c2 - j,
        {
            proof {
                assert(i + j * c1 < n) by (nonlinear_arith)
                    requires
                        c1 * c2 == n,
                        0 <= i < c1,
                        0 <= j < c2,
                ;
            }
            row.push(i + j * c1);
            j = j + 1;
        }
        rows.push(row);
        i = i + 1;
    }
    let mut twiddles: Vec<Vec<usize>> = Vec::new();
    let mut y: usize = 0;
    while y < c2
        invariant
            1 <= c1,
            1 <= c2,
            c1 * c2 == n,
            y <= c2,
            twiddles@.len() == y,
            forall|yy: int| 0 <= yy < y ==> (#[trigger] twiddles@[yy])@.len() == c1,
            forall|yy: int, ii: int|
                0 <= yy < y && 0 <= ii < c1 ==> #[trigger] twiddles@[yy]@[ii] == ii * yy,
        decreases c2 - y,
    {
        let mut col: Vec<usize> = Vec::new();
        let mut ii: usize = 0;
        while ii < c1
            invariant
                1 <= c1,
                1 <= c2,
                c1 * c2 == n,
                y < c2,
                ii <= c1,
                col@.len() == ii,
                forall|kk: int| 0 <= kk < ii ==> #[trigger] col@[kk] == kk * (y as int),
            decreases c1 - ii,
        {
            proof {
                assert(ii * y < n) by (nonlinear_arith)
                    requires
                        c1 * c2 == n,
                        0 <= ii < c1,
                        0 <= y < c2,
                ;
            }
            col.push(ii * y);
            ii = ii + 1;
        }
        twiddles.push(col);
        y = y + 1;
    }
    let mut combine: Vec<(usize, usize)> = Vec::new();
    let mut k: usize = 0;
    while k < n
        invariant
            1 <= c2,
            k <= n,
            combine@.len() == k,
            forall|kk: int| 0 <= kk < k ==> (#[trigger] combine@[kk]).0 == kk % (c2 as int),
            forall|kk: int| 0 <= kk < k ==> (#[trigger] combine@[kk]).1 == kk / (c2 as int),
        decreases n - k,
    {
        combine.push((k % c2, k / c2));
        k = k + 1;
    }
    let p = MixedPlan { n, c1, c2, rows, twiddles, combine };
    proof {
        assert forall|k1: int, k2: int|
            0 <= k1 < k2 < p.n implies (#[trigger] p.combine@[k1]) != (#[trigger] p.combine@[k2]) by {
            if p.combine@[k1] == p.combine@[k2] {
                vstd::arithmetic::div_mod::lemma_fundamental_div_mod(k1, c2 as int);
                vstd::arithmetic::div_mod::lemma_fundamental_div_mod(k2, c2 as int);
            }
        }
    }
    p
}

/// Build the square mixed-radix plan the generator uses for an odd perfect
/// square: both factors are the square root.
pub fn mixed_square_plan(n: usize) -> (p: MixedPlan)
    requires
        2 <= n,
        spec_fft_type(n as int) == FFTType::Mixed,
    ensures
        p.n == n,
        p.c1 == spec_isqrt(n as nat),
        p.c2 == spec_isqrt(n as nat),
        spec_mixed_plan_wf(p),
{
    let c: usize = isqrt(n);
    proof {
        assert(spec_odd_square(n as int));
        assert(c * c == n) by (nonlinear_arith)
            requires
                c == spec_isqrt(n as nat),
                spec_isqrt(n as nat) * spec_isqrt(n as nat) == n,
        ;
    }
    mixed_plan(n, c, c)
}


proof fn lemma_mixed_distribute(c1: int, c2: int, i: int, j: int, k: int, k1: int, k2: int, n: int)
    requires
        n == c1 * c2,
        k == c2 * k1 + k2,
    ensures
        (i + j * c1) * k == c2 * (i * k1) + i * k2 + n * (j * k1) + c1 * (j * k2),
{
    assert((i + j * c1) * k == i * k + (j * c1) * k) by (nonlinear_arith);
    assert(i * k == i * (c2 * k1) + i * k2) by (nonlinear_arith)
        requires
            k == c2 * k1 + k2,
    ;
    assert((j * c1) * k == (j * c1) * (c2 * k1) + (j * c1) * k2) by (nonlinear_arith)
        requires
            k == c2 * k1 + k2,
    ;
    assert(i * (c2 * k1) == c2 * (i * k1)) by (nonlinear_arith);
    assert((j * c1) * (c2 * k1) == n * (j * k1)) by (nonlinear_arith)
        requires
            n == c1 * c2,
    ;
    assert((j * c1) * k2 == c1 * (j * k2)) by (nonlinear_arith);
}

/// The exponent algebra of the mixed-radix split: with output
/// `k = c2*(k/c2) + (k mod c2)` drawn from column `k mod c2` at element
/// `k / c2`, the input fed through `i + j*c1` carries exactly the row
/// exponent `j*(k mod c2) mod c2` (scaled by `c1`), the interior twiddle
/// exponent `i*(k mod c2)` from the table, and the column exponent
/// `i*(k/c2) mod c1` (scaled by `c2`).
pub proof fn lemma_mixed_radix_exponent(c1: int, c2: int, i: int, j: int, k: int)
    requires
        1 <= c1,
        1 <= c2,
        0 <= i,
        0 <= j,
        0 <= k,
    ensures
        ((i + j * c1) * k) % (c1 * c2) == (c2 * ((i * (k / c2)) % c1) + i * (k % c2) + c1 * ((j * (
        k % c2)) % c2)) % (c1 * c2),
{
    let n = c1 * c2;
    assert(0 < n) by (nonlinear_arith)
        requires
            n == c1 * c2,
            1 <= c1,
            1 <= c2,
    ;
    vstd::arithmetic::div_mod::lemma_fundamental_div_mod(k, c2);
    let k1 = k / c2;
    let k2 = k % c2;
    vstd::arithmetic::div_mod::lemma_fundamental_div_mod(i * k1, c1);
    vstd::arithmetic::div_mod::lemma_fundamental_div_mod(j * k2, c2);
    let a = (i * k1) / c1;
    let b = (j * k2) / c2;
    assert(c2 * (i * k1) == n * a + c2 * ((i * k1) % c1)) by (nonlinear_arith)
        requires
            n == c1 * c2,
            i * k1 == c1 * a + (i * k1) % c1,
    ;
    assert(c1 * (j * k2) == n * b + c1 * ((j * k2) % c2)) by (nonlinear_arith)
        requires
            n == c1 * c2,
            j * k2 == c2 * b + (j * k2) % c2,
    ;
    lemma_mixed_distribute(c1, c2, i, j, k, k1, k2, n);
    assert(n * (a + b + j * k1) == n * a + n * b + n * (j * k1)) by (nonlinear_arith);
    assert((i + j * c1) * k == n * (a + b + j * k1) + (c2 * ((i * k1) % c1) + i * k2 + c1 * ((j
        * k2) % c2)));
    vstd::arithmetic::div_mod::lemma_mod_multiples_vanish(
        a + b + j * k1,
        c2 * ((i * k1) % c1) + i * k2 + c1 * ((j * k2) % c2),
        n,
    );
}

} // verus!
