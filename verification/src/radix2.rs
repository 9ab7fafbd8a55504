//! Plan for the radix-2 split of an even size: the even/odd decimation of
//! the input and the half-size recombination.
//!
//! A kernel built from this plan transforms the even-indexed and the
//! odd-indexed halves with the half-size kernel, scales element `j` of the
//! odd half by the twiddle with exponent `j` over length `n`, and emits
//! `even[j] + t[j]` followed by `even[j] - t[j]`.

use vstd::prelude::*;

verus! {

pub struct Radix2Plan {
    /// The transform size.
    pub n: usize,
    /// Half the transform size: the size of the two recursive calls.
    pub half: usize,
    /// Input indices fed to the even-half kernel: `0, 2, 4, ...`.
    pub even: Vec<usize>,
    /// Input indices fed to the odd-half kernel: `1, 3, 5, ...`.
    pub odd: Vec<usize>,
}

/// Build the radix-2 plan for an even size `n`.
pub fn radix2_plan(n: usize) -> (p: Radix2Plan)
    requires
        2 <= n,
        n % 2 == 0,
    ensures
        p.n == n,
        p.half == n / 2,
        p.even@.len() == n / 2,
        p.odd@.len() == n / 2,
        forall|j: int| 0 <= j < n / 2 ==> #[trigger] p.even@[j] == 2 * j,
        forall|j: int| 0 <= j < n / 2 ==> #[trigger] p.odd@[j] == 2 * j + 1,
{
    let half: usize = n / 2;
    let mut even: Vec<usize> = Vec::new();
    let mut odd: Vec<usize> = Vec::new();
    let mut j: usize = 0;
    while j < half
        invariant
            j <= half,
            half == n / 2,
            n % 2 == 0,
            2 <= n,
            even@.len() == j,
            odd@.len() == j,
            forall|jj: int| 0 <= jj < j ==> #[trigger] even@[jj] == 2 * jj,
            forall|jj: int| 0 <= jj < j ==> #[trigger] odd@[jj] == 2 * jj + 1,
        decreases half - j,
    {
        even.push(2 * j);
        odd.push(2 * j + 1);
        j = j + 1;
    }
    Radix2Plan { n, half, even, odd }
}

/// Shifting the output index by half the size leaves an even input's
/// exponent unchanged modulo `n`: both butterfly outputs read the even
/// half with the same twiddle.
pub proof fn lemma_radix2_even_exponent(n: int, m: int, j: int)
    requires
        2 <= n,
        n % 2 == 0,
    ensures
        ((2 * m) * (j + n / 2)) % n == ((2 * m) * j) % n,
{
    assert((2 * m) * (j + n / 2) == n * m + (2 * m) * j) by (nonlinear_arith)
        requires
            n == 2 * (n / 2),
    ;
    vstd::arithmetic::div_mod::lemma_mod_multiples_vanish(m, (2 * m) * j, n);
}

/// Shifting the output index by half the size advances an odd input's
/// exponent by half a turn: the upper butterfly output subtracts the
/// twiddled odd half that the lower output adds.
pub proof fn lemma_radix2_odd_exponent(n: int, m: int, j: int)
    requires
        2 <= n,
        n % 2 == 0,
    ensures
        ((2 * m + 1) * (j + n / 2)) % n == ((2 * m + 1) * j + n / 2) % n,
{
    assert((2 * m + 1) * (j + n / 2) == n * m + ((2 * m + 1) * j + n / 2)) by (nonlinear_arith)
        requires
            n == 2 * (n / 2),
    ;
    vstd::arithmetic::div_mod::lemma_mod_multiples_vanish(m, (2 * m + 1) * j + n / 2, n);
}

/// An even input's exponent over length `n` is its half-index exponent
/// over length `n/2`, doubled: the two decimated halves really are
/// half-size transforms.
pub proof fn lemma_radix2_half_exponent(n: int, m: int, j: int)
    requires
        2 <= n,
        n % 2 == 0,
        0 <= m,
        0 <= j,
    ensures
        ((2 * m) * j) % n == 2 * ((m * j) % (n / 2)),
{
    let h = n / 2;
    vstd::arithmetic::div_mod::lemma_fundamental_div_mod(m * j, h);
    vstd::arithmetic::div_mod::lemma_mod_bound(m * j, h);
    assert(m * j >= 0) by (nonlinear_arith)
        requires
            0 <= m,
            0 <= j,
    ;
    assert((2 * m) * j == n * ((m * j) / h) + 2 * ((m * j) % h)) by (nonlinear_arith)
        requires
            n == 2 * h,
            m * j == h * ((m * j) / h) + (m * j) % h,
    ;
    vstd::arithmetic::div_mod::lemma_mod_multiples_vanish((m * j) / h, 2 * ((m * j) % h), n);
    vstd::arithmetic::div_mod::lemma_small_mod((2 * ((m * j) % h)) as nat, n as nat);
}

} // verus!
