//! The size sets the generator covers: the mechanically generated sizes,
//! the hand-tuned sizes with their fixed splits, and a verified check that
//! every size of the covered range decomposes into strictly smaller,
//! supported factors all the way down.

use vstd::prelude::*;

verus! {

use crate::arith::{isqrt, lemma_isqrt_bounds, spec_isqrt};
use crate::classify::{FFTType, compute_coprimes, spec_fft_type, spec_split_v1};

/// The sizes whose kernels are written by hand rather than emitted.
pub open spec fn spec_hand_size(n: int) -> bool {
    n == 3 || n == 9 || n == 18 || n == 27 || n == 125
}

/// Whether the kernel for `n` is hand-written.
pub fn is_hand_size(n: usize) -> (b: bool)
    ensures
        b == spec_hand_size(n as int),
{
    n == 3 || n == 9 || n == 18 || n == 27 || n == 125
}

/// The split each hand-written kernel is built on: rows of the second
/// factor's size, columns of the first, with a full twiddle table (the
/// rectangular mixed-radix scheme). The size-3 kernel uses the direct
/// prime form instead and has no split.
pub open spec fn spec_hand_split(n: int) -> Option<(usize, usize)> {
    if n == 9 {
        Some((3usize, 3usize))
    } else if n == 18 {
        Some((3usize, 6usize))
    } else if n == 27 {
        Some((3usize, 9usize))
    } else if n == 125 {
        Some((5usize, 25usize))
    } else {
        None
    }
}

/// The split of a hand-written kernel, if `n` is hand-written and composite.
pub fn hand_split(n: usize) -> (r: Option<(usize, usize)>)
    ensures
        r == spec_hand_split(n as int),
{
    if n == 9 {
        Some((3, 3))
    } else if n == 18 {
        Some((3, 6))
    } else if n == 27 {
        Some((3, 9))
    } else if n == 125 {
        Some((5, 25))
    } else {
        None
    }
}

/// The mechanically generated sizes up to `m`: every size from 2 on that is
/// not hand-written.
pub open spec fn spec_generated_sizes(m: int) -> Seq<usize>
    decreases m,
{
    if m < 2 {
        Seq::empty()
    } else if spec_hand_size(m) {
        spec_generated_sizes(m - 1)
    } else {
        spec_generated_sizes(m - 1).push(m as usize)
    }
}

/// The list of sizes the generator emits mechanically, in ascending order:
/// the covered range without the hand-written sizes.
pub fn generated_sizes() -> (r: Vec<usize>)
    ensures
        r@ == spec_generated_sizes(140),
{
    let mut v: Vec<usize> = Vec::new();
    let mut m: usize = 2;
    while m <= 140
        invariant
            2 <= m <= 141,
            v@ == spec_generated_sizes(m - 1),
        decreases 141 - m,
    {
        if !is_hand_size(m) {
            v.push(m);
        }
        m = m + 1;
    }
    v
}

/// Every size a kernel exists for, in ascending order: the generated sizes
/// and the hand-written ones together, `2 ..= 140`. The dispatcher adds the
/// identity at size 1.
pub fn all_sizes() -> (r: Vec<usize>)
    ensures
        r@.len() == 139,
        forall|i: int| 0 <= i < 139 ==> #[trigger] r@[i] == i + 2,
{
    let mut v: Vec<usize> = Vec::new();
    let mut m: usize = 2;
    while m <= 140
        invariant
            2 <= m <= 141,
            v@.len() == m - 2,
            forall|i: int| 0 <= i < m - 2 ==> #[trigger] v@[i] == i + 2,
        decreases 141 - m,
    {
        v.push(m);
        m = m + 1;
    }
    v
}

/// Whether size `n` is supported: its decomposition, chosen by the
/// classifier (or fixed by hand), bottoms out in supported factors, each
/// strictly smaller. Sizes 1 and 3 and the prime form are the leaves.
pub open spec fn spec_supported(n: int) -> bool
    decreases n,
{
    if n <= 0 {
        false
    } else if n == 1 || n == 3 {
        true
    } else if n == 9 {
        spec_supported(3)
    } else if n == 18 {
        spec_supported(6) && spec_supported(3)
    } else if n == 27 {
        spec_supported(9) && spec_supported(3)
    } else if n == 125 {
        spec_supported(25) && spec_supported(5)
    } else if spec_fft_type(n) == FFTType::PowerOfTwo {
        spec_supported(n / 2)
    } else if spec_fft_type(n) == FFTType::Mixed {
        1 <= spec_isqrt(n as nat) < n && spec_supported(spec_isqrt(n as nat) as int)
    } else if spec_fft_type(n) == FFTType::Coprime {
        let c1 = spec_split_v1(n);
        let c2 = n / c1;
        1 <= c1 < n && 1 <= c2 < n && spec_supported(c1) && spec_supported(c2)
    } else {
        true
    }
}

/// Walk the sizes from 1 to `limit` and check that each decomposes into
/// factors already checked: the generator can emit kernels in ascending
/// order and every referenced factor exists by the time it is referenced.
pub fn check_supported_range(limit: usize) -> (b: bool)
    requires
        limit <= 65535,
    ensures
        b ==> forall|n: int| 1 <= n <= limit ==> spec_supported(n),
{
    let mut flags: Vec<bool> = Vec::new();
    flags.push(false);
    if limit == 0 {
        return true;
    }
    flags.push(true);
    let mut n: usize = 2;
    while n <= limit
        invariant
            2 <= n <= limit + 1,
            limit <= 65535,
            flags@.len() == n,
            forall|m: int| 1 <= m < n ==> #[trigger] flags@[m] == true,
            forall|m: int| 1 <= m < n ==> spec_supported(m),
        decreases limit + 1 - n,
    {
        let ok: bool = if n == 3 {
            true
        } else if n == 9 {
            flags[3]
        } else if n == 18 {
            flags[6] && flags[3]
        } else if n == 27 {
            flags[9] && flags[3]
        } else if n == 125 {
            flags[25] && flags[5]
        } else {
            let t: FFTType = FFTType::compute_type(n);
            match t {
                FFTType::PowerOfTwo => flags[n / 2],
                FFTType::Mixed => {
                    let c: usize = isqrt(n);
                    proof {
                        lemma_isqrt_bounds(n as nat);
                        assert(1 <= c < n) by (nonlinear_arith)
                            requires
                                c == spec_isqrt(n as nat),
                                c * c <= n,
                                n < (c + 1) * (c + 1),
                                2 <= n,
                        ;
                    }
                    flags[c]
                },
                FFTType::Coprime => {
                    let split: (usize, usize) = compute_coprimes(n);
                    proof {
                        assert(split.0 >= 2);
                        assert(split.1 < n && split.1 * split.0 == n) by (nonlinear_arith)
                            requires
                                split.0 >= 2,
                                split.1 >= 1,
                                split.0 * split.1 == n,
                        ;
                        vstd::arithmetic::div_mod::lemma_fundamental_div_mod_converse(
                            n as int,
                            split.0 as int,
                            split.1 as int,
                            0,
                        );
                    }
                    flags[split.0] && flags[split.1]
                },
                FFTType::Prime => true,
            }
        };
        if !ok {
            return false;
        }
        proof {
            if n == 9 {
                assert(spec_supported(3));
            } else if n == 18 {
                assert(spec_supported(6) && spec_supported(3));
            } else if n == 27 {
                assert(spec_supported(9) && spec_supported(3));
            } else if n == 125 {
                assert(spec_supported(25) && spec_supported(5));
            } else if n != 3 {
                if spec_fft_type(n as int) == FFTType::PowerOfTwo {
                    assert(spec_supported(n as int / 2));
                } else if spec_fft_type(n as int) == FFTType::Mixed {
                    assert(spec_supported(spec_isqrt(n as nat) as int));
                } else if spec_fft_type(n as int) == FFTType::Coprime {
                    let c1 = spec_split_v1(n as int);
                    let c2 = n as int / c1;
                    assert(spec_supported(c1) && spec_supported(c2));
                }
            }
            assert(spec_supported(n as int));
        }
        flags.push(true);
        n = n + 1;
    }
    true
}

} // verus!
