//! Build-time planning logic for a library of fully-unrolled, fixed-size
//! DFT kernels over complex samples.
//!
//! For every supported size the final executable holds one straight-line
//! kernel. The kernels themselves are floating-point code emitted at build
//! time; everything that decides *what* they compute is integer logic and
//! lives here, verified:
//!
//! - [`classify`] picks the decomposition strategy for a size (power of two,
//!   odd square, coprime split, or direct prime form) and finds the coprime
//!   split itself;
//! - [`radix2`], [`coprime`], [`mixed`] and [`prime`] build the per-size
//!   kernel plans: the input index maps, twiddle exponent tables and output
//!   re-orderings that an emitter unrolls into straight-line code;
//! - [`sizes`] fixes the generated size set, the hand-tuned sizes and their
//!   splits, and proves that every size in the supported range decomposes
//!   into supported factors.

pub mod arith;
pub mod classify;
pub mod coprime;
pub mod mixed;
pub mod prime;
pub mod radix2;
pub mod sizes;
