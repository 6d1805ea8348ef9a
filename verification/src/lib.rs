//! Cache-blocked multiplication of square matrices over the ternary
//! alphabet {-1, 0, 1}, with 8-bit wraparound accumulation.
//!
//! The crate offers one evolutionary family of multiply routines: a naive
//! triple loop, tiled variants that stage panels of the operands in
//! contiguous scratch buffers for a fixed-width micro-kernel, a variant that
//! packs both operands up front, and a bit-packed variant that encodes each
//! ternary element as a (value, sign) bit pair and recovers dot products
//! with per-byte population counts.  Every variant is proved to return the
//! same matrix: the naive column-major product under wraparound 8-bit
//! arithmetic.

pub mod bits;
pub mod dots;
pub mod kernel;
pub mod model;
pub mod muls;
