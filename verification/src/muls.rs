//! The multiply variants, from the naive triple loop to the bit-packed
//! popcount pipeline.  Each is proved against the same reference:
//! `crate::model::is_product`.

pub mod mm1;
pub mod mm2;
pub mod mm3;
pub mod mm4;
pub mod mm6;
pub mod mm9;
