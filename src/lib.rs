//! Product-quantized embedding matrices and their binary chunk format.
//!
//! Floating-point values are carried through this library as their IEEE-754
//! bit patterns (`u32`), so that the format can be stated and checked
//! byte for byte.

pub mod bytes;
pub mod chunk;
pub mod codec;
pub mod quantized;
