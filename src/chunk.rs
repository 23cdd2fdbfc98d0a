//! Chunk framing: type tags, errors and alignment padding.

use vstd::prelude::*;

verus! {

/// Type tag of a quantized embedding matrix chunk.
pub const QUANTIZED_ARRAY_CHUNK: u32 = 4;

/// Element type tag of unsigned bytes.
pub const U8_TYPE: u32 = 1;

/// Element type tag of 32-bit floats.
pub const F32_TYPE: u32 = 10;

/// Why a chunk could not be decoded.
#[derive(Clone, Copy, Debug, PartialEq, Eq, Structural)]
pub enum ChunkError {
    /// The data ends before the chunk does.
    UnexpectedEnd,
    /// A type tag differs from the one that this reader supports.
    TypeMismatch { expected: u32, found: u32 },
    /// The dimensions are inconsistent with each other.
    Shape,
}

/// Zero bytes needed after offset `pos` to reach a multiple of `width`.
pub open spec fn padding_for(width: int, pos: int) -> int {
    (width - pos % width) % width
}

/// Number of padding bytes that align offset `pos` to `width` bytes.
pub fn padding(width: u64, pos: u64) -> (r: u64)
    requires
        width > 0,
    ensures
        r == padding_for(width as int, pos as int),
        r < width,
{
    (width - pos % width) % width
}

} // verus!
