//! A verified engine for a chunk-based binary image container format.
//!
//! A container is a fixed 8-byte signature followed by a sequence of
//! length-prefixed, checksummed chunks.  This crate parses a byte stream
//! into typed chunks, validates structural and checksum invariants, and
//! re-serializes the (possibly mutated) chunk sequence byte-exactly.

mod chunk_type;
mod chunk;
mod png;

pub use chunk_type::ChunkType;
pub use chunk::{Chunk, ChunkError, chunk_from_strings};
pub use png::Png;

use vstd::prelude::*;

verus! {

/// All four bytes of a chunk type code must pass this test for the code to
/// be valid: ASCII upper- or lower-case letters only.
pub open spec fn is_ascii_alpha(b: u8) -> bool {
    (65 <= b && b <= 90) || (97 <= b && b <= 122)
}

} // verus!
