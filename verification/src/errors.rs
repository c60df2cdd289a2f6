//! Error kinds reported by the codec. Every parse-time failure is terminal:
//! no partial or best-effort value is ever returned.

use vstd::prelude::*;

verus! {

/// The ways a chunk, or a chunk type, fails to parse or to convert.
#[derive(Debug, Clone, Copy, PartialEq, Eq)]
pub enum ChunkError {
    /// Fewer bytes than the fixed chunk framing needs.
    TooShort,
    /// A byte that cannot appear in a chunk type, or data that is not UTF-8 text.
    InvalidEncoding,
    /// A chunk type whose reserved bit is not valid.
    InvalidType,
    /// A declared data length that disagrees with the actual data size.
    LengthMismatch,
    /// A stored checksum that disagrees with the one recomputed from the bytes.
    ChecksumMismatch,
    /// A request for text from a chunk that has no data.
    EmptyData,
}

/// The ways a whole container fails to parse or to serve a lookup.
#[derive(Debug, Clone, Copy, PartialEq, Eq)]
pub enum PngError {
    /// Fewer bytes than the fixed 8-byte signature needs.
    TooShort,
    /// A first 8 bytes that differ from the standard signature.
    BadSignature,
    /// A chunk starting at `offset` whose declared span runs past the end of
    /// the buffer.
    TruncatedContainer { offset: usize },
    /// A chunk starting at `offset` that failed to decode.
    BadChunk { offset: usize, error: ChunkError },
    /// A lookup or removal by a type code that no chunk carries.
    NotFound,
}

} // verus!
