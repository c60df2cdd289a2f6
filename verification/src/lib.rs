//! A codec for the PNG container format: an 8-byte signature followed by an
//! ordered sequence of length-prefixed, typed, checksummed chunks.
//!
//! The library decodes a byte buffer into chunks, validates each chunk's type
//! code and checksum, supports lookup, append and removal by 4-byte type code,
//! and re-encodes the container byte for byte.

pub mod be_bytes;
pub mod checksum;
pub mod chunk;
pub mod chunk_type;
pub mod errors;
pub mod png;
pub mod text;
