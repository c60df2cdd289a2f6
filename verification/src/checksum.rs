//! The 32-bit checksum that guards each chunk: CRC-32/ISO-HDLC over the
//! chunk's type bytes followed by its data bytes.

use vstd::prelude::*;

verus! {

/// The CRC-32/ISO-HDLC checksum of a byte sequence. The checksum is a fixed
/// function of the bytes alone; its value is pinned only by `crc32_checksum`.
pub uninterp spec fn crc32_of(bytes: Seq<u8>) -> u32;

/// Relies on `crc::Crc::<u32>::checksum` with the `CRC_32_ISO_HDLC` algorithm
/// from the crc crate: the checksum is computed from a lookup table that is a
/// constant of the fixed algorithm, so it depends on the input bytes alone.
#[verifier::external_body]
pub(crate) fn crc32_checksum(bytes: &[u8]) -> (r: u32)
    ensures
        r == crc32_of(bytes@),
{
    crc::Crc::<u32>::new(&crc::CRC_32_ISO_HDLC).checksum(bytes)
}

} // verus!
