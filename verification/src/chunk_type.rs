//! The 4-byte chunk type code. Every byte must be an ASCII letter; the letter
//! case at each fixed position encodes one metadata bit.

use crate::errors::ChunkError;
use vstd::prelude::*;
use vstd::utf8::{decode_utf8, encode_utf8, valid_utf8};

verus! {

/// True of a byte that is an ASCII letter.
pub open spec fn spec_is_ascii_alphabetic(b: u8) -> bool {
    (65 <= b <= 90) || (97 <= b <= 122)
}

/// True of a byte that is an ASCII uppercase letter.
pub open spec fn spec_is_ascii_uppercase(b: u8) -> bool {
    65 <= b <= 90
}

/// True of the 4 bytes that type-code construction accepts: all ASCII letters.
pub open spec fn spec_type_bytes_valid(s: Seq<u8>) -> bool {
    s.len() == 4 && (forall|i: int| 0 <= i < 4 ==> spec_is_ascii_alphabetic(#[trigger] s[i]))
}

/// True of a type code whose reserved bit is valid: byte 2 is uppercase.
pub open spec fn spec_type_is_valid(s: Seq<u8>) -> bool {
    spec_type_bytes_valid(s) && spec_is_ascii_uppercase(s[2])
}

/// A 4-byte chunk type code. Construction enforces that every byte is an
/// ASCII letter; the bytes never change afterwards. Case encodes metadata:
/// critical (byte 0 uppercase), public (byte 1 uppercase), reserved bit valid
/// (byte 2 uppercase), safe to copy (byte 3 lowercase).
#[derive(Debug, PartialEq, Eq)]
pub struct ChunkType {
    b: [u8; 4],
}

impl View for ChunkType {
    type V = Seq<u8>;

    closed spec fn view(&self) -> Seq<u8> {
        self.b@
    }
}

/// Tests whether one byte is an ASCII letter.
fn is_alphabetic_byte(b: u8) -> (r: bool)
    ensures
        r == spec_is_ascii_alphabetic(b),
{
    (65 <= b && b <= 90) || (97 <= b && b <= 122)
}

impl ChunkType {
    /// Holds of every constructed type code: exactly 4 bytes, all ASCII
    /// letters.
    #[verifier::type_invariant]
    pub open spec fn wf(self) -> bool {
        spec_type_bytes_valid(self@)
    }

    /// The raw 4 bytes of the type code.
    pub fn bytes(&self) -> (r: [u8; 4])
        ensures
            r@ == self@,
    {
        self.b
    }

    /// Tests whether 4 bytes may form a type code: every byte an ASCII letter.
    fn is_bytes_valid(bytes: [u8; 4]) -> (r: bool)
        ensures
            r == spec_type_bytes_valid(bytes@),
    {
        let r = is_alphabetic_byte(bytes[0]) && is_alphabetic_byte(bytes[1]) && is_alphabetic_byte(
            bytes[2],
        ) && is_alphabetic_byte(bytes[3]);
        assert(r == spec_type_bytes_valid(bytes@)) by {
            assert(bytes@.len() == 4);
            assert(bytes@[0] == bytes[0] && bytes@[1] == bytes[1] && bytes@[2] == bytes[2]
                && bytes@[3] == bytes[3]);
        }
        r
    }

    /// Builds a type code from 4 raw bytes; rejects any byte that is not an
    /// ASCII letter.
    pub fn try_from(bytes: [u8; 4]) -> (r: Result<ChunkType, ChunkError>)
        ensures
            match r {
                Ok(ct) => spec_type_bytes_valid(bytes@) && ct@ == bytes@,
                Err(e) => !spec_type_bytes_valid(bytes@) && e == ChunkError::InvalidEncoding,
            },
    {
        if !ChunkType::is_bytes_valid(bytes) {
            return Err(ChunkError::InvalidEncoding);
        }
        Ok(ChunkType { b: bytes })
    }

    /// Builds a type code from text; rejects anything but exactly 4 ASCII
    /// letters.
    pub fn from_str(s: &str) -> (r: Result<ChunkType, ChunkError>)
        ensures
            match r {
                Ok(ct) => spec_type_bytes_valid(encode_utf8(s@)) && ct@ == encode_utf8(s@),
                Err(e) => !spec_type_bytes_valid(encode_utf8(s@)) && e
                    == ChunkError::InvalidEncoding,
            },
    {
        let b: &[u8] = s.as_bytes();
        if b.len() != 4 {
            return Err(ChunkError::InvalidEncoding);
        }
        let arr: [u8; 4] = [b[0], b[1], b[2], b[3]];
        assert(arr@ =~= encode_utf8(s@));
        ChunkType::try_from(arr)
    }

    /// Tests whether the byte at `byte_position` (0 to 3) is uppercase.
    pub fn is_byte_uppercase_char(&self, byte_position: usize) -> (r: bool)
        requires
            byte_position < 4,
        ensures
            r == spec_is_ascii_uppercase(self@[byte_position as int]),
    {
        let byte = self.b[byte_position];
        65 <= byte && byte <= 90
    }

    /// Critical chunks carry an uppercase byte 0.
    pub fn is_critical(&self) -> (r: bool)
        ensures
            r == spec_is_ascii_uppercase(self@[0]),
    {
        self.is_byte_uppercase_char(0)
    }

    /// Public chunks carry an uppercase byte 1.
    pub fn is_public(&self) -> (r: bool)
        ensures
            r == spec_is_ascii_uppercase(self@[1]),
    {
        self.is_byte_uppercase_char(1)
    }

    /// The reserved bit is valid when byte 2 is uppercase.
    pub fn is_reserved_bit_valid(&self) -> (r: bool)
        ensures
            r == spec_is_ascii_uppercase(self@[2]),
    {
        self.is_byte_uppercase_char(2)
    }

    /// Safe-to-copy chunks carry a lowercase byte 3.
    pub fn is_safe_to_copy(&self) -> (r: bool)
        ensures
            r == !spec_is_ascii_uppercase(self@[3]),
    {
        !self.is_byte_uppercase_char(3)
    }

    /// A type code is valid when its reserved bit is valid and every byte is
    /// an ASCII letter; the other three metadata bits are informational only.
    pub fn is_valid(&self) -> (r: bool)
        ensures
            r == spec_type_is_valid(self@),
    {
        self.is_reserved_bit_valid() && ChunkType::is_bytes_valid(self.bytes())
    }

    /// The type code as text: one character per byte, always representable
    /// since every byte is an ASCII letter.
    pub fn as_string(&self) -> (r: String)
        ensures
            valid_utf8(self@),
            r@ == decode_utf8(self@),
            r@.len() == 4,
            forall|i: int| 0 <= i < 4 ==> #[trigger] r@[i] as u8 == self@[i],
    {
        proof {
            use_type_invariant(&*self);
        }
        let mut bytes: Vec<u8> = Vec::new();
        bytes.push(self.b[0]);
        bytes.push(self.b[1]);
        bytes.push(self.b[2]);
        bytes.push(self.b[3]);
        proof {
            assert(bytes@ =~= self@);
            crate::text::lemma_ascii_bytes_decode(bytes@);
        }
        match crate::text::bytes_to_string(&bytes) {
            Some(s) => s,
            None => vstd::pervasive::unreached(),
        }
    }
}

} // verus!
