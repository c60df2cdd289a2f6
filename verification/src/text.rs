//! Conversion from raw bytes to text, specified against vstd's UTF-8 model.

use vstd::prelude::*;
use vstd::utf8::{
    decode_utf8, encode_utf8, encode_utf8_decode_utf8, encode_utf8_valid_utf8, is_ascii_chars,
    is_ascii_chars_encode_utf8, valid_utf8,
};

verus! {

/// Relies on `String::from_utf8`: it returns `Ok` exactly on valid UTF-8
/// input, and the returned string's characters are the decoding of the bytes.
#[verifier::external_body]
pub(crate) fn bytes_to_string(bytes: &Vec<u8>) -> (r: Option<String>)
    ensures
        match r {
            Some(s) => valid_utf8(bytes@) && s@ == decode_utf8(bytes@),
            None => !valid_utf8(bytes@),
        },
{
    String::from_utf8(bytes.clone()).ok()
}

/// A sequence of ASCII bytes is valid UTF-8 and decodes to the characters
/// with the same values, one per byte.
pub proof fn lemma_ascii_bytes_decode(bytes: Seq<u8>)
    requires
        forall|i: int| 0 <= i < bytes.len() ==> bytes[i] < 0x80,
    ensures
        valid_utf8(bytes),
        decode_utf8(bytes).len() == bytes.len(),
        forall|i: int| 0 <= i < bytes.len() ==> #[trigger] decode_utf8(bytes)[i] as u8 == bytes[i],
{
    let chars = Seq::new(bytes.len(), |i: int| bytes[i] as char);
    assert(is_ascii_chars(chars)) by {
        assert forall|i: int| 0 <= i < chars.len() implies (#[trigger] chars[i]) as u32
            <= 0x7f by {
            assert(bytes[i] < 0x80);
            assert(chars[i] == bytes[i] as char);
            assert(bytes[i] as char as u32 == bytes[i] as u32);
        }
    }
    is_ascii_chars_encode_utf8(chars);
    assert(encode_utf8(chars) =~= bytes) by {
        assert forall|i: int| 0 <= i < bytes.len() implies #[trigger] encode_utf8(chars)[i]
            == bytes[i] by {
            assert(encode_utf8(chars)[i] == chars[i] as u8);
            assert(bytes[i] as char as u8 == bytes[i]);
        }
    }
    encode_utf8_valid_utf8(chars);
    encode_utf8_decode_utf8(chars);
    assert forall|i: int| 0 <= i < bytes.len() implies #[trigger] decode_utf8(bytes)[i] as u8
        == bytes[i] by {
        assert(decode_utf8(bytes)[i] == chars[i]);
        assert(bytes[i] as char as u8 == bytes[i]);
    }
}

} // verus!
