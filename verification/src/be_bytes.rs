//! Big-endian 4-byte encoding of 32-bit values, used for a chunk's length
//! prefix and its trailing checksum field.

use vstd::prelude::*;

verus! {

/// The big-endian 4-byte encoding of a 32-bit value.
pub open spec fn spec_u32_to_be_bytes(x: u32) -> Seq<u8> {
    seq![
        ((x >> 24) & 0xff) as u8,
        ((x >> 16) & 0xff) as u8,
        ((x >> 8) & 0xff) as u8,
        (x & 0xff) as u8,
    ]
}

/// The 32-bit value stored big-endian in a 4-byte sequence.
pub open spec fn spec_u32_from_be_bytes(s: Seq<u8>) -> u32
    recommends
        s.len() == 4,
{
    ((s[0] as u32) << 24) | ((s[1] as u32) << 16) | ((s[2] as u32) << 8) | (s[3] as u32)
}

/// Reading back the 4 bytes written for a value yields that value.
pub proof fn lemma_u32_from_to_be_bytes(x: u32)
    ensures
        spec_u32_to_be_bytes(x).len() == 4,
        spec_u32_from_be_bytes(spec_u32_to_be_bytes(x)) == x,
{
    let b0 = ((x >> 24) & 0xff) as u8;
    let b1 = ((x >> 16) & 0xff) as u8;
    let b2 = ((x >> 8) & 0xff) as u8;
    let b3 = (x & 0xff) as u8;
    assert(((((x >> 24) & 0xff) as u8) as u32) << 24 | ((((x >> 16) & 0xff) as u8) as u32) << 16
        | ((((x >> 8) & 0xff) as u8) as u32) << 8 | (((x & 0xff) as u8) as u32) == x)
        by (bit_vector);
    assert(spec_u32_from_be_bytes(spec_u32_to_be_bytes(x)) == ((b0 as u32) << 24) | ((b1
        as u32) << 16) | ((b2 as u32) << 8) | (b3 as u32));
}

/// Writing the value read from 4 bytes yields those bytes again.
pub proof fn lemma_u32_to_from_be_bytes(s: Seq<u8>)
    requires
        s.len() == 4,
    ensures
        spec_u32_to_be_bytes(spec_u32_from_be_bytes(s)) =~= s,
{
    let s0 = s[0];
    let s1 = s[1];
    let s2 = s[2];
    let s3 = s[3];
    let x = spec_u32_from_be_bytes(s);
    assert(x == ((s0 as u32) << 24) | ((s1 as u32) << 16) | ((s2 as u32) << 8) | (s3 as u32));
    let y = ((s0 as u32) << 24) | ((s1 as u32) << 16) | ((s2 as u32) << 8) | (s3 as u32);
    assert(((y >> 24) & 0xff) as u8 == s0 && ((y >> 16) & 0xff) as u8 == s1 && ((y >> 8) & 0xff)
        as u8 == s2 && (y & 0xff) as u8 == s3) by (bit_vector)
        requires
            y == ((s0 as u32) << 24) | ((s1 as u32) << 16) | ((s2 as u32) << 8) | (s3 as u32),
    ;
}

/// Reads the 32-bit value stored big-endian in four bytes.
pub fn u32_from_be_bytes(b0: u8, b1: u8, b2: u8, b3: u8) -> (x: u32)
    ensures
        x == spec_u32_from_be_bytes(seq![b0, b1, b2, b3]),
{
    ((b0 as u32) << 24) | ((b1 as u32) << 16) | ((b2 as u32) << 8) | (b3 as u32)
}

/// Appends the big-endian 4-byte encoding of a value to a byte vector.
pub fn push_u32_be_bytes(out: &mut Vec<u8>, x: u32)
    ensures
        final(out)@ == old(out)@ + spec_u32_to_be_bytes(x),
{
    out.push(((x >> 24) & 0xff) as u8);
    out.push(((x >> 16) & 0xff) as u8);
    out.push(((x >> 8) & 0xff) as u8);
    out.push((x & 0xff) as u8);
    assert(out@ =~= old(out)@ + spec_u32_to_be_bytes(x));
}

} // verus!
