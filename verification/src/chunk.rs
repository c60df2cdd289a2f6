//! One container record: a length-prefixed, typed, checksummed chunk.
//!
//! Wire form, all multi-byte integers big-endian: 4-byte data length, 4 type
//! bytes, the data, then a 4-byte CRC-32/ISO-HDLC checksum over the type
//! bytes followed by the data.

use crate::be_bytes::{
    lemma_u32_from_to_be_bytes, push_u32_be_bytes, spec_u32_from_be_bytes, spec_u32_to_be_bytes,
    u32_from_be_bytes,
};
use crate::checksum::{crc32_checksum, crc32_of};
use crate::chunk_type::{
    spec_is_ascii_uppercase, spec_type_bytes_valid, spec_type_is_valid, ChunkType,
};
use crate::errors::ChunkError;
use vstd::prelude::*;
use vstd::slice::{slice_subrange, slice_to_vec};
use vstd::utf8::{decode_utf8, valid_utf8};

verus! {

/// The mathematical content of a chunk: its type bytes and its data bytes.
/// The wire form's length and checksum fields are functions of these.
#[verifier::ext_equal]
pub ghost struct ChunkModel {
    pub type_bytes: Seq<u8>,
    pub data: Seq<u8>,
}

/// True of a model that a constructed chunk can hold: a well-formed type code
/// and a data size that fits the 4-byte length field.
pub open spec fn chunk_model_wf(m: ChunkModel) -> bool {
    spec_type_bytes_valid(m.type_bytes) && m.data.len() <= u32::MAX
}

/// The wire form of a chunk: big-endian length, type bytes, data, big-endian
/// checksum over type bytes followed by data.
pub open spec fn spec_encode_chunk(m: ChunkModel) -> Seq<u8> {
    spec_u32_to_be_bytes(m.data.len() as u32) + m.type_bytes + m.data + spec_u32_to_be_bytes(
        crc32_of(m.type_bytes + m.data),
    )
}

/// Parses the wire form of one chunk. The checks run in a fixed order and the
/// first failure wins: size, type encoding, type validity, declared length,
/// checksum.
pub open spec fn spec_decode_chunk(bytes: Seq<u8>) -> Result<ChunkModel, ChunkError> {
    let n = bytes.len() as int;
    if n < 12 {
        Err(ChunkError::TooShort)
    } else if !spec_type_bytes_valid(bytes.subrange(4, 8)) {
        Err(ChunkError::InvalidEncoding)
    } else if !spec_is_ascii_uppercase(bytes.subrange(4, 8)[2]) {
        Err(ChunkError::InvalidType)
    } else if spec_u32_from_be_bytes(bytes.subrange(0, 4)) != n - 12 {
        Err(ChunkError::LengthMismatch)
    } else if crc32_of(bytes.subrange(4, n - 4)) != spec_u32_from_be_bytes(
        bytes.subrange(n - 4, n),
    ) {
        Err(ChunkError::ChecksumMismatch)
    } else {
        Ok(ChunkModel { type_bytes: bytes.subrange(4, 8), data: bytes.subrange(8, n - 4) })
    }
}

/// One length-prefixed, typed, checksummed record. Immutable once built; the
/// stored checksum always equals the one recomputed from type and data.
#[derive(Debug)]
pub struct Chunk {
    length: u32,
    chunk_type: ChunkType,
    data: Vec<u8>,
    crc: u32,
}

impl View for Chunk {
    type V = ChunkModel;

    closed spec fn view(&self) -> ChunkModel {
        ChunkModel { type_bytes: self.chunk_type@, data: self.data@ }
    }
}

impl Chunk {
    /// The stored length counts the data bytes, and the stored checksum is
    /// the one recomputed over the type bytes followed by the data.
    pub closed spec fn fields_wf(self) -> bool {
        self.length == self.data@.len() && self.crc == crc32_of(self.chunk_type@ + self.data@)
    }

    /// Holds of every constructed chunk: the stored length and checksum agree
    /// with the type and data, which in turn form a well-formed model.
    #[verifier::type_invariant]
    pub open spec fn wf(self) -> bool {
        self.fields_wf() && chunk_model_wf(self@)
    }

    /// Builds a chunk from a type code and data bytes; always succeeds. The
    /// length is the data size and the checksum is computed over the type
    /// bytes followed by the data.
    pub fn new(chunk_type: ChunkType, data: Vec<u8>) -> (c: Chunk)
        requires
            data@.len() <= u32::MAX,
        ensures
            c@ == (ChunkModel { type_bytes: chunk_type@, data: data@ }),
    {
        proof {
            use_type_invariant(&chunk_type);
        }
        let length = data.len() as u32;
        let tb = chunk_type.bytes();
        let mut combined: Vec<u8> = Vec::new();
        combined.push(tb[0]);
        combined.push(tb[1]);
        combined.push(tb[2]);
        combined.push(tb[3]);
        combined.extend_from_slice(data.as_slice());
        assert(combined@ =~= chunk_type@ + data@);
        let checksum = crc32_checksum(combined.as_slice());
        let c = Chunk { length, chunk_type, data, crc: checksum };
        assert(c@ =~= (ChunkModel { type_bytes: c.chunk_type@, data: c.data@ }));
        c
    }

    /// The checksum, recomputed from the current type and data on every call.
    pub fn crc(&self) -> (r: u32)
        ensures
            r == crc32_of(self@.type_bytes + self@.data),
    {
        let tb = self.chunk_type.bytes();
        let mut combined: Vec<u8> = Vec::new();
        combined.push(tb[0]);
        combined.push(tb[1]);
        combined.push(tb[2]);
        combined.push(tb[3]);
        combined.extend_from_slice(self.data.as_slice());
        assert(combined@ =~= self@.type_bytes + self@.data);
        crc32_checksum(combined.as_slice())
    }

    /// The count of data bytes.
    pub fn length(&self) -> (r: u32)
        ensures
            r == self@.data.len(),
    {
        proof {
            use_type_invariant(&*self);
        }
        self.length
    }

    /// The chunk's type code.
    pub fn chunk_type(&self) -> (r: &ChunkType)
        ensures
            r@ == self@.type_bytes,
    {
        &self.chunk_type
    }

    /// The data as text: fails on empty data, and on data that is not UTF-8.
    pub fn data_as_string(&self) -> (r: Result<String, ChunkError>)
        ensures
            self@.data.len() == 0 ==> r == Err::<String, ChunkError>(ChunkError::EmptyData),
            self@.data.len() > 0 && valid_utf8(self@.data) ==> (r matches Ok(s) && s@
                == decode_utf8(self@.data)),
            self@.data.len() > 0 && !valid_utf8(self@.data) ==> r == Err::<String, ChunkError>(
                ChunkError::InvalidEncoding,
            ),
    {
        if self.data.len() == 0 {
            return Err(ChunkError::EmptyData);
        }
        match crate::text::bytes_to_string(&self.data) {
            Some(s) => Ok(s),
            None => Err(ChunkError::InvalidEncoding),
        }
    }

    /// Reads the 4-byte big-endian length prefix at the front of chunk wire
    /// bytes.
    pub fn chunk_data_length(bytes: &[u8]) -> (r: u32)
        requires
            bytes@.len() >= 4,
        ensures
            r == spec_u32_from_be_bytes(bytes@.subrange(0, 4)),
    {
        let r = u32_from_be_bytes(bytes[0], bytes[1], bytes[2], bytes[3]);
        assert(seq![bytes@[0], bytes@[1], bytes@[2], bytes@[3]] =~= bytes@.subrange(0, 4));
        r
    }

    /// Serializes the chunk to its wire form.
    pub fn as_bytes(&self) -> (r: Vec<u8>)
        ensures
            r@ == spec_encode_chunk(self@),
    {
        proof {
            use_type_invariant(&*self);
        }
        let tb = self.chunk_type.bytes();
        let mut out: Vec<u8> = Vec::new();
        push_u32_be_bytes(&mut out, self.length);
        out.push(tb[0]);
        out.push(tb[1]);
        out.push(tb[2]);
        out.push(tb[3]);
        out.extend_from_slice(self.data.as_slice());
        push_u32_be_bytes(&mut out, self.crc);
        assert(out@ =~= spec_encode_chunk(self@));
        out
    }

    /// Parses one chunk from its wire form, checking in order: size, type
    /// encoding, type validity, declared length, checksum.
    pub fn try_from(bytes: &[u8]) -> (r: Result<Chunk, ChunkError>)
        ensures
            match r {
                Ok(c) => spec_decode_chunk(bytes@) == Ok::<ChunkModel, ChunkError>(c@),
                Err(e) => spec_decode_chunk(bytes@) == Err::<ChunkModel, ChunkError>(e),
            },
    {
        let n = bytes.len();
        if n < 12 {
            return Err(ChunkError::TooShort);
        }
        let type_arr: [u8; 4] = [bytes[4], bytes[5], bytes[6], bytes[7]];
        assert(type_arr@ =~= bytes@.subrange(4, 8));
        let chunk_type = match ChunkType::try_from(type_arr) {
            Ok(ct) => ct,
            Err(e) => {
                return Err(e);
            },
        };
        if !chunk_type.is_valid() {
            return Err(ChunkError::InvalidType);
        }
        let length = Chunk::chunk_data_length(bytes);
        if length as usize != n - 12 {
            return Err(ChunkError::LengthMismatch);
        }
        let data: Vec<u8> = slice_to_vec(slice_subrange(bytes, 8, n - 4));
        let computed = crc32_checksum(slice_subrange(bytes, 4, n - 4));
        let stored = u32_from_be_bytes(bytes[n - 4], bytes[n - 3], bytes[n - 2], bytes[n - 1]);
        assert(seq![bytes@[n - 4], bytes@[n - 3], bytes@[n - 2], bytes@[n - 1]] =~= bytes@.subrange(
            n as int - 4,
            n as int,
        ));
        if computed != stored {
            return Err(ChunkError::ChecksumMismatch);
        }
        proof {
            use_type_invariant(&chunk_type);
            assert(bytes@.subrange(4, n as int - 4) =~= bytes@.subrange(4, 8) + bytes@.subrange(
                8,
                n as int - 4,
            ));
        }
        let c = Chunk { length, chunk_type, data, crc: computed };
        proof {
            assert(c@ =~= (ChunkModel {
                type_bytes: bytes@.subrange(4, 8),
                data: bytes@.subrange(8, n as int - 4),
            }));
        }
        Ok(c)
    }
}

/// The subrange structure of a chunk's framed wire form: splitting the frame
/// back into its four fields yields the pieces it was built from.
pub(crate) proof fn lemma_frame_subranges(length_field: u32, type_bytes: Seq<u8>, data: Seq<u8>, crc_field: u32)
    requires
        type_bytes.len() == 4,
    ensures
        ({
            let bytes = spec_u32_to_be_bytes(length_field) + type_bytes + data
                + spec_u32_to_be_bytes(crc_field);
            let n = bytes.len() as int;
            &&& n == 12 + data.len()
            &&& bytes.subrange(0, 4) =~= spec_u32_to_be_bytes(length_field)
            &&& bytes.subrange(4, 8) =~= type_bytes
            &&& bytes.subrange(8, n - 4) =~= data
            &&& bytes.subrange(4, n - 4) =~= type_bytes + data
            &&& bytes.subrange(n - 4, n) =~= spec_u32_to_be_bytes(crc_field)
        }),
{
    lemma_u32_from_to_be_bytes(length_field);
    lemma_u32_from_to_be_bytes(crc_field);
}

/// Round trip: decoding the wire form of any well-formed chunk whose type is
/// valid yields that chunk back, with identical type, data, length and
/// checksum. (A chunk with an invalid reserved bit, such as type bytes that
/// spell a lowercase third letter, encodes fine but is rejected on decode.)
pub proof fn lemma_chunk_round_trip(m: ChunkModel)
    requires
        chunk_model_wf(m),
        spec_type_is_valid(m.type_bytes),
    ensures
        spec_decode_chunk(spec_encode_chunk(m)) == Ok::<ChunkModel, ChunkError>(m),
{
    let len_field = m.data.len() as u32;
    let crc_field = crc32_of(m.type_bytes + m.data);
    let bytes = spec_encode_chunk(m);
    let n = bytes.len() as int;
    lemma_frame_subranges(len_field, m.type_bytes, m.data, crc_field);
    lemma_u32_from_to_be_bytes(len_field);
    lemma_u32_from_to_be_bytes(crc_field);
    assert(spec_u32_from_be_bytes(bytes.subrange(0, 4)) == n - 12);
    assert(crc32_of(bytes.subrange(4, n - 4)) == spec_u32_from_be_bytes(bytes.subrange(n - 4, n)));
    assert(spec_decode_chunk(bytes) matches Ok(m2) && m2 =~= m);
}

/// The other direction of the round trip: re-encoding any successfully
/// decoded chunk reproduces the input bytes exactly.
pub proof fn lemma_chunk_encode_decoded(bytes: Seq<u8>, m: ChunkModel)
    requires
        spec_decode_chunk(bytes) == Ok::<ChunkModel, ChunkError>(m),
    ensures
        spec_encode_chunk(m) == bytes,
{
    let n = bytes.len() as int;
    crate::be_bytes::lemma_u32_to_from_be_bytes(bytes.subrange(0, 4));
    crate::be_bytes::lemma_u32_to_from_be_bytes(bytes.subrange(n - 4, n));
    assert(bytes.subrange(4, n - 4) =~= m.type_bytes + m.data);
    assert(m.data.len() == n - 12);
    assert(spec_u32_to_be_bytes(m.data.len() as u32) =~= bytes.subrange(0, 4));
    assert(spec_u32_to_be_bytes(crc32_of(m.type_bytes + m.data)) =~= bytes.subrange(n - 4, n));
    assert(spec_encode_chunk(m) =~= bytes);
}

/// A stored checksum that differs in any way from the one recomputed over the
/// type and data bytes makes decoding fail with `ChecksumMismatch`, and with
/// no other error.
pub proof fn lemma_checksum_mismatch_detected(m: ChunkModel, stored: u32)
    requires
        chunk_model_wf(m),
        spec_type_is_valid(m.type_bytes),
        stored != crc32_of(m.type_bytes + m.data),
    ensures
        spec_decode_chunk(
            spec_u32_to_be_bytes(m.data.len() as u32) + m.type_bytes + m.data
                + spec_u32_to_be_bytes(stored),
        ) == Err::<ChunkModel, ChunkError>(ChunkError::ChecksumMismatch),
{
    let len_field = m.data.len() as u32;
    let bytes = spec_u32_to_be_bytes(len_field) + m.type_bytes + m.data + spec_u32_to_be_bytes(
        stored,
    );
    let n = bytes.len() as int;
    lemma_frame_subranges(len_field, m.type_bytes, m.data, stored);
    lemma_u32_from_to_be_bytes(len_field);
    lemma_u32_from_to_be_bytes(stored);
    assert(spec_u32_from_be_bytes(bytes.subrange(0, 4)) == n - 12);
    assert(crc32_of(bytes.subrange(4, n - 4)) != spec_u32_from_be_bytes(bytes.subrange(n - 4, n)));
}

} // verus!
