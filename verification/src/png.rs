//! The whole-file container: a fixed 8-byte signature followed by an ordered
//! sequence of chunks that consumes the rest of the buffer exactly.

use crate::be_bytes::spec_u32_from_be_bytes;
use crate::checksum::crc32_of;
use crate::chunk::{
    chunk_model_wf, lemma_chunk_round_trip, lemma_frame_subranges, spec_decode_chunk,
    spec_encode_chunk, Chunk, ChunkModel,
};
use crate::chunk_type::{spec_is_ascii_uppercase, spec_type_is_valid, ChunkType};
use crate::errors::{ChunkError, PngError};
use vstd::prelude::*;
use vstd::slice::slice_subrange;
use vstd::string::StringExecFns;
use vstd::utf8::{decode_utf8, encode_utf8, valid_utf8};

verus! {

/// The fixed 8-byte signature that opens every container.
pub open spec fn spec_signature() -> Seq<u8> {
    seq![137u8, 80u8, 78u8, 71u8, 13u8, 10u8, 26u8, 10u8]
}

/// One parsing step: the chunk whose frame starts at `offset`. The 4-byte
/// length prefix is read first; a frame that would run past the end of the
/// buffer is reported as truncation at `offset`, and a frame that fails to
/// parse as a chunk carries `offset` with the chunk's own error.
pub open spec fn spec_extract_chunk(bytes: Seq<u8>, offset: int) -> Result<
    (ChunkModel, int),
    PngError,
> {
    let n = bytes.len() as int;
    if offset + 12 > n {
        Err(PngError::TruncatedContainer { offset: offset as usize })
    } else {
        let length = spec_u32_from_be_bytes(bytes.subrange(offset, offset + 4)) as int;
        let end = offset + 12 + length;
        if end > n {
            Err(PngError::TruncatedContainer { offset: offset as usize })
        } else {
            match spec_decode_chunk(bytes.subrange(offset, end)) {
                Ok(m) => Ok((m, end)),
                Err(e) => Err(PngError::BadChunk { offset: offset as usize, error: e }),
            }
        }
    }
}

/// Parses chunk frames from `offset` to the exact end of the buffer: no
/// undersized tail, no overrun.
pub open spec fn spec_decode_chunks(bytes: Seq<u8>, offset: int) -> Result<Seq<ChunkModel>, PngError>
    decreases bytes.len() - offset,
    when 0 <= offset <= bytes.len()
{
    if offset == bytes.len() {
        Ok(Seq::empty())
    } else {
        match spec_extract_chunk(bytes, offset) {
            Err(e) => Err(e),
            Ok((m, end)) => match spec_decode_chunks(bytes, end) {
                Err(e) => Err(e),
                Ok(rest) => Ok(seq![m] + rest),
            },
        }
    }
}

/// Parses a whole container: signature, then chunks to the exact end.
pub open spec fn spec_decode_png(bytes: Seq<u8>) -> Result<Seq<ChunkModel>, PngError> {
    if bytes.len() < 8 {
        Err(PngError::TooShort)
    } else if bytes.subrange(0, 8) != spec_signature() {
        Err(PngError::BadSignature)
    } else {
        spec_decode_chunks(bytes, 8)
    }
}

/// The wire form of a chunk sequence: each chunk's frame, concatenated in
/// order.
pub open spec fn spec_encode_chunks(chunks: Seq<ChunkModel>) -> Seq<u8>
    decreases chunks.len(),
{
    if chunks.len() == 0 {
        Seq::empty()
    } else {
        spec_encode_chunk(chunks[0]) + spec_encode_chunks(chunks.drop_first())
    }
}

/// The wire form of a whole container.
pub open spec fn spec_encode_png(chunks: Seq<ChunkModel>) -> Seq<u8> {
    spec_signature() + spec_encode_chunks(chunks)
}

/// The models of a sequence of chunks, in order.
pub open spec fn chunk_views(v: Seq<Chunk>) -> Seq<ChunkModel> {
    Seq::new(v.len(), |i: int| v[i]@)
}

/// The first index in `chunks` whose type bytes equal `tb`, or `chunks.len()`
/// when no chunk matches.
pub open spec fn spec_find_index(chunks: Seq<ChunkModel>, tb: Seq<u8>) -> int
    decreases chunks.len(),
{
    if chunks.len() == 0 {
        0
    } else if chunks[0].type_bytes == tb {
        0
    } else {
        1 + spec_find_index(chunks.drop_first(), tb)
    }
}

/// The whole-file structure: the fixed signature plus an ordered sequence of
/// chunks. The sequence is mutated only through append and removal.
#[derive(Debug)]
pub struct Png {
    chunks: Vec<Chunk>,
}

impl View for Png {
    type V = Seq<ChunkModel>;

    open spec fn view(&self) -> Seq<ChunkModel> {
        chunk_views(self.spec_chunks())
    }
}

impl Png {
    /// The chunk values held by the container, in order.
    pub closed spec fn spec_chunks(&self) -> Seq<Chunk> {
        self.chunks@
    }

    /// The fixed signature as bytes.
    pub fn standard_header() -> (r: [u8; 8])
        ensures
            r@ == spec_signature(),
    {
        let r: [u8; 8] = [137, 80, 78, 71, 13, 10, 26, 10];
        assert(r@ =~= spec_signature());
        r
    }

    /// Extracts the chunk whose frame starts at `start`: reads the length
    /// prefix, bounds-checks the whole frame, and parses it.
    pub fn extract_chunk_from_bytes(start: usize, bytes: &[u8]) -> (r: Result<
        (Chunk, usize),
        PngError,
    >)
        ensures
            match r {
                Ok((c, end)) => spec_extract_chunk(bytes@, start as int) == Ok::<
                    (ChunkModel, int),
                    PngError,
                >((c@, end as int)) && start < end <= bytes@.len(),
                Err(e) => spec_extract_chunk(bytes@, start as int) == Err::<
                    (ChunkModel, int),
                    PngError,
                >(e),
            },
    {
        let n = bytes.len();
        if n < 12 || start > n - 12 {
            return Err(PngError::TruncatedContainer { offset: start });
        }
        let length = Chunk::chunk_data_length(slice_subrange(bytes, start, n));
        assert(bytes@.subrange(start as int, n as int).subrange(0, 4) =~= bytes@.subrange(
            start as int,
            start as int + 4,
        ));
        if length as usize > n - 12 - start {
            return Err(PngError::TruncatedContainer { offset: start });
        }
        let end = start + 12 + length as usize;
        let piece = slice_subrange(bytes, start, end);
        match Chunk::try_from(piece) {
            Ok(c) => Ok((c, end)),
            Err(e) => Err(PngError::BadChunk { offset: start, error: e }),
        }
    }

    /// Parses a whole container. The signature must match and the chunk
    /// frames must consume the buffer exactly; a buffer shorter than the
    /// signature fails with `TooShort` before any signature comparison.
    pub fn try_from(bytes: &[u8]) -> (r: Result<Png, PngError>)
        ensures
            match r {
                Ok(p) => spec_decode_png(bytes@) == Ok::<Seq<ChunkModel>, PngError>(p@),
                Err(e) => spec_decode_png(bytes@) == Err::<Seq<ChunkModel>, PngError>(e),
            },
            bytes@.len() < 8 ==> r == Err::<Png, PngError>(PngError::TooShort),
    {
        let n = bytes.len();
        if n < 8 {
            return Err(PngError::TooShort);
        }
        let header = Png::standard_header();
        let mut i: usize = 0;
        while i < 8
            invariant
                i <= 8,
                n == bytes@.len(),
                n >= 8,
                header@ == spec_signature(),
                forall|j: int| 0 <= j < i ==> bytes@[j] == spec_signature()[j],
            decreases 8 - i,
        {
            if bytes[i] != header[i] {
                proof {
                    assert(bytes@.subrange(0, 8)[i as int] == bytes@[i as int]);
                }
                return Err(PngError::BadSignature);
            }
            i += 1;
        }
        assert(bytes@.subrange(0, 8) =~= spec_signature());
        let mut chunks: Vec<Chunk> = Vec::new();
        let mut offset: usize = 8;
        while offset < n
            invariant
                8 <= offset <= n,
                n == bytes@.len(),
                bytes@.subrange(0, 8) == spec_signature(),
                ({
                    let tail = spec_decode_chunks(bytes@, offset as int);
                    match tail {
                        Ok(rest) => spec_decode_chunks(bytes@, 8) == Ok::<
                            Seq<ChunkModel>,
                            PngError,
                        >(chunk_views(chunks@) + rest),
                        Err(e) => spec_decode_chunks(bytes@, 8) == Err::<
                            Seq<ChunkModel>,
                            PngError,
                        >(e),
                    }
                }),
            decreases n - offset,
        {
            match Png::extract_chunk_from_bytes(offset, bytes) {
                Err(e) => {
                    return Err(e);
                },
                Ok((chunk, end)) => {
                    proof {
                        let tail = spec_decode_chunks(bytes@, offset as int);
                        let next = spec_decode_chunks(bytes@, end as int);
                        match next {
                            Ok(rest) => {
                                assert(tail == Ok::<Seq<ChunkModel>, PngError>(
                                    seq![chunk@] + rest,
                                ));
                                assert(chunk_views(chunks@) + (seq![chunk@] + rest) =~= chunk_views(
                                    chunks@.push(chunk),
                                ) + rest);
                            },
                            Err(e) => {
                                assert(tail == Err::<Seq<ChunkModel>, PngError>(e));
                            },
                        }
                    }
                    chunks.push(chunk);
                    offset = end;
                },
            }
        }
        assert(spec_decode_chunks(bytes@, offset as int) == Ok::<Seq<ChunkModel>, PngError>(
            Seq::empty(),
        ));
        let p = Png { chunks };
        proof {
            assert(chunk_views(p.spec_chunks()) + Seq::<ChunkModel>::empty() =~= p@);
        }
        Ok(p)
    }

    /// Serializes the container: the signature followed by each chunk's
    /// frame, concatenated in sequence order.
    pub fn as_bytes(&self) -> (r: Vec<u8>)
        ensures
            r@ == spec_encode_png(self@),
    {
        let mut out: Vec<u8> = Vec::new();
        let header = Png::standard_header();
        out.extend_from_slice(header.as_slice());
        assert(out@ =~= spec_signature() + spec_encode_chunks(self@.take(0)));
        let mut i: usize = 0;
        while i < self.chunks.len()
            invariant
                i <= self.chunks@.len(),
                self@.len() == self.chunks@.len(),
                out@ == spec_signature() + spec_encode_chunks(self@.take(i as int)),
            decreases self.chunks@.len() - i,
        {
            let mut cb = self.chunks[i].as_bytes();
            proof {
                assert(self@[i as int] == self.chunks@[i as int]@);
                assert(self@.take(i as int + 1) =~= self@.take(i as int).push(self@[i as int]));
                lemma_encode_chunks_push(self@.take(i as int), self@[i as int]);
            }
            out.append(&mut cb);
            i += 1;
        }
        assert(self@.take(self.chunks@.len() as int) =~= self@);
        out
    }

    /// Appends a chunk at the end of the sequence. Order is preserved; no
    /// deduplication and no validity re-check is made.
    pub fn append_chunk(&mut self, chunk: Chunk)
        ensures
            final(self)@ == old(self)@.push(chunk@),
    {
        let ghost m = chunk@;
        self.chunks.push(chunk);
        proof {
            assert(chunk_views(self.chunks@) =~= chunk_views(old(self).chunks@).push(m));
        }
    }

    /// Read-only view of the current chunk sequence, in order.
    pub fn chunks(&self) -> (r: &Vec<Chunk>)
        ensures
            r@ == self.spec_chunks(),
            chunk_views(r@) == self@,
    {
        &self.chunks
    }

    /// Finds the position of the first chunk whose type code's text form
    /// equals `chunk_type`.
    fn find_chunk_index(&self, chunk_type: &str) -> (r: Option<usize>)
        ensures
            ({
                let idx = spec_find_index(self@, encode_utf8(chunk_type@));
                match r {
                    Some(i) => i == idx && idx < self@.len(),
                    None => idx == self@.len(),
                }
            }),
    {
        let ghost tb = encode_utf8(chunk_type@);
        let mut i: usize = 0;
        while i < self.chunks.len()
            invariant
                i <= self.chunks@.len(),
                self@.len() == self.chunks@.len(),
                tb == encode_utf8(chunk_type@),
                forall|j: int| 0 <= j < i ==> self@[j].type_bytes != tb,
            decreases self.chunks@.len() - i,
        {
            let c = &self.chunks[i];
            assert(c@ == self@[i as int]);
            if type_matches_text(c.chunk_type(), chunk_type) {
                proof {
                    lemma_find_index_first(self@, tb, i as int);
                }
                return Some(i);
            }
            i += 1;
        }
        proof {
            lemma_find_index_first(self@, tb, self@.len() as int);
        }
        None
    }

    /// The first chunk (in sequence order) whose type code's text form equals
    /// `chunk_type`, or none when no chunk matches.
    pub fn chunk_by_type(&self, chunk_type: &str) -> (r: Option<&Chunk>)
        ensures
            ({
                let idx = spec_find_index(self@, encode_utf8(chunk_type@));
                match r {
                    Some(c) => idx < self@.len() && c@ == self@[idx],
                    None => idx == self@.len(),
                }
            }),
    {
        match self.find_chunk_index(chunk_type) {
            Some(i) => Some(&self.chunks[i]),
            None => None,
        }
    }

    /// Removes the first chunk whose type code's text form equals
    /// `chunk_type` and returns it; later duplicates, if any, remain. Fails
    /// with `NotFound`, leaving the sequence unchanged, when no chunk
    /// matches.
    pub fn remove_first_chunk(&mut self, chunk_type: &str) -> (r: Result<Chunk, PngError>)
        ensures
            ({
                let idx = spec_find_index(old(self)@, encode_utf8(chunk_type@));
                if idx < old(self)@.len() {
                    r matches Ok(c) && c@ == old(self)@[idx] && final(self)@ == old(self)@.remove(
                        idx,
                    )
                } else {
                    r == Err::<Chunk, PngError>(PngError::NotFound) && final(self)@ == old(self)@
                }
            }),
    {
        match self.find_chunk_index(chunk_type) {
            Some(i) => {
                let c = self.chunks.remove(i);
                proof {
                    assert(chunk_views(self.chunks@) =~= chunk_views(old(self).chunks@).remove(
                        i as int,
                    ));
                }
                Ok(c)
            },
            None => Err(PngError::NotFound),
        }
    }

    /// The container's textual form: each chunk's data as text, concatenated
    /// in sequence order. Fails when any chunk's data is empty or is not
    /// UTF-8 text.
    pub fn as_string(&self) -> (r: Result<String, ChunkError>)
        ensures
            all_chunks_textual(self@) ==> (r matches Ok(s) && s@ == spec_concat_texts(self@)),
            !all_chunks_textual(self@) ==> (r matches Err(e) && (e == ChunkError::EmptyData || e
                == ChunkError::InvalidEncoding)),
    {
        let mut out = String::new();
        let mut i: usize = 0;
        while i < self.chunks.len()
            invariant
                i <= self.chunks@.len(),
                self@.len() == self.chunks@.len(),
                forall|k: int|
                    0 <= k < i ==> (#[trigger] self@[k]).data.len() > 0 && valid_utf8(
                        self@[k].data,
                    ),
                out@ == spec_concat_texts(self@.take(i as int)),
            decreases self.chunks@.len() - i,
        {
            assert(self.chunks@[i as int]@ == self@[i as int]);
            match self.chunks[i].data_as_string() {
                Ok(s) => {
                    proof {
                        assert(self@.take(i as int + 1) =~= self@.take(i as int).push(
                            self@[i as int],
                        ));
                        lemma_concat_texts_push(self@.take(i as int), self@[i as int]);
                    }
                    out.append(s.as_str());
                },
                Err(e) => {
                    return Err(e);
                },
            }
            i += 1;
        }
        assert(self@.take(self.chunks@.len() as int) =~= self@);
        Ok(out)
    }

    /// The texts of the chunks that hide a message by convention — type code
    /// ancillary (byte 0 lowercase) and private (byte 1 lowercase) — in
    /// sequence order. Fails when such a chunk's data is empty or is not
    /// UTF-8 text; other chunks' data is never touched.
    pub fn hidden_messages(&self) -> (r: Result<Vec<String>, ChunkError>)
        ensures
            hidden_chunks_textual(self@) ==> (r matches Ok(v) && v@.len() == spec_hidden_texts(
                self@,
            ).len() && (forall|k: int|
                0 <= k < v@.len() ==> (#[trigger] v@[k])@ == spec_hidden_texts(self@)[k])),
            !hidden_chunks_textual(self@) ==> (r matches Err(e) && (e == ChunkError::EmptyData || e
                == ChunkError::InvalidEncoding)),
    {
        let mut out: Vec<String> = Vec::new();
        let mut i: usize = 0;
        while i < self.chunks.len()
            invariant
                i <= self.chunks@.len(),
                self@.len() == self.chunks@.len(),
                forall|k: int|
                    0 <= k < i && spec_is_hidden(#[trigger] self@[k]) ==> self@[k].data.len() > 0
                        && valid_utf8(self@[k].data),
                out@.len() == spec_hidden_texts(self@.take(i as int)).len(),
                forall|k: int|
                    0 <= k < out@.len() ==> (#[trigger] out@[k])@ == spec_hidden_texts(
                        self@.take(i as int),
                    )[k],
            decreases self.chunks@.len() - i,
        {
            assert(self.chunks@[i as int]@ == self@[i as int]);
            proof {
                assert(self@.take(i as int + 1) =~= self@.take(i as int).push(self@[i as int]));
                lemma_hidden_texts_push(self@.take(i as int), self@[i as int]);
            }
            let c = &self.chunks[i];
            if !c.chunk_type().is_critical() && !c.chunk_type().is_public() {
                match c.data_as_string() {
                    Ok(s) => {
                        out.push(s);
                    },
                    Err(e) => {
                        return Err(e);
                    },
                }
            }
            i += 1;
        }
        assert(self@.take(self.chunks@.len() as int) =~= self@);
        Ok(out)
    }
}

/// True when every chunk's data is non-empty UTF-8 text, so that the whole
/// container has a textual form.
pub open spec fn all_chunks_textual(chunks: Seq<ChunkModel>) -> bool {
    forall|k: int|
        0 <= k < chunks.len() ==> (#[trigger] chunks[k]).data.len() > 0 && valid_utf8(
            chunks[k].data,
        )
}

/// The texts of the chunks, concatenated in order.
pub open spec fn spec_concat_texts(chunks: Seq<ChunkModel>) -> Seq<char>
    decreases chunks.len(),
{
    if chunks.len() == 0 {
        Seq::empty()
    } else {
        decode_utf8(chunks[0].data) + spec_concat_texts(chunks.drop_first())
    }
}

/// Appending one chunk appends its text to the concatenated texts.
proof fn lemma_concat_texts_push(chunks: Seq<ChunkModel>, m: ChunkModel)
    ensures
        spec_concat_texts(chunks.push(m)) == spec_concat_texts(chunks) + decode_utf8(m.data),
    decreases chunks.len(),
{
    if chunks.len() == 0 {
        assert(chunks.push(m)[0] == m);
        assert(chunks.push(m).drop_first() =~= Seq::<ChunkModel>::empty());
        assert(spec_concat_texts(chunks.push(m).drop_first()) == Seq::<char>::empty());
        assert(spec_concat_texts(chunks) == Seq::<char>::empty());
        assert(decode_utf8(m.data) + Seq::<char>::empty() =~= Seq::<char>::empty() + decode_utf8(
            m.data,
        ));
    } else {
        assert(chunks.push(m)[0] == chunks[0]);
        assert(chunks.push(m).drop_first() =~= chunks.drop_first().push(m));
        lemma_concat_texts_push(chunks.drop_first(), m);
        assert((decode_utf8(chunks[0].data) + spec_concat_texts(chunks.drop_first())) + decode_utf8(
            m.data,
        ) =~= decode_utf8(chunks[0].data) + (spec_concat_texts(chunks.drop_first()) + decode_utf8(
            m.data,
        )));
    }
}

/// True of a chunk that hides a message by convention: its type code is
/// ancillary (byte 0 lowercase) and private (byte 1 lowercase).
pub open spec fn spec_is_hidden(m: ChunkModel) -> bool {
    !spec_is_ascii_uppercase(m.type_bytes[0]) && !spec_is_ascii_uppercase(m.type_bytes[1])
}

/// True when every ancillary private chunk's data is non-empty UTF-8 text.
pub open spec fn hidden_chunks_textual(chunks: Seq<ChunkModel>) -> bool {
    forall|k: int|
        0 <= k < chunks.len() && spec_is_hidden(#[trigger] chunks[k]) ==> chunks[k].data.len() > 0
            && valid_utf8(chunks[k].data)
}

/// The texts of the ancillary private chunks, in sequence order.
pub open spec fn spec_hidden_texts(chunks: Seq<ChunkModel>) -> Seq<Seq<char>>
    decreases chunks.len(),
{
    if chunks.len() == 0 {
        Seq::empty()
    } else {
        let rest = spec_hidden_texts(chunks.drop_first());
        if spec_is_hidden(chunks[0]) {
            seq![decode_utf8(chunks[0].data)] + rest
        } else {
            rest
        }
    }
}

/// Appending one chunk appends its text to the hidden texts when it is
/// ancillary and private, and leaves them unchanged otherwise.
proof fn lemma_hidden_texts_push(chunks: Seq<ChunkModel>, m: ChunkModel)
    ensures
        spec_hidden_texts(chunks.push(m)) == spec_hidden_texts(chunks) + (if spec_is_hidden(m) {
            seq![decode_utf8(m.data)]
        } else {
            Seq::<Seq<char>>::empty()
        }),
    decreases chunks.len(),
{
    let tail = if spec_is_hidden(m) {
        seq![decode_utf8(m.data)]
    } else {
        Seq::<Seq<char>>::empty()
    };
    if chunks.len() == 0 {
        assert(chunks.push(m)[0] == m);
        assert(chunks.push(m).drop_first() =~= Seq::<ChunkModel>::empty());
        assert(spec_hidden_texts(chunks.push(m).drop_first()) == Seq::<Seq<char>>::empty());
        assert(spec_hidden_texts(chunks) == Seq::<Seq<char>>::empty());
        if spec_is_hidden(m) {
            assert(seq![decode_utf8(m.data)] + Seq::<Seq<char>>::empty() =~= Seq::<
                Seq<char>,
            >::empty() + tail);
        } else {
            assert(Seq::<Seq<char>>::empty() =~= Seq::<Seq<char>>::empty() + tail);
        }
    } else {
        assert(chunks.push(m)[0] == chunks[0]);
        assert(chunks.push(m).drop_first() =~= chunks.drop_first().push(m));
        lemma_hidden_texts_push(chunks.drop_first(), m);
        if spec_is_hidden(chunks[0]) {
            assert((seq![decode_utf8(chunks[0].data)] + spec_hidden_texts(chunks.drop_first()))
                + tail =~= seq![decode_utf8(chunks[0].data)] + (spec_hidden_texts(
                chunks.drop_first(),
            ) + tail));
        }
    }
}

/// Tests whether a type code's bytes equal the UTF-8 encoding of `text`.
fn type_matches_text(ct: &ChunkType, text: &str) -> (r: bool)
    ensures
        r == (encode_utf8(text@) == ct@),
{
    proof {
        use_type_invariant(ct);
    }
    let tb: &[u8] = text.as_bytes();
    let cb = ct.bytes();
    if tb.len() != 4 {
        proof {
            if encode_utf8(text@) == ct@ {
                assert(encode_utf8(text@).len() == tb@.len());
            }
        }
        return false;
    }
    let mut k: usize = 0;
    while k < 4
        invariant
            k <= 4,
            tb@.len() == 4,
            tb@ == encode_utf8(text@),
            cb@ == ct@,
            forall|j: int| 0 <= j < k ==> tb@[j] == ct@[j],
        decreases 4 - k,
    {
        if tb[k] != cb[k] {
            proof {
                if encode_utf8(text@) == ct@ {
                    assert(tb@[k as int] == ct@[k as int]);
                }
            }
            return false;
        }
        k += 1;
    }
    proof {
        assert(encode_utf8(text@) =~= ct@);
    }
    true
}

/// Appending one chunk to a sequence appends its frame to the sequence's
/// wire form.
pub proof fn lemma_encode_chunks_push(chunks: Seq<ChunkModel>, m: ChunkModel)
    ensures
        spec_encode_chunks(chunks.push(m)) == spec_encode_chunks(chunks) + spec_encode_chunk(m),
    decreases chunks.len(),
{
    if chunks.len() == 0 {
        assert(chunks.push(m)[0] == m);
        assert(chunks.push(m).drop_first() =~= Seq::<ChunkModel>::empty());
        assert(spec_encode_chunks(chunks.push(m).drop_first()) == Seq::<u8>::empty());
        assert(spec_encode_chunks(chunks.push(m)) == spec_encode_chunk(m) + Seq::<u8>::empty());
        assert(spec_encode_chunks(chunks) == Seq::<u8>::empty());
        assert(spec_encode_chunk(m) + Seq::<u8>::empty() =~= Seq::<u8>::empty()
            + spec_encode_chunk(m));
    } else {
        assert(chunks.push(m)[0] == chunks[0]);
        assert(chunks.push(m).drop_first() =~= chunks.drop_first().push(m));
        lemma_encode_chunks_push(chunks.drop_first(), m);
        assert((spec_encode_chunk(chunks[0]) + spec_encode_chunks(chunks.drop_first()))
            + spec_encode_chunk(m) =~= spec_encode_chunk(chunks[0]) + (spec_encode_chunks(
            chunks.drop_first(),
        ) + spec_encode_chunk(m)));
    }
}

/// True when every chunk model in the sequence is well-formed and carries a
/// valid type code — as every chunk built from a valid type or decoded from
/// bytes does.
pub open spec fn chunks_wf_valid(chunks: Seq<ChunkModel>) -> bool {
    forall|k: int|
        0 <= k < chunks.len() ==> chunk_model_wf(#[trigger] chunks[k]) && spec_type_is_valid(
            chunks[k].type_bytes,
        )
}

/// A buffer whose tail from `offset` is the wire form of a chunk sequence
/// parses from `offset` to exactly that sequence.
#[verifier::rlimit(50)]
proof fn lemma_decode_encoded_chunks(bytes: Seq<u8>, offset: int, ms: Seq<ChunkModel>)
    requires
        0 <= offset <= bytes.len(),
        bytes.subrange(offset, bytes.len() as int) == spec_encode_chunks(ms),
        chunks_wf_valid(ms),
    ensures
        spec_decode_chunks(bytes, offset) == Ok::<Seq<ChunkModel>, PngError>(ms),
    decreases ms.len(),
{
    let n = bytes.len() as int;
    if ms.len() == 0 {
        assert(spec_encode_chunks(ms) == Seq::<u8>::empty());
        assert(offset == n);
        assert(Seq::<ChunkModel>::empty() =~= ms);
    } else {
        let m = ms[0];
        let crc_field = crc32_of(m.type_bytes + m.data);
        let enc = spec_encode_chunk(m);
        let rest_enc = spec_encode_chunks(ms.drop_first());
        assert(bytes.subrange(offset, n) == enc + rest_enc);
        lemma_frame_subranges(m.data.len() as u32, m.type_bytes, m.data, crc_field);
        assert(enc.len() == 12 + m.data.len());
        let end = offset + enc.len() as int;
        assert(bytes.subrange(offset, end) =~= (enc + rest_enc).subrange(0, enc.len() as int));
        assert((enc + rest_enc).subrange(0, enc.len() as int) =~= enc);
        assert(bytes.subrange(offset, offset + 4) =~= enc.subrange(0, 4));
        crate::be_bytes::lemma_u32_from_to_be_bytes(m.data.len() as u32);
        assert(spec_u32_from_be_bytes(bytes.subrange(offset, offset + 4)) == m.data.len());
        lemma_chunk_round_trip(m);
        assert(spec_decode_chunk(bytes.subrange(offset, end)) == Ok::<ChunkModel, ChunkError>(m));
        assert(spec_extract_chunk(bytes, offset) == Ok::<(ChunkModel, int), PngError>((m, end)));
        assert(bytes.subrange(end, n) =~= rest_enc) by {
            assert forall|i: int| 0 <= i < n - end implies bytes.subrange(end, n)[i] == rest_enc[i] by {
                assert(bytes.subrange(end, n)[i] == bytes.subrange(offset, n)[enc.len() + i]);
                assert((enc + rest_enc)[enc.len() + i] == rest_enc[i]);
            }
        }
        assert forall|k: int| 0 <= k < ms.drop_first().len() implies chunk_model_wf(
            #[trigger] ms.drop_first()[k],
        ) && spec_type_is_valid(ms.drop_first()[k].type_bytes) by {
            assert(ms.drop_first()[k] == ms[k + 1]);
        }
        lemma_decode_encoded_chunks(bytes, end, ms.drop_first());
        assert(seq![m] + ms.drop_first() =~= ms);
    }
}

/// Round trip for whole containers: decoding the wire form of a container
/// whose chunks are well-formed with valid type codes reproduces the same
/// ordered chunk sequence.
pub proof fn lemma_png_round_trip(chunks: Seq<ChunkModel>)
    requires
        chunks_wf_valid(chunks),
    ensures
        spec_decode_png(spec_encode_png(chunks)) == Ok::<Seq<ChunkModel>, PngError>(chunks),
{
    let bytes = spec_encode_png(chunks);
    assert(bytes.subrange(0, 8) =~= spec_signature());
    assert(bytes.subrange(8, bytes.len() as int) =~= spec_encode_chunks(chunks));
    lemma_decode_encoded_chunks(bytes, 8, chunks);
}

/// A buffer made of the signature followed by two chunk frames decodes to a
/// container holding exactly those two chunks, in that order.
pub proof fn lemma_decode_two_chunks(a: ChunkModel, b: ChunkModel)
    requires
        chunk_model_wf(a),
        spec_type_is_valid(a.type_bytes),
        chunk_model_wf(b),
        spec_type_is_valid(b.type_bytes),
    ensures
        spec_decode_png(spec_signature() + spec_encode_chunk(a) + spec_encode_chunk(b)) == Ok::<
            Seq<ChunkModel>,
            PngError,
        >(seq![a, b]),
{
    let ms = seq![a, b];
    assert(ms[0] == a && ms[1] == b);
    assert(chunks_wf_valid(ms));
    assert(ms.drop_first() =~= seq![b]);
    assert(seq![b].drop_first() =~= Seq::<ChunkModel>::empty());
    assert(spec_encode_chunks(Seq::<ChunkModel>::empty()) == Seq::<u8>::empty());
    assert(spec_encode_chunks(seq![b]) == spec_encode_chunk(b) + Seq::<u8>::empty());
    assert(spec_encode_chunks(ms) == spec_encode_chunk(a) + spec_encode_chunks(seq![b]));
    assert(spec_signature() + spec_encode_chunk(a) + spec_encode_chunk(b) =~= spec_encode_png(ms));
    lemma_png_round_trip(ms);
}

/// Two adjacent subranges concatenate to the enclosing subrange.
proof fn lemma_subrange_split(s: Seq<u8>, a: int, b: int, c: int)
    requires
        0 <= a <= b <= c <= s.len(),
    ensures
        s.subrange(a, b) + s.subrange(b, c) == s.subrange(a, c),
{
    assert(s.subrange(a, b) + s.subrange(b, c) =~= s.subrange(a, c));
}

/// One successful parsing step, unfolded: the frame bounds, the chunk the
/// frame holds, and the remainder of the parse.
proof fn lemma_decode_chunks_step(
    bytes: Seq<u8>,
    offset: int,
    ms: Seq<ChunkModel>,
    m: ChunkModel,
    end: int,
)
    requires
        0 <= offset < bytes.len(),
        spec_decode_chunks(bytes, offset) == Ok::<Seq<ChunkModel>, PngError>(ms),
        spec_extract_chunk(bytes, offset) == Ok::<(ChunkModel, int), PngError>((m, end)),
    ensures
        offset < end <= bytes.len(),
        spec_decode_chunks(bytes, end) == Ok::<Seq<ChunkModel>, PngError>(ms.drop_first()),
        ms.len() > 0,
        ms == seq![m] + ms.drop_first(),
        spec_encode_chunk(m) == bytes.subrange(offset, end),
{
    let rest = spec_decode_chunks(bytes, end)->Ok_0;
    assert(ms == seq![m] + rest);
    assert(ms.drop_first() =~= rest);
    crate::chunk::lemma_chunk_encode_decoded(bytes.subrange(offset, end), m);
}

/// Re-encoding the chunk sequence parsed from `offset` reproduces the bytes
/// from `offset` exactly.
#[verifier::rlimit(50)]
proof fn lemma_encode_decoded_chunks(bytes: Seq<u8>, offset: int, ms: Seq<ChunkModel>)
    requires
        0 <= offset <= bytes.len(),
        spec_decode_chunks(bytes, offset) == Ok::<Seq<ChunkModel>, PngError>(ms),
    ensures
        spec_encode_chunks(ms) == bytes.subrange(offset, bytes.len() as int),
    decreases bytes.len() - offset,
{
    let n = bytes.len() as int;
    if offset == n {
        assert(ms =~= Seq::<ChunkModel>::empty());
        assert(spec_encode_chunks(ms) =~= bytes.subrange(offset, n));
    } else {
        let (m, end) = spec_extract_chunk(bytes, offset)->Ok_0;
        lemma_decode_chunks_step(bytes, offset, ms, m, end);
        let rest = ms.drop_first();
        lemma_encode_decoded_chunks(bytes, end, rest);
        lemma_encode_chunks_cons(ms, m, rest, bytes.subrange(offset, end), bytes.subrange(end, n));
        lemma_subrange_split(bytes, offset, end, n);
    }
}

/// Unfolds one step of the chunk-sequence wire form.
proof fn lemma_encode_chunks_cons(
    ms: Seq<ChunkModel>,
    m: ChunkModel,
    rest: Seq<ChunkModel>,
    a: Seq<u8>,
    b: Seq<u8>,
)
    requires
        ms == seq![m] + rest,
        spec_encode_chunk(m) == a,
        spec_encode_chunks(rest) == b,
    ensures
        spec_encode_chunks(ms) == a + b,
{
    assert(ms.len() == 1 + rest.len());
    assert(ms[0] == m);
    assert(ms.drop_first() =~= rest);
}

/// The other direction of the container round trip: re-encoding any
/// successfully decoded container reproduces the input bytes exactly.
pub proof fn lemma_png_encode_decoded(bytes: Seq<u8>, chunks: Seq<ChunkModel>)
    requires
        spec_decode_png(bytes) == Ok::<Seq<ChunkModel>, PngError>(chunks),
    ensures
        spec_encode_png(chunks) == bytes,
{
    let n = bytes.len() as int;
    lemma_encode_decoded_chunks(bytes, 8, chunks);
    lemma_subrange_split(bytes, 0, 8, n);
    assert(bytes.subrange(0, n) =~= bytes);
}

/// After appending a chunk whose type code no existing chunk carries, lookup
/// by that type code finds exactly the appended chunk, at the last position;
/// removing that first match restores the original sequence, in which lookup
/// by the same type code finds nothing.
pub proof fn lemma_append_find_remove(chunks: Seq<ChunkModel>, m: ChunkModel)
    requires
        forall|j: int| 0 <= j < chunks.len() ==> (#[trigger] chunks[j]).type_bytes != m.type_bytes,
    ensures
        spec_find_index(chunks.push(m), m.type_bytes) == chunks.len(),
        chunks.push(m)[chunks.len() as int] == m,
        chunks.push(m).remove(chunks.len() as int) == chunks,
        spec_find_index(chunks, m.type_bytes) == chunks.len(),
{
    assert forall|j: int| 0 <= j < chunks.len() implies (#[trigger] chunks.push(m)[j]).type_bytes
        != m.type_bytes by {
        assert(chunks.push(m)[j] == chunks[j]);
    }
    lemma_find_index_first(chunks.push(m), m.type_bytes, chunks.len() as int);
    lemma_find_index_first(chunks, m.type_bytes, chunks.len() as int);
    assert(chunks.push(m).remove(chunks.len() as int) =~= chunks);
}

/// The first index at which a match sits is what `spec_find_index` returns:
/// it is preceded by non-matches only, and it matches unless it is the length.
pub proof fn lemma_find_index_first(chunks: Seq<ChunkModel>, tb: Seq<u8>, i: int)
    requires
        0 <= i <= chunks.len(),
        forall|j: int| 0 <= j < i ==> chunks[j].type_bytes != tb,
        i < chunks.len() ==> chunks[i].type_bytes == tb,
    ensures
        spec_find_index(chunks, tb) == i,
    decreases chunks.len(),
{
    if chunks.len() == 0 {
    } else if i == 0 {
    } else {
        assert(chunks[0].type_bytes != tb);
        assert forall|j: int| 0 <= j < i - 1 implies chunks.drop_first()[j].type_bytes != tb by {
            assert(chunks.drop_first()[j] == chunks[j + 1]);
        }
        lemma_find_index_first(chunks.drop_first(), tb, i - 1);
    }
}

} // verus!
