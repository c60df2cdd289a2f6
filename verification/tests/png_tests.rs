use pngme::chunk::Chunk;
use pngme::chunk_type::ChunkType;
use pngme::errors::{ChunkError, PngError};
use pngme::png::Png;

fn chunk_bytes(type_text: &str, message: &str) -> Vec<u8> {
    let chunk = Chunk::new(
        ChunkType::from_str(type_text).unwrap(),
        message.as_bytes().to_vec(),
    );
    chunk.as_bytes()
}

#[test]
fn test_from_chunks() {
    let data_length: u32 = 42;
    let chunk_type = "RuSt".as_bytes();
    let message_bytes = "This is where your secret message will be!".as_bytes();
    let crc: u32 = 2882656334;

    let chunk_data_one: Vec<u8> = data_length
        .to_be_bytes()
        .iter()
        .chain(chunk_type.iter())
        .chain(message_bytes.iter())
        .chain(crc.to_be_bytes().iter())
        .copied()
        .collect();

    let combined: Vec<u8> = chunk_data_one
        .iter()
        .chain(chunk_data_one.iter())
        .cloned()
        .collect();
    let with_header: Vec<u8> = Png::standard_header()
        .iter()
        .chain(combined.iter())
        .cloned()
        .collect();
    let combined_res = Png::try_from(with_header.as_ref()).unwrap();
    println!("{:?}", combined_res.as_string().unwrap());
}

#[test]
fn test_png_round_trip() {
    let mut buffer: Vec<u8> = Png::standard_header().to_vec();
    buffer.extend_from_slice(&chunk_bytes("ruSt", "first message"));
    buffer.extend_from_slice(&chunk_bytes("teSt", "second message"));

    let png = Png::try_from(buffer.as_ref()).unwrap();
    let encoded = png.as_bytes();
    assert_eq!(encoded, buffer);

    let again = Png::try_from(encoded.as_ref()).unwrap();
    assert_eq!(again.chunks().len(), png.chunks().len());
    for (a, b) in again.chunks().iter().zip(png.chunks().iter()) {
        assert_eq!(a.chunk_type().bytes(), b.chunk_type().bytes());
        assert_eq!(a.length(), b.length());
        assert_eq!(a.crc(), b.crc());
    }
}

#[test]
fn test_two_chunks_decode_in_order() {
    let chunk_a = Chunk::new(
        ChunkType::from_str("ruSt").unwrap(),
        "first message".as_bytes().to_vec(),
    );
    let chunk_b = Chunk::new(
        ChunkType::from_str("teSt").unwrap(),
        "second message".as_bytes().to_vec(),
    );
    let mut buffer: Vec<u8> = Png::standard_header().to_vec();
    buffer.extend_from_slice(&chunk_a.as_bytes());
    buffer.extend_from_slice(&chunk_b.as_bytes());

    let png = Png::try_from(buffer.as_ref()).unwrap();
    let chunks = png.chunks();
    assert_eq!(chunks.len(), 2);
    assert_eq!(chunks[0].chunk_type().as_string(), "ruSt");
    assert_eq!(chunks[0].data_as_string().unwrap(), "first message");
    assert_eq!(chunks[0].crc(), chunk_a.crc());
    assert_eq!(chunks[1].chunk_type().as_string(), "teSt");
    assert_eq!(chunks[1].data_as_string().unwrap(), "second message");
    assert_eq!(chunks[1].crc(), chunk_b.crc());
}

#[test]
fn test_decode_too_short_before_signature() {
    // Shorter than 8 bytes: TooShort even though the bytes also disagree with
    // the signature.
    let garbage = [1u8, 2, 3, 4, 5, 6, 7];
    assert_eq!(Png::try_from(&garbage[..]).unwrap_err(), PngError::TooShort);
    let empty: [u8; 0] = [];
    assert_eq!(Png::try_from(&empty[..]).unwrap_err(), PngError::TooShort);
}

#[test]
fn test_decode_bad_signature() {
    let mut buffer: Vec<u8> = Png::standard_header().to_vec();
    buffer[0] = 0;
    assert_eq!(
        Png::try_from(buffer.as_ref()).unwrap_err(),
        PngError::BadSignature
    );
}

#[test]
fn test_decode_truncated_container() {
    let mut buffer: Vec<u8> = Png::standard_header().to_vec();
    let frame = chunk_bytes("ruSt", "first message");
    buffer.extend_from_slice(&frame[..frame.len() - 3]);
    assert_eq!(
        Png::try_from(buffer.as_ref()).unwrap_err(),
        PngError::TruncatedContainer { offset: 8 }
    );
}

#[test]
fn test_decode_bad_chunk_carries_offset() {
    let mut buffer: Vec<u8> = Png::standard_header().to_vec();
    let first = chunk_bytes("ruSt", "first message");
    let offset = buffer.len() + first.len();
    buffer.extend_from_slice(&first);
    let mut second = chunk_bytes("teSt", "second message");
    let last = second.len() - 1;
    second[last] ^= 1;
    buffer.extend_from_slice(&second);
    assert_eq!(
        Png::try_from(buffer.as_ref()).unwrap_err(),
        PngError::BadChunk {
            offset,
            error: ChunkError::ChecksumMismatch
        }
    );
}

#[test]
fn test_append_lookup_remove() {
    let mut buffer: Vec<u8> = Png::standard_header().to_vec();
    buffer.extend_from_slice(&chunk_bytes("ruSt", "first message"));
    let mut png = Png::try_from(buffer.as_ref()).unwrap();

    let chunk = Chunk::new(
        ChunkType::from_str("teSt").unwrap(),
        "my test message".as_bytes().to_vec(),
    );
    let expected_crc = chunk.crc();
    png.append_chunk(chunk);

    let found = png.chunk_by_type("teSt").unwrap();
    assert_eq!(found.chunk_type().as_string(), "teSt");
    assert_eq!(found.data_as_string().unwrap(), "my test message");
    assert_eq!(found.crc(), expected_crc);

    let removed = png.remove_first_chunk("teSt").unwrap();
    assert_eq!(removed.crc(), expected_crc);
    assert!(png.chunk_by_type("teSt").is_none());
    assert_eq!(png.chunks().len(), 1);
}

#[test]
fn test_remove_missing_chunk_is_not_found() {
    let buffer: Vec<u8> = Png::standard_header().to_vec();
    let mut png = Png::try_from(buffer.as_ref()).unwrap();
    assert_eq!(
        png.remove_first_chunk("teSt").unwrap_err(),
        PngError::NotFound
    );
}

#[test]
fn test_remove_keeps_later_duplicates() {
    let mut buffer: Vec<u8> = Png::standard_header().to_vec();
    buffer.extend_from_slice(&chunk_bytes("teSt", "first message"));
    buffer.extend_from_slice(&chunk_bytes("teSt", "second message"));
    let mut png = Png::try_from(buffer.as_ref()).unwrap();

    let removed = png.remove_first_chunk("teSt").unwrap();
    assert_eq!(removed.data_as_string().unwrap(), "first message");
    let rest = png.chunk_by_type("teSt").unwrap();
    assert_eq!(rest.data_as_string().unwrap(), "second message");
}

#[test]
fn test_hidden_messages_filters_by_case() {
    let mut buffer: Vec<u8> = Png::standard_header().to_vec();
    buffer.extend_from_slice(&chunk_bytes("RuSt", "critical, not hidden"));
    buffer.extend_from_slice(&chunk_bytes("teSt", "my test message"));
    buffer.extend_from_slice(&chunk_bytes("rUSt", "public, not hidden"));
    let png = Png::try_from(buffer.as_ref()).unwrap();

    assert_eq!(png.hidden_messages().unwrap(), vec!["my test message"]);
}

#[test]
fn test_as_string_fails_on_empty_chunk_data() {
    let mut buffer: Vec<u8> = Png::standard_header().to_vec();
    buffer.extend_from_slice(&chunk_bytes("ruSt", ""));
    let png = Png::try_from(buffer.as_ref()).unwrap();
    assert_eq!(png.as_string().unwrap_err(), ChunkError::EmptyData);
}

#[test]
fn test_extract_chunk_from_bytes_at_offset() {
    let mut buffer: Vec<u8> = Png::standard_header().to_vec();
    let frame = chunk_bytes("ruSt", "first message");
    buffer.extend_from_slice(&frame);

    let (chunk, end) = Png::extract_chunk_from_bytes(8, buffer.as_ref()).unwrap();
    assert_eq!(end, buffer.len());
    assert_eq!(chunk.data_as_string().unwrap(), "first message");
}
