use pngme::chunk::Chunk;
use pngme::chunk_type::ChunkType;
use pngme::errors::ChunkError;

fn testing_chunk() -> Chunk {
    let data_length: u32 = 42;
    let chunk_type = "RuSt".as_bytes();
    let message_bytes = "This is where your secret message will be!".as_bytes();
    let crc: u32 = 2882656334;

    let chunk_data: Vec<u8> = data_length
        .to_be_bytes()
        .iter()
        .chain(chunk_type.iter())
        .chain(message_bytes.iter())
        .chain(crc.to_be_bytes().iter())
        .copied()
        .collect();

    Chunk::try_from(chunk_data.as_ref()).unwrap()
}

#[test]
fn test_new_chunk() {
    let chunk_type = ChunkType::from_str("RuSt").unwrap();
    let data = "This is where your secret message will be!"
        .as_bytes()
        .to_vec();
    let chunk = Chunk::new(chunk_type, data);
    assert_eq!(chunk.length(), 42);
    assert_eq!(chunk.crc(), 2882656334);
}

#[test]
fn test_chunk_length() {
    let chunk = testing_chunk();
    assert_eq!(chunk.length(), 42);
}

#[test]
fn test_chunk_type() {
    let chunk = testing_chunk();
    assert_eq!(chunk.chunk_type().as_string(), String::from("RuSt"));
}

#[test]
fn test_chunk_string() {
    let chunk = testing_chunk();
    let chunk_string = chunk.data_as_string().unwrap();
    let expected_chunk_string = String::from("This is where your secret message will be!");
    assert_eq!(chunk_string, expected_chunk_string);
}

#[test]
fn test_chunk_crc() {
    let chunk = testing_chunk();
    assert_eq!(chunk.crc(), 2882656334);
}

#[test]
fn test_valid_chunk_from_bytes() {
    let data_length: u32 = 42;
    let chunk_type = "RuSt".as_bytes();
    let message_bytes = "This is where your secret message will be!".as_bytes();
    let crc: u32 = 2882656334;

    let chunk_data: Vec<u8> = data_length
        .to_be_bytes()
        .iter()
        .chain(chunk_type.iter())
        .chain(message_bytes.iter())
        .chain(crc.to_be_bytes().iter())
        .copied()
        .collect();

    let chunk = Chunk::try_from(chunk_data.as_ref()).unwrap();

    let chunk_string = chunk.data_as_string().unwrap();
    let expected_chunk_string = String::from("This is where your secret message will be!");

    assert_eq!(chunk.length(), 42);
    assert_eq!(chunk.chunk_type().as_string(), String::from("RuSt"));
    assert_eq!(chunk_string, expected_chunk_string);
    assert_eq!(chunk.crc(), 2882656334);
}

#[test]
fn test_invalid_chunk_from_bytes() {
    let data_length: u32 = 42;
    let chunk_type = "RuSt".as_bytes();
    let message_bytes = "This is where your secret message will be!".as_bytes();
    let crc: u32 = 2882656333;

    let chunk_data: Vec<u8> = data_length
        .to_be_bytes()
        .iter()
        .chain(chunk_type.iter())
        .chain(message_bytes.iter())
        .chain(crc.to_be_bytes().iter())
        .copied()
        .collect();

    let chunk = Chunk::try_from(chunk_data.as_ref());

    assert!(chunk.is_err());
}

#[test]
pub fn test_chunk_trait_impls() {
    let data_length: u32 = 42;
    let chunk_type = "RuSt".as_bytes();
    let message_bytes = "This is where your secret message will be!".as_bytes();
    let crc: u32 = 2882656334;

    let chunk_data: Vec<u8> = data_length
        .to_be_bytes()
        .iter()
        .chain(chunk_type.iter())
        .chain(message_bytes.iter())
        .chain(crc.to_be_bytes().iter())
        .copied()
        .collect();

    let chunk: Chunk = Chunk::try_from(chunk_data.as_ref()).unwrap();

    let _chunk_string = format!("{}", chunk.data_as_string().unwrap());
}

#[test]
fn test_chunk_round_trip() {
    let chunk_type = ChunkType::from_str("RuSt").unwrap();
    let data = "This is where your secret message will be!"
        .as_bytes()
        .to_vec();
    let chunk = Chunk::new(chunk_type, data.clone());
    let encoded = chunk.as_bytes();
    let decoded = Chunk::try_from(encoded.as_ref()).unwrap();
    assert_eq!(decoded.length(), chunk.length());
    assert_eq!(decoded.chunk_type().bytes(), chunk.chunk_type().bytes());
    assert_eq!(decoded.data_as_string().unwrap(), chunk.data_as_string().unwrap());
    assert_eq!(decoded.crc(), chunk.crc());
    assert_eq!(decoded.as_bytes(), encoded);
}

#[test]
fn test_chunk_checksum_mismatch_is_the_only_error() {
    let chunk_type = ChunkType::from_str("RuSt").unwrap();
    let data = "This is where your secret message will be!"
        .as_bytes()
        .to_vec();
    let chunk = Chunk::new(chunk_type, data);
    let mut encoded = chunk.as_bytes();
    let last = encoded.len() - 1;
    encoded[last] ^= 1;
    assert_eq!(
        Chunk::try_from(encoded.as_ref()).unwrap_err(),
        ChunkError::ChecksumMismatch
    );
}

#[test]
fn test_chunk_error_order() {
    // Fewer than 12 bytes: too short, before anything else is looked at.
    assert_eq!(
        Chunk::try_from(&[0u8; 11][..]).unwrap_err(),
        ChunkError::TooShort
    );

    // A digit in the type code: invalid encoding.
    let bad_type: Vec<u8> = 0u32
        .to_be_bytes()
        .iter()
        .chain("Ru1t".as_bytes().iter())
        .chain(0u32.to_be_bytes().iter())
        .copied()
        .collect();
    assert_eq!(
        Chunk::try_from(bad_type.as_ref()).unwrap_err(),
        ChunkError::InvalidEncoding
    );

    // A lowercase reserved byte: the type parses but is not valid.
    let reserved: Vec<u8> = 0u32
        .to_be_bytes()
        .iter()
        .chain("Rust".as_bytes().iter())
        .chain(0u32.to_be_bytes().iter())
        .copied()
        .collect();
    assert_eq!(
        Chunk::try_from(reserved.as_ref()).unwrap_err(),
        ChunkError::InvalidType
    );

    // A declared length that disagrees with the actual data size.
    let wrong_length: Vec<u8> = 7u32
        .to_be_bytes()
        .iter()
        .chain("RuSt".as_bytes().iter())
        .chain(0u32.to_be_bytes().iter())
        .copied()
        .collect();
    assert_eq!(
        Chunk::try_from(wrong_length.as_ref()).unwrap_err(),
        ChunkError::LengthMismatch
    );
}

#[test]
fn test_chunk_data_as_string_errors() {
    let empty = Chunk::new(ChunkType::from_str("ruSt").unwrap(), Vec::new());
    assert_eq!(empty.data_as_string(), Err(ChunkError::EmptyData));

    let not_text = Chunk::new(ChunkType::from_str("ruSt").unwrap(), vec![0xff, 0xfe]);
    assert_eq!(not_text.data_as_string(), Err(ChunkError::InvalidEncoding));
}

#[test]
fn test_chunk_data_as_string_multibyte_text() {
    let message = "na\u{ef}ve caf\u{e9}";
    let chunk = Chunk::new(
        ChunkType::from_str("ruSt").unwrap(),
        message.as_bytes().to_vec(),
    );
    assert_eq!(chunk.length() as usize, message.len());
    assert_eq!(chunk.data_as_string().unwrap(), message);
}

#[test]
fn test_chunk_data_length_reads_prefix() {
    let bytes = [0u8, 0, 1, 2, 99, 98];
    assert_eq!(Chunk::chunk_data_length(&bytes[..]), 258);
}
