use pngme::{Chunk, ChunkError, ChunkType, chunk_from_strings};

fn chunk_bytes(length: u32, type_code: &[u8], payload: &[u8], crc: u32) -> Vec<u8> {
    let mut bytes: Vec<u8> = Vec::new();
    bytes.extend_from_slice(&length.to_be_bytes());
    bytes.extend_from_slice(type_code);
    bytes.extend_from_slice(payload);
    bytes.extend_from_slice(&crc.to_be_bytes());
    bytes
}

fn testing_chunk() -> Chunk {
    let data_length: u32 = 42;
    let chunk_type = "RuSt".as_bytes();
    let message_bytes = "This is where your secret message will be!".as_bytes();
    let crc: u32 = 2882656334;

    let chunk_data = chunk_bytes(data_length, chunk_type, message_bytes, crc);

    Chunk::decode(chunk_data.as_ref()).unwrap()
}

#[test]
fn test_new_chunk() {
    let chunk_type = ChunkType::from_name("RuSt").unwrap();
    let data = "This is where your secret message will be!".as_bytes().to_vec();
    let chunk = Chunk::new(chunk_type, data);
    assert_eq!(chunk.length(), 42);
    assert_eq!(chunk.crc(), 2882656334);
}

#[test]
fn test_chunk_length() {
    let chunk = testing_chunk();
    assert_eq!(chunk.length(), 42);
}

#[test]
fn test_chunk_type() {
    let chunk = testing_chunk();
    assert_eq!(chunk.chunk_type().to_display_string(), String::from("RuSt"));
}

#[test]
fn test_chunk_string() {
    let chunk = testing_chunk();
    let chunk_string = chunk.data_as_string().unwrap();
    let expected_chunk_string = String::from("This is where your secret message will be!");
    assert_eq!(chunk_string, expected_chunk_string);
}

#[test]
fn test_chunk_crc() {
    let chunk = testing_chunk();
    assert_eq!(chunk.crc(), 2882656334);
}

#[test]
fn test_valid_chunk_from_bytes() {
    let data_length: u32 = 42;
    let chunk_type = "RuSt".as_bytes();
    let message_bytes = "This is where your secret message will be!".as_bytes();
    let crc: u32 = 2882656334;

    let chunk_data = chunk_bytes(data_length, chunk_type, message_bytes, crc);

    let chunk = Chunk::decode(chunk_data.as_ref()).unwrap();

    let chunk_string = chunk.data_as_string().unwrap();
    let expected_chunk_string = String::from("This is where your secret message will be!");

    assert_eq!(chunk.length(), 42);
    assert_eq!(chunk.chunk_type().to_display_string(), String::from("RuSt"));
    assert_eq!(chunk_string, expected_chunk_string);
    assert_eq!(chunk.crc(), 2882656334);
}

#[test]
fn test_invalid_chunk_from_bytes() {
    let data_length: u32 = 42;
    let chunk_type = "RuSt".as_bytes();
    let message_bytes = "This is where your secret message will be!".as_bytes();
    let crc: u32 = 2882656333;

    let chunk_data = chunk_bytes(data_length, chunk_type, message_bytes, crc);

    let chunk = Chunk::decode(chunk_data.as_ref());

    assert!(chunk.is_err());
}

#[test]
pub fn test_chunk_trait_impls() {
    let data_length: u32 = 42;
    let chunk_type = "RuSt".as_bytes();
    let message_bytes = "This is where your secret message will be!".as_bytes();
    let crc: u32 = 2882656334;

    let chunk_data = chunk_bytes(data_length, chunk_type, message_bytes, crc);

    let chunk: Chunk = Chunk::decode(chunk_data.as_ref()).unwrap();

    let _chunk_string = format!("{:?}", chunk);
}

#[test]
fn test_chunk_round_trip() {
    let chunk_type = ChunkType::from_name("teXt").unwrap();
    let chunk = Chunk::new(chunk_type, b"hello".to_vec());
    let encoded = chunk.as_bytes();

    let decoded = Chunk::decode(encoded.as_ref()).unwrap();
    assert_eq!(decoded.chunk_type().bytes(), chunk.chunk_type().bytes());
    assert_eq!(decoded.data(), chunk.data());
    assert_eq!(decoded.crc(), chunk.crc());
    assert_eq!(decoded.length(), chunk.length());
}

#[test]
fn test_checksum_sensitivity_single_bit_flips() {
    let chunk = Chunk::new(ChunkType::from_name("RuSt").unwrap(), b"payload".to_vec());
    let encoded = chunk.as_bytes();
    // Flip every bit of the type code and payload regions in turn, keeping
    // the stored checksum: decode must fail with a checksum mismatch.
    for byte_index in 4..(encoded.len() - 4) {
        for bit in 0..8 {
            let mut corrupted = encoded.clone();
            corrupted[byte_index] ^= 1u8 << bit;
            match Chunk::decode(corrupted.as_ref()) {
                Err(ChunkError::ChecksumMismatch { .. }) => {}
                other => panic!("expected a checksum mismatch, got {:?}", other),
            }
        }
    }
}

#[test]
fn test_truncated_chunk_too_short() {
    let chunk = Chunk::new(ChunkType::from_name("RuSt").unwrap(), b"some payload".to_vec());
    let encoded = chunk.as_bytes();
    // Cut the buffer off at every point inside the framing, the payload and
    // the checksum: decode must fail with TooShort, never panic.
    for cut in 0..encoded.len() {
        match Chunk::decode(&encoded[..cut]) {
            Err(ChunkError::TooShort { .. }) => {}
            other => panic!("expected too-short at cut {}, got {:?}", cut, other),
        }
    }
}

#[test]
fn test_data_as_string_rejects_invalid_utf8() {
    let chunk = Chunk::new(ChunkType::from_name("teXt").unwrap(), vec![0xff, 0xfe, 0x41]);
    assert_eq!(chunk.data_as_string(), Err(ChunkError::InvalidText));
}

#[test]
fn test_chunk_from_strings_builds_chunk() {
    let chunk = chunk_from_strings("FrSt", "I am the first chunk").unwrap();
    assert_eq!(chunk.chunk_type().bytes(), *b"FrSt");
    assert_eq!(chunk.data(), b"I am the first chunk");
    assert_eq!(chunk.length(), 20);

    assert_eq!(
        chunk_from_strings("no", "short name").err(),
        Some(ChunkError::InvalidTypeName)
    );
}

#[test]
fn test_empty_payload_chunk() {
    let chunk = Chunk::new(ChunkType::from_name("teXt").unwrap(), Vec::new());
    assert_eq!(chunk.length(), 0);
    let encoded = chunk.as_bytes();
    assert_eq!(encoded.len(), 12);
    let decoded = Chunk::decode(encoded.as_ref()).unwrap();
    assert_eq!(decoded.length(), 0);
    assert_eq!(decoded.data_as_string().unwrap(), "");
}
