use pngme::{Chunk, ChunkError, ChunkType, Png, chunk_from_strings};

fn testing_chunks() -> Vec<Chunk> {
    vec![
        chunk_from_strings("FrSt", "I am the first chunk").unwrap(),
        chunk_from_strings("miDl", "I am another chunk").unwrap(),
        chunk_from_strings("LASt", "I am the last chunk").unwrap(),
    ]
}

fn testing_png() -> Png {
    Png::from_chunks(testing_chunks())
}

#[test]
fn test_standard_header() {
    assert_eq!(Png::standard_header(), [137, 80, 78, 71, 13, 10, 26, 10]);
}

#[test]
fn test_container_round_trip() {
    let png = testing_png();
    let bytes = png.as_bytes();
    let decoded = Png::from_bytes(bytes.as_ref()).unwrap();

    let original = png.chunks();
    let restored = decoded.chunks();
    assert_eq!(original.len(), restored.len());
    for (a, b) in original.iter().zip(restored.iter()) {
        assert_eq!(a.chunk_type().bytes(), b.chunk_type().bytes());
        assert_eq!(a.data(), b.data());
        assert_eq!(a.crc(), b.crc());
    }
    // A second encoding is byte-identical: encoding is a pure read.
    assert_eq!(decoded.as_bytes(), bytes);
}

#[test]
fn test_from_bytes_rejects_bad_signature() {
    let png = testing_png();
    let mut bytes = png.as_bytes();
    bytes[0] = 0;
    assert_eq!(
        Png::from_bytes(bytes.as_ref()).err(),
        Some(ChunkError::BadSignature)
    );
    // A buffer shorter than the signature is also a signature failure.
    assert_eq!(
        Png::from_bytes(&[137, 80, 78]).err(),
        Some(ChunkError::BadSignature)
    );
}

#[test]
fn test_from_bytes_propagates_chunk_errors() {
    let png = testing_png();
    let bytes = png.as_bytes();
    // Cut inside the last chunk: truncation surfaces as TooShort.
    let cut = &bytes[..bytes.len() - 2];
    match Png::from_bytes(cut) {
        Err(ChunkError::TooShort { .. }) => {}
        other => panic!("expected too-short, got {:?}", other),
    }
    // Corrupt one payload byte of the first chunk (offset 8 is its length
    // field, 16 its first payload byte): checksum mismatch.
    let mut corrupted = bytes.clone();
    corrupted[16] ^= 0x01;
    match Png::from_bytes(corrupted.as_ref()) {
        Err(ChunkError::ChecksumMismatch { .. }) => {}
        other => panic!("expected checksum mismatch, got {:?}", other),
    }
}

#[test]
fn test_minimal_container_end_to_end() {
    let chunk = Chunk::new(ChunkType::from_name("teXt").unwrap(), b"hello".to_vec());
    let mut png = Png::from_chunks(vec![chunk]);

    let found = png.chunk_by_type("teXt").expect("chunk should be found");
    assert_eq!(found.data(), b"hello");
    assert_eq!(found.data_as_string().unwrap(), "hello");

    let removed = png.remove_chunk("teXt").expect("chunk should be removed");
    assert_eq!(removed.data(), b"hello");
    assert_eq!(png.chunks().len(), 0);

    // Encoding the now-empty container yields exactly the 8-byte signature.
    assert_eq!(png.as_bytes(), Png::standard_header().to_vec());
}

#[test]
fn test_append_then_remove_keeps_order() {
    let a = chunk_from_strings("FrSt", "I am the first chunk").unwrap();
    let b = chunk_from_strings("miDl", "I am another chunk").unwrap();
    let c = chunk_from_strings("LASt", "I am the last chunk").unwrap();
    let a_bytes = a.as_bytes();
    let c_bytes = c.as_bytes();

    let mut png = Png::from_chunks(Vec::new());
    png.append_chunk(a);
    png.append_chunk(b);
    png.append_chunk(c);

    png.remove_chunk("miDl").unwrap();

    assert_eq!(png.chunks().len(), 2);
    assert_eq!(png.chunks()[0].chunk_type().bytes(), *b"FrSt");
    assert_eq!(png.chunks()[1].chunk_type().bytes(), *b"LASt");

    // Re-encoding preserves that order.
    let mut expected = Png::standard_header().to_vec();
    expected.extend_from_slice(&a_bytes);
    expected.extend_from_slice(&c_bytes);
    assert_eq!(png.as_bytes(), expected);
}

#[test]
fn test_remove_absent_type_not_found() {
    let mut png = testing_png();
    let before = png.as_bytes();
    assert_eq!(png.remove_chunk("TeSt").err(), Some(ChunkError::ChunkNotFound));
    // The container is left unmodified.
    assert_eq!(png.as_bytes(), before);
}

#[test]
fn test_remove_invalid_name() {
    let mut png = testing_png();
    assert_eq!(png.remove_chunk("no").err(), Some(ChunkError::InvalidTypeName));
    assert_eq!(png.chunks().len(), 3);
}

#[test]
fn test_chunk_by_type_finds_first_match() {
    let first = chunk_from_strings("teXt", "first").unwrap();
    let second = chunk_from_strings("teXt", "second").unwrap();
    let png = Png::from_chunks(vec![first, second]);
    let found = png.chunk_by_type("teXt").unwrap();
    assert_eq!(found.data(), b"first");
    assert!(png.chunk_by_type("oTHr").is_none());
    assert!(png.chunk_by_type("not a name").is_none());
}

#[test]
fn test_render_for_display_lists_chunks() {
    let png = Png::from_chunks(vec![
        chunk_from_strings("FrSt", "I am the first chunk").unwrap(),
        chunk_from_strings("teXt", "hello").unwrap(),
    ]);
    let listing = png.render_for_display();
    assert_eq!(listing, "FrSt: 20 bytes\nteXt: 5 bytes\n");
}

#[test]
fn test_decode_empty_container() {
    let png = Png::from_bytes(&Png::standard_header()).unwrap();
    assert_eq!(png.chunks().len(), 0);
    assert_eq!(png.render_for_display(), "");
}
