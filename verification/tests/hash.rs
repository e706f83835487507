use nxs::hash::murmur3_64;

#[test]
fn murmur3_known_values() {
    assert_eq!(murmur3_64(b""), 0);
    assert_eq!(murmur3_64(b"hello"), 0xcbd8a7b341bd9b02);
    assert_eq!(
        murmur3_64(b"The quick brown fox jumps over the lazy dog"),
        0xe34bbc7bbc071b6c
    );
}

#[test]
fn murmur3_of_a_schema_header() {
    let mut hdr = Vec::new();
    hdr.extend_from_slice(&3u16.to_le_bytes());
    hdr.extend_from_slice(&[0x3D, 0x3F, 0x22]);
    hdr.extend_from_slice(b"id\0active\0name\0");
    assert_eq!(murmur3_64(&hdr), 0x42b901bfae858705);
}
