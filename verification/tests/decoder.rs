use nxs::decoder::{decode, read_tail_index, DecodedValue};
use nxs::error::NxsError;

fn push_u16(v: &mut Vec<u8>, x: u16) {
    v.extend_from_slice(&x.to_le_bytes());
}
fn push_u32(v: &mut Vec<u8>, x: u32) {
    v.extend_from_slice(&x.to_le_bytes());
}
fn push_u64(v: &mut Vec<u8>, x: u64) {
    v.extend_from_slice(&x.to_le_bytes());
}

/// The format's worked example: `user { id: =1024 active: ?true name: "Alex" }`.
fn worked_example() -> Vec<u8> {
    let mut v = Vec::new();
    push_u32(&mut v, 0x4E585342);
    push_u16(&mut v, 0x0100);
    push_u16(&mut v, 0x0002);
    push_u64(&mut v, 0x1122334455667788);
    push_u64(&mut v, 100);
    push_u64(&mut v, 0);
    push_u16(&mut v, 3);
    v.extend_from_slice(&[0x3D, 0x3F, 0x22]);
    v.extend_from_slice(b"id\0active\0name\0");
    while v.len() % 8 != 0 {
        v.push(0);
    }
    assert_eq!(v.len(), 56);
    push_u32(&mut v, 0x4E58534F);
    push_u32(&mut v, 44);
    v.push(0x07);
    push_u16(&mut v, 0x10);
    push_u16(&mut v, 0x18);
    push_u16(&mut v, 0x20);
    v.push(0);
    assert_eq!(v.len(), 72);
    push_u64(&mut v, 1024);
    v.push(1);
    v.extend_from_slice(&[0; 7]);
    push_u32(&mut v, 4);
    v.extend_from_slice(b"Alex");
    assert_eq!(v.len(), 96);
    v.extend_from_slice(&[0; 4]);
    assert_eq!(v.len(), 100);
    push_u32(&mut v, 1);
    push_u16(&mut v, 0);
    push_u64(&mut v, 56);
    push_u32(&mut v, 100);
    push_u32(&mut v, 0x2153584E);
    v
}

#[test]
fn decodes_worked_example_preamble() {
    let d = decode(&worked_example()).unwrap();
    assert_eq!(d.version, 0x0100);
    assert_eq!(d.flags, 2);
    assert_eq!(d.dict_hash, 0x1122334455667788);
    assert_eq!(d.tail_ptr, 100);
    assert_eq!(d.keys, vec!["id".to_string(), "active".to_string(), "name".to_string()]);
}

#[test]
fn decodes_worked_example_root_fields() {
    let d = decode(&worked_example()).unwrap();
    assert_eq!(d.root_fields.len(), 3);
    assert_eq!(d.root_fields[0].0, "id");
    // Each cell is read by its key's sigil in the TypeManifest (`=`, `?`, `"`).
    assert!(matches!(d.root_fields[0].1, DecodedValue::Int(1024)));
    assert_eq!(d.root_fields[1].0, "active");
    assert!(matches!(d.root_fields[1].1, DecodedValue::Bool(true)));
    assert_eq!(d.root_fields[2].0, "name");
    assert!(matches!(&d.root_fields[2].1, DecodedValue::Str(s) if s == "Alex"));
    assert_eq!(d.sigils, vec![0x3D, 0x3F, 0x22]);
}

#[test]
fn an_int64_zero_is_not_null() {
    let mut data = worked_example();
    data[72..80].copy_from_slice(&0i64.to_le_bytes());
    let d = decode(&data).unwrap();
    assert!(matches!(d.root_fields[0].1, DecodedValue::Int(0)));
    data[72..80].copy_from_slice(&256i64.to_le_bytes());
    let d = decode(&data).unwrap();
    assert!(matches!(d.root_fields[0].1, DecodedValue::Int(256)));
}

#[test]
fn cells_follow_other_sigils() {
    let mut data = worked_example();
    // id as Time, active as Null, name as Binary
    data[34] = 0x40;
    data[35] = 0x5E;
    data[36] = 0x3C;
    let d = decode(&data).unwrap();
    assert!(matches!(d.root_fields[0].1, DecodedValue::Time(1024)));
    assert!(matches!(d.root_fields[1].1, DecodedValue::Null));
    assert!(matches!(&d.root_fields[2].1, DecodedValue::Binary(b) if b == b"Alex"));
    // id as a float bit pattern
    data[34] = 0x7E;
    let d = decode(&data).unwrap();
    assert!(matches!(d.root_fields[0].1, DecodedValue::Float(1024)));
}

#[test]
fn string_length_past_the_end_is_out_of_bounds() {
    let mut data = worked_example();
    data[88..92].copy_from_slice(&1000u32.to_le_bytes());
    assert!(matches!(decode(&data), Err(NxsError::OutOfBounds)));
}

#[test]
fn jumbo_offsets_are_u32() {
    // the worked example rewritten with flag bit 0 and u32 offsets
    let mut v = worked_example();
    v[6] = 0x03;
    // object at 56: magic, length, mask at 64, table at 65 (3 x u32), cells
    let mut obj = Vec::new();
    push_u32(&mut obj, 0x4E58534F);
    push_u32(&mut obj, 48);
    obj.push(0x07);
    push_u32(&mut obj, 24);
    push_u32(&mut obj, 32);
    push_u32(&mut obj, 40);
    obj.extend_from_slice(&[0; 3]);
    push_u64(&mut obj, 1024);
    obj.push(1);
    obj.extend_from_slice(&[0; 7]);
    push_u32(&mut obj, 4);
    obj.extend_from_slice(b"Alex");
    let mut data = v[..56].to_vec();
    data.extend_from_slice(&obj);
    push_u32(&mut data, 0x2153584E);
    let d = decode(&data).unwrap();
    assert!(matches!(d.root_fields[0].1, DecodedValue::Int(1024)));
    assert!(matches!(d.root_fields[1].1, DecodedValue::Bool(true)));
    assert!(matches!(&d.root_fields[2].1, DecodedValue::Str(s) if s == "Alex"));
}

#[test]
fn tail_index_lists_the_record() {
    let data = worked_example();
    let t = read_tail_index(&data, 100).unwrap();
    assert_eq!(t, vec![(0u16, 56u64)]);
    assert_eq!(read_tail_index(&data, 200), Err(NxsError::OutOfBounds));
    assert_eq!(read_tail_index(&data, 119), Err(NxsError::OutOfBounds));
}

#[test]
fn short_buffer_is_out_of_bounds() {
    assert!(matches!(decode(&[0u8; 31]), Err(NxsError::OutOfBounds)));
    assert!(matches!(decode(&[]), Err(NxsError::OutOfBounds)));
}

#[test]
fn wrong_magic_is_bad_magic() {
    let mut data = worked_example();
    data[0] = 0;
    assert!(matches!(decode(&data), Err(NxsError::BadMagic)));
    let mut data = worked_example();
    let n = data.len();
    data[n - 1] = 0;
    assert!(matches!(decode(&data), Err(NxsError::BadMagic)));
}

#[test]
fn wrong_object_magic_is_bad_magic() {
    let mut data = worked_example();
    data[56] = 0;
    assert!(matches!(decode(&data), Err(NxsError::BadMagic)));
}

/// A preamble with the schema flag, then no room for the key count.
#[test]
fn truncated_schema_header_is_out_of_bounds() {
    let mut v = vec![0u8; 33];
    v[0..4].copy_from_slice(&0x4E585342u32.to_le_bytes());
    v[6..8].copy_from_slice(&0x0002u16.to_le_bytes());
    v[29..33].copy_from_slice(&0x2153584Eu32.to_le_bytes());
    assert!(matches!(decode(&v), Err(NxsError::OutOfBounds)));
}

/// A string pool that promises more names than the buffer holds.
#[test]
fn overlong_key_pool_is_out_of_bounds() {
    let mut v = Vec::new();
    push_u32(&mut v, 0x4E585342);
    push_u16(&mut v, 0x0100);
    push_u16(&mut v, 0x0002);
    push_u64(&mut v, 0);
    push_u64(&mut v, 0);
    push_u64(&mut v, 0);
    push_u16(&mut v, 60);
    v.extend_from_slice(&[0x3D; 4]);
    push_u32(&mut v, 0x2153584E);
    assert!(matches!(decode(&v), Err(NxsError::OutOfBounds)));
}

/// No schema header: keys are named by their bit index; a zero byte reads as
/// Null, a nested object header as raw bytes, a short tail as raw bytes.
#[test]
fn values_without_schema() {
    let mut v = Vec::new();
    push_u32(&mut v, 0x4E585342);
    push_u16(&mut v, 0x0100);
    push_u16(&mut v, 0x0000);
    push_u64(&mut v, 0);
    push_u64(&mut v, 0);
    push_u64(&mut v, 0);
    // object at 32: bits 0, 2 and 8 present (two mask bytes)
    push_u32(&mut v, 0x4E58534F);
    push_u32(&mut v, 0);
    v.push(0x85); // bits 0 and 2, continuation
    v.push(0x02); // bit 8 (second byte, bit 1)
    push_u16(&mut v, 16);
    push_u16(&mut v, 17);
    push_u16(&mut v, 25);
    v.push(0); // Null at 48
    push_u32(&mut v, 0x4E58534F); // nested object header at 49
    push_u32(&mut v, 8);
    // value at 57: three bytes then the footer
    v.extend_from_slice(&[9, 8, 7]);
    push_u32(&mut v, 0x2153584E);
    let d = decode(&v).unwrap();
    assert!(d.keys.is_empty());
    assert_eq!(d.root_fields.len(), 3);
    assert_eq!(d.root_fields[0].0, "key_0");
    assert!(matches!(d.root_fields[0].1, DecodedValue::Null));
    assert_eq!(d.root_fields[1].0, "key_2");
    match &d.root_fields[1].1 {
        DecodedValue::Raw(b) => assert_eq!(b, &vec![0x4F, 0x53, 0x58, 0x4E, 8, 0, 0, 0]),
        other => panic!("unexpected {:?}", other),
    }
    assert_eq!(d.root_fields[2].0, "key_8");
    match &d.root_fields[2].1 {
        DecodedValue::Raw(b) => assert_eq!(b, &vec![9, 8, 7, 0x4E, 0x58, 0x53, 0x21]),
        other => panic!("unexpected {:?}", other),
    }
}

#[test]
fn offset_past_the_end_is_out_of_bounds() {
    let mut data = worked_example();
    // point the third field far past the end
    data[56 + 9 + 4] = 0xFF;
    data[56 + 9 + 5] = 0xFF;
    assert!(matches!(decode(&data), Err(NxsError::OutOfBounds)));
}

#[test]
fn mask_running_off_the_buffer_is_out_of_bounds() {
    let mut v = Vec::new();
    push_u32(&mut v, 0x4E585342);
    push_u16(&mut v, 0x0100);
    push_u16(&mut v, 0);
    v.extend_from_slice(&[0; 24]);
    push_u32(&mut v, 0x4E58534F);
    push_u32(&mut v, 0);
    v.extend_from_slice(&[0xFF, 0xFF, 0xFF, 0xFF]);
    push_u32(&mut v, 0x2153584E);
    // The mask runs into the footer, whose first byte (0x4E) ends it: 28 + 4
    // present keys would need a 64-byte offset table.
    assert!(matches!(decode(&v), Err(NxsError::OutOfBounds)));
}

#[test]
fn integers_with_a_nonzero_low_byte() {
    let mut data = worked_example();
    data[72..80].copy_from_slice(&1025i64.to_le_bytes());
    let d = decode(&data).unwrap();
    assert!(matches!(d.root_fields[0].1, DecodedValue::Int(1025)));
}

#[test]
fn negative_integers_read_as_twos_complement() {
    let mut data = worked_example();
    data[72..80].copy_from_slice(&(-5i64).to_le_bytes());
    let d = decode(&data).unwrap();
    assert!(matches!(d.root_fields[0].1, DecodedValue::Int(-5)));
}

#[test]
fn invalid_utf8_key_names_are_replaced() {
    let mut data = worked_example();
    data[37] = 0xFF; // first byte of "id"
    let d = decode(&data).unwrap();
    assert_eq!(d.keys[0], "\u{FFFD}d");
}
