use tiff_encoder::{
    emit_chain, encode, measure_chain, measure_tree, ByteSink, Directory, StorageMode, ValidationError, ASCII,
    TiffType, TiffTypeValues, BYTE, LONG, RATIONAL, SBYTE, SHORT, SLONG, SRATIONAL, SSHORT, UNDEFINED,
};

fn body(bytes: &[u8]) -> &[u8] {
    &bytes[8..]
}

#[test]
fn single_short_field_big_endian() {
    let mut root = Directory::new();
    root.add_entry(3, SHORT::single(5)).unwrap();
    let bytes = encode(root, true, false).unwrap();
    assert_eq!(&bytes[..8], &[0x4d, 0x4d, 0, 42, 0, 0, 0, 8]);
    assert_eq!(
        body(&bytes),
        &[0, 1, 0, 3, 0, 3, 0, 0, 0, 1, 0, 5, 0, 0, 0, 0, 0, 0][..]
    );
}

#[test]
fn single_short_field_little_endian() {
    let mut root = Directory::new();
    root.add_entry(3, SHORT::single(5)).unwrap();
    let bytes = encode(root, false, false).unwrap();
    assert_eq!(&bytes[..8], &[0x49, 0x49, 42, 0, 8, 0, 0, 0]);
    assert_eq!(
        body(&bytes),
        &[1, 0, 3, 0, 3, 0, 1, 0, 0, 0, 5, 0, 0, 0, 0, 0, 0, 0][..]
    );
}

#[test]
fn four_longs_overflow_after_fixed_block() {
    let mut root = Directory::new();
    root.add_entry(256, LONG::values(&[1, 2, 3, 0x01020304]).unwrap())
        .unwrap();
    let bytes = encode(root, true, false).unwrap();
    let b = body(&bytes);
    // fixed block: 2 + 12 + 4 = 18 bytes at offset 8, overflow at 26.
    assert_eq!(&b[..10], &[0, 1, 1, 0, 0, 4, 0, 0, 0, 4]);
    assert_eq!(&b[10..14], &[0, 0, 0, 26]);
    assert_eq!(&b[14..18], &[0, 0, 0, 0]);
    assert_eq!(&bytes[26..42], &[0, 0, 0, 1, 0, 0, 0, 2, 0, 0, 0, 3, 1, 2, 3, 4]);
    assert_eq!(bytes.len(), 42);
}

#[test]
fn overflow_follows_inline_entries() {
    let mut root = Directory::new();
    root.add_entry(2, RATIONAL::single(72, 1)).unwrap();
    root.add_entry(1, BYTE::single(9)).unwrap();
    let bytes = encode(root, false, false).unwrap();
    // two entries: fixed block 2 + 24 + 4 = 30 bytes from 8, so 38.
    assert_eq!(&bytes[8..10], &[2, 0]);
    assert_eq!(&bytes[10..12], &[1, 0]);
    assert_eq!(&bytes[18..22], &[9, 0, 0, 0]);
    assert_eq!(&bytes[22..24], &[2, 0]);
    assert_eq!(&bytes[24..26], &[5, 0]);
    assert_eq!(&bytes[30..34], &[38, 0, 0, 0]);
    assert_eq!(&bytes[38..46], &[72, 0, 0, 0, 1, 0, 0, 0]);
}

#[test]
fn child_directory_follows_parent_blocks() {
    let mut child = Directory::new();
    child.add_entry(7, SHORT::single(5)).unwrap();
    let mut root = Directory::new();
    root.add_entry(1, SLONG::values(&[-1, 2]).unwrap()).unwrap();
    root.add_child(34665, child).unwrap();
    let bytes = encode(root, true, false).unwrap();
    // root fixed block 30 bytes from 8; its overflow (8 bytes) at 38; child at 46.
    assert_eq!(&bytes[18..22], &[0, 0, 0, 38]);
    assert_eq!(&bytes[22..24], &[0x87, 0x69]);
    assert_eq!(&bytes[24..26], &[0, 13]);
    assert_eq!(&bytes[26..30], &[0, 0, 0, 1]);
    assert_eq!(&bytes[30..34], &[0, 0, 0, 46]);
    assert_eq!(&bytes[38..46], &[0xff, 0xff, 0xff, 0xff, 0, 0, 0, 2]);
    assert_eq!(
        &bytes[46..],
        &[0, 1, 0, 7, 0, 3, 0, 0, 0, 1, 0, 5, 0, 0, 0, 0, 0, 0][..]
    );
}

#[test]
fn next_directory_offset_recorded() {
    let mut second = Directory::new();
    second.add_entry(5, BYTE::single(1)).unwrap();
    let mut root = Directory::new();
    root.add_entry(4, BYTE::single(2)).unwrap();
    root.set_next(second);
    let bytes = encode(root, true, false).unwrap();
    assert_eq!(&bytes[22..26], &[0, 0, 0, 26]);
    assert_eq!(&bytes[26..28], &[0, 1]);
    assert_eq!(&bytes[40..44], &[0, 0, 0, 0]);
    assert_eq!(bytes.len(), 44);
}

#[test]
fn tags_sorted_whatever_insertion_order() {
    let mut root = Directory::new();
    root.add_entry(300, BYTE::single(1)).unwrap();
    root.add_entry(10, BYTE::single(2)).unwrap();
    root.add_entry(200, BYTE::single(3)).unwrap();
    let bytes = encode(root, true, false).unwrap();
    let tags: Vec<u16> = (0..3)
        .map(|i| u16::from_be_bytes([bytes[10 + 12 * i], bytes[11 + 12 * i]]))
        .collect();
    assert_eq!(tags, vec![10, 200, 300]);
}

#[test]
fn duplicate_tag_rejected() {
    let mut root = Directory::new();
    root.add_entry(3, SHORT::single(5)).unwrap();
    assert_eq!(
        root.add_entry(3, SHORT::single(6)),
        Err(ValidationError::DuplicateTag)
    );
    let mut child = Directory::new();
    child.add_entry(1, BYTE::single(0)).unwrap();
    assert_eq!(root.add_child(3, child), Err(ValidationError::DuplicateTag));
    assert_eq!(root.entries.len(), 1);
}

#[test]
fn empty_values_rejected() {
    assert_eq!(BYTE::values(&[]).err(), Some(ValidationError::EmptyValues));
    assert_eq!(SHORT::values(&[]).err(), Some(ValidationError::EmptyValues));
    assert_eq!(LONG::values(&[]).err(), Some(ValidationError::EmptyValues));
    assert_eq!(RATIONAL::values(&[]).err(), Some(ValidationError::EmptyValues));
    assert_eq!(SRATIONAL::values(&[]).err(), Some(ValidationError::EmptyValues));
    assert_eq!(ASCII::values(&[]).err(), Some(ValidationError::EmptyValues));
    assert_eq!(ASCII::from_str("").err(), Some(ValidationError::EmptyValues));
}

#[test]
fn ascii_validation() {
    assert_eq!(ASCII::new(200).err(), Some(ValidationError::NonAscii));
    assert!(ASCII::new(127).is_ok());
    assert_eq!(ASCII::values(&[65, 128]).err(), Some(ValidationError::NonAscii));
    assert_eq!(ASCII::from_str("é").err(), Some(ValidationError::NonAscii));
}

#[test]
fn ascii_gets_nul_terminator() {
    let v = ASCII::from_str("abc").unwrap();
    assert_eq!(v.count(), 4);
    assert_eq!(v.storage_mode(), StorageMode::Inline);
    let mut root = Directory::new();
    root.add_entry(270, v).unwrap();
    let bytes = encode(root, true, false).unwrap();
    assert_eq!(&bytes[18..22], b"abc\0");
    let w = ASCII::values(&[b'h', b'i', 0]).unwrap();
    assert_eq!(w.count(), 3);
}

#[test]
fn value_set_sizes() {
    let v = SSHORT::values(&[1, -2, 3]).unwrap();
    assert_eq!(v.type_id(), 8);
    assert_eq!(v.count(), 3);
    assert_eq!(v.element_size(), 2);
    assert_eq!(v.total_bytes(), 6);
    assert_eq!(v.storage_mode(), StorageMode::Overflow);
    let r = SRATIONAL::values(&[(1, -2)]).unwrap();
    assert_eq!(r.count(), 1);
    assert_eq!(r.element_size(), 8);
    assert_eq!(r.total_bytes(), 8);
    let b = UNDEFINED::values(&[1, 2, 3, 4]).unwrap();
    assert_eq!(b.total_bytes(), 4);
    assert_eq!(b.storage_mode(), StorageMode::Inline);
    assert_eq!(SBYTE::single(-1).type_id(), 6);
}

#[test]
fn signed_values_twos_complement() {
    let mut root = Directory::new();
    root.add_entry(1, SSHORT::single(-2)).unwrap();
    root.add_entry(2, SBYTE::values(&[-1, 1]).unwrap()).unwrap();
    let bytes = encode(root, true, false).unwrap();
    assert_eq!(&bytes[18..22], &[0xff, 0xfe, 0, 0]);
    assert_eq!(&bytes[30..34], &[0xff, 1, 0, 0]);
}

#[test]
fn odd_overflow_padded_when_asked() {
    let mut root = Directory::new();
    root.add_entry(1, BYTE::values(&[1, 2, 3, 4, 5]).unwrap()).unwrap();
    root.add_entry(2, BYTE::values(&[6, 7, 8, 9, 10]).unwrap()).unwrap();
    let padded = encode(root, true, true).unwrap();
    // fixed block 30 bytes from 8: first block at 38, 5 bytes padded to 6.
    assert_eq!(&padded[18..22], &[0, 0, 0, 38]);
    assert_eq!(&padded[30..34], &[0, 0, 0, 44]);
    assert_eq!(padded[43], 0);
    assert_eq!(padded.len(), 50);

    let mut root = Directory::new();
    root.add_entry(1, BYTE::values(&[1, 2, 3, 4, 5]).unwrap()).unwrap();
    root.add_entry(2, BYTE::values(&[6, 7, 8, 9, 10]).unwrap()).unwrap();
    let tight = encode(root, true, false).unwrap();
    assert_eq!(&tight[30..34], &[0, 0, 0, 43]);
    assert_eq!(tight.len(), 48);
}

#[test]
fn measure_matches_emitted_length() {
    let mut child = Directory::new();
    child.add_entry(9, LONG::values(&[1, 2]).unwrap()).unwrap();
    let mut root = Directory::new();
    root.add_entry(1, BYTE::values(&[1, 2, 3, 4, 5]).unwrap()).unwrap();
    root.add_child(2, child).unwrap();
    let size = measure_chain(&root, false).unwrap();
    let sizes = measure_tree(&root, false).unwrap();
    assert_eq!(sizes.total, size);
    assert_eq!(sizes.entries[1].total, 18 + 8);
    let mut sink = ByteSink::new(false);
    sink.write_bytes(&[0, 0, 0, 0, 0, 0, 0, 0]);
    emit_chain(&root, &sizes, &mut sink, false);
    assert_eq!(sink.position(), 8 + size as usize);
    assert_eq!(size, 30 + 5 + 18 + 8);
}

#[test]
fn sink_byte_order() {
    let mut be = ByteSink::new(true);
    be.write_u32(0x01020304);
    be.write_i16(-2);
    be.write_u8(7);
    assert!(be.big_endian());
    assert_eq!(be.into_bytes(), vec![1, 2, 3, 4, 0xff, 0xfe, 7]);
    let mut le = ByteSink::new(false);
    le.write_u32(0x01020304);
    le.write_i32(-1);
    le.write_u16(0x0a0b);
    le.write_i8(-128);
    assert_eq!(le.into_bytes(), vec![4, 3, 2, 1, 0xff, 0xff, 0xff, 0xff, 0x0b, 0x0a, 0x80]);
}

#[test]
fn eight_byte_words_follow_byte_order() {
    let bits: u64 = 0x0102030405060708;
    let mut root = Directory::new();
    root.add_entry(1, TiffTypeValues::new(12, 8, 1, vec![bits]).unwrap())
        .unwrap();
    let be = encode(root, true, false).unwrap();
    assert_eq!(&be[18..22], &[0, 0, 0, 26]);
    assert_eq!(&be[26..34], &[1, 2, 3, 4, 5, 6, 7, 8]);

    let mut root = Directory::new();
    root.add_entry(1, TiffTypeValues::new(12, 8, 1, vec![bits]).unwrap())
        .unwrap();
    let le = encode(root, false, false).unwrap();
    assert_eq!(&le[18..22], &[26, 0, 0, 0]);
    assert_eq!(&le[26..34], &[8, 7, 6, 5, 4, 3, 2, 1]);
}

#[test]
fn value_set_new_rejects_empty() {
    assert_eq!(
        TiffTypeValues::new(4, 4, 1, vec![]).err(),
        Some(ValidationError::EmptyValues)
    );
}

#[test]
fn pointer_type_literal_rejected() {
    assert_eq!(
        TiffTypeValues::new(13, 4, 1, vec![0]).err(),
        Some(ValidationError::PointerPayload)
    );
}

#[test]
fn scalar_write_to_follows_sink_order() {
    let mut be = ByteSink::new(true);
    SHORT(5).write_to(&mut be);
    SRATIONAL { numerator: -1, denominator: 2 }.write_to(&mut be);
    LONG(0x01020304).write_to(&mut be);
    assert_eq!(
        be.into_bytes(),
        vec![0, 5, 0xff, 0xff, 0xff, 0xff, 0, 0, 0, 2, 1, 2, 3, 4]
    );
    let mut le = ByteSink::new(false);
    SHORT(0x1234).write_to(&mut le);
    RATIONAL { numerator: 1, denominator: 2 }.write_to(&mut le);
    SSHORT(-2).write_to(&mut le);
    assert_eq!(
        le.into_bytes(),
        vec![0x34, 0x12, 1, 0, 0, 0, 2, 0, 0, 0, 0xfe, 0xff]
    );
}

#[test]
fn negative_singles_inline_twos_complement() {
    let mut root = Directory::new();
    root.add_entry(1, SBYTE::single(-1)).unwrap();
    root.add_entry(2, SSHORT::single(-2)).unwrap();
    root.add_entry(3, SLONG::single(-2)).unwrap();
    let bytes = encode(root, true, false).unwrap();
    // three records from 10; payloads at 18, 30 and 42.
    assert_eq!(&bytes[18..22], &[0xff, 0, 0, 0]);
    assert_eq!(&bytes[30..34], &[0xff, 0xfe, 0, 0]);
    assert_eq!(&bytes[42..46], &[0xff, 0xff, 0xff, 0xfe]);
}

#[test]
fn signed_sink_writers() {
    let mut be = ByteSink::new(true);
    be.write_i8(-1);
    be.write_i16(-2);
    be.write_i32(-2);
    be.write_i64(-2);
    be.write_i64(i64::MIN);
    assert_eq!(
        be.into_bytes(),
        vec![
            0xff, 0xff, 0xfe, 0xff, 0xff, 0xff, 0xfe, 0xff, 0xff, 0xff, 0xff, 0xff, 0xff, 0xff,
            0xfe, 0x80, 0, 0, 0, 0, 0, 0, 0
        ]
    );
}
