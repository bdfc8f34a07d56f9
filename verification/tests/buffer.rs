use wireproto::buffer::{ProtoBuf, ProtoError};

#[test]
fn read_u8_consumes_in_order() {
    let mut pb = ProtoBuf::new(vec![1, 2]);
    assert_eq!(pb.remaining(), 2);
    assert_eq!(pb.read_u8(), Ok(1));
    assert_eq!(pb.read_u8(), Ok(2));
    assert_eq!(pb.read_u8(), Err(ProtoError::Underflow));
}

#[test]
fn extend_appends_to_unread_tail() {
    let mut pb = ProtoBuf::new(vec![10]);
    assert_eq!(pb.read_u8(), Ok(10));
    pb.extend(&[20, 30]);
    assert_eq!(pb.read_u8(), Ok(20));
    assert_eq!(pb.read_u8(), Ok(30));
    assert_eq!(pb.read_u8(), Err(ProtoError::Underflow));
}

#[test]
fn write_u8_appends_to_write_buffer() {
    let mut pb = ProtoBuf::new(vec![1]);
    pb.write_u8(9);
    pb.write_u8(8);
    assert_eq!(pb.written_bytes(), &vec![9, 8]);
    // The read cursor is untouched by writes.
    assert_eq!(pb.read_u8(), Ok(1));
}

#[test]
fn string_field_encoding() {
    let mut pb = ProtoBuf::new(vec![]);
    pb.write_string(String::from("1.0.0")).unwrap();
    assert_eq!(pb.written_bytes(), &vec![0x05, b'1', b'.', b'0', b'.', b'0']);

    let mut back = ProtoBuf::new(vec![0x05, b'1', b'.', b'0', b'.', b'0']);
    assert_eq!(back.read_string(), Ok(String::from("1.0.0")));
    assert_eq!(back.remaining(), 0);
}

#[test]
fn string_encoding_counts_utf8_bytes() {
    let mut pb = ProtoBuf::new(vec![]);
    pb.write_string(String::from("\u{e9}")).unwrap();
    assert_eq!(pb.written_bytes(), &vec![0x02, 0xC3, 0xA9]);
    let mut back = ProtoBuf::new(vec![0x02, 0xC3, 0xA9]);
    assert_eq!(back.read_string(), Ok(String::from("\u{e9}")));
}

#[test]
fn string_decoding_errors() {
    // Not valid UTF-8.
    let mut pb = ProtoBuf::new(vec![0x01, 0x80]);
    assert_eq!(pb.read_string(), Err(ProtoError::Decode));
    // A failed read consumes nothing.
    assert_eq!(pb.remaining(), 2);

    // The length byte promises more bytes than are present.
    let mut pb = ProtoBuf::new(vec![0x02, b'a']);
    assert_eq!(pb.read_string(), Err(ProtoError::Underflow));
    assert_eq!(pb.remaining(), 2);

    // Nothing at all.
    let mut pb = ProtoBuf::new(vec![]);
    assert_eq!(pb.read_string(), Err(ProtoError::Underflow));
}

#[test]
fn oversize_string_is_rejected_and_buffer_untouched() {
    let mut pb = ProtoBuf::new(vec![]);
    pb.write_u8(7);
    let long = "a".repeat(256);
    assert_eq!(pb.write_string(long), Err(ProtoError::Oversize));
    assert_eq!(pb.written_bytes(), &vec![7]);
}

#[test]
fn longest_string_fits() {
    let mut pb = ProtoBuf::new(vec![]);
    let longest = "b".repeat(255);
    pb.write_string(longest.clone()).unwrap();
    assert_eq!(pb.written_bytes().len(), 256);
    assert_eq!(pb.written_bytes()[0], 255);

    let mut back = ProtoBuf::new(pb.written_bytes().clone());
    assert_eq!(back.read_string(), Ok(longest));
}

#[test]
fn bool_field_encoding() {
    let mut pb = ProtoBuf::new(vec![]);
    pb.write_bool(true);
    pb.write_bool(false);
    assert_eq!(pb.written_bytes(), &vec![0x01, 0x00]);

    let mut back = ProtoBuf::new(vec![0x01, 0x00, 0x02]);
    assert_eq!(back.read_bool(), Ok(true));
    assert_eq!(back.read_bool(), Ok(false));
    // Out-of-range values are false, not an error.
    assert_eq!(back.read_bool(), Ok(false));
    assert_eq!(back.read_bool(), Err(ProtoError::Underflow));
}

#[test]
fn i64_field_encoding_is_big_endian() {
    let mut pb = ProtoBuf::new(vec![]);
    pb.write_i64(64);
    assert_eq!(pb.written_bytes(), &vec![0, 0, 0, 0, 0, 0, 0, 64]);

    let mut pb = ProtoBuf::new(vec![]);
    pb.write_i64(-1);
    assert_eq!(pb.written_bytes(), &vec![0xFF; 8]);

    let mut pb = ProtoBuf::new(vec![]);
    pb.write_i64(0x0102030405060708);
    assert_eq!(pb.written_bytes(), &vec![1, 2, 3, 4, 5, 6, 7, 8]);
}

#[test]
fn i64_round_trips() {
    for value in [0i64, 1, -1, 64, -2, i64::MAX, i64::MIN, 123456789012345] {
        let mut pb = ProtoBuf::new(vec![]);
        pb.write_i64(value);
        let mut back = ProtoBuf::new(pb.written_bytes().clone());
        assert_eq!(back.read_i64(), Ok(value));
        assert_eq!(back.remaining(), 0);
    }
}

#[test]
fn i64_underflow_consumes_nothing() {
    let mut pb = ProtoBuf::new(vec![1, 2, 3, 4, 5, 6, 7]);
    assert_eq!(pb.read_i64(), Err(ProtoError::Underflow));
    assert_eq!(pb.remaining(), 7);
}

#[test]
fn get_sized_vec_takes_exact_bytes() {
    let mut pb = ProtoBuf::new(vec![1, 2, 3, 4, 5]);
    assert_eq!(pb.get_sized_vec(3), Ok(vec![1, 2, 3]));
    assert_eq!(pb.get_sized_vec(3), Err(ProtoError::Underflow));
    // The failed request consumed nothing.
    assert_eq!(pb.get_sized_vec(2), Ok(vec![4, 5]));
}

#[test]
fn get_sized_protobuf_decodes_independently() {
    let mut pb = ProtoBuf::new(vec![0x01, 0x00, 0x00, 0x00, 0x00, 0x00, 0x00, 0x00, 0x2A, 0x09]);
    let mut inner = pb.get_sized_protobuf(9).unwrap();
    assert_eq!(inner.read_bool(), Ok(true));
    assert_eq!(inner.read_i64(), Ok(42));
    // The parent cursor advanced past the extracted bytes only.
    assert_eq!(pb.read_u8(), Ok(0x09));
}

#[test]
fn write_all_composes_write_buffers() {
    let mut inner = ProtoBuf::new(vec![]);
    inner.write_u8(0xAA);
    inner.write_u8(0xBB);
    let mut outer = ProtoBuf::new(vec![]);
    outer.write_u8(0x01);
    outer.write_all(inner);
    assert_eq!(outer.written_bytes(), &vec![0x01, 0xAA, 0xBB]);
}
