use wireproto::buffer::{Packet, ProtoBuf, ProtoError};
use wireproto::connection::Connection;

/// Encodes a packet with the given id and body into its wire frame.
fn encode(id: u8, body: &[u8]) -> Vec<u8> {
    let mut data = ProtoBuf::new(vec![]);
    for &b in body {
        data.write_u8(b);
    }
    let mut conn = Connection::new();
    conn.write(Packet { id, length: body.len() as u8, data }).unwrap()
}

/// A complete handshake frame: version "1.0.0", compression on, threshold 64.
fn handshake_frame() -> Vec<u8> {
    let mut data = ProtoBuf::new(vec![]);
    data.write_string(String::from("1.0.0")).unwrap();
    data.write_bool(true);
    data.write_i64(64);
    let length = data.written_bytes().len() as u8;
    let mut conn = Connection::new();
    conn.write(Packet { id: 0x00, length, data }).unwrap()
}

#[test]
fn round_trip_preserves_id_length_and_body() {
    let body = vec![10, 20, 30];
    let frame = encode(7, &body);
    assert_eq!(frame, vec![3, 7, 10, 20, 30]);

    let mut pb = ProtoBuf::new(frame);
    let length = pb.read_u8().unwrap();
    let id = pb.read_u8().unwrap();
    let decoded = pb.get_sized_vec(length as usize).unwrap();
    assert_eq!(length, 3);
    assert_eq!(id, 7);
    assert_eq!(decoded, body);
    assert_eq!(pb.remaining(), 0);
}

#[test]
fn round_trip_largest_body() {
    let body: Vec<u8> = (0..=254).collect();
    let frame = encode(0xFE, &body);
    assert_eq!(frame.len(), 257);

    let mut pb = ProtoBuf::new(frame);
    let length = pb.read_u8().unwrap();
    let id = pb.read_u8().unwrap();
    let decoded = pb.get_sized_vec(length as usize).unwrap();
    assert_eq!((length, id), (255, 0xFE));
    assert_eq!(decoded, body);
}

#[test]
fn empty_body_frame_is_length_then_id() {
    assert_eq!(encode(0x01, &[]), vec![0x00, 0x01]);
}

#[test]
fn oversize_body_is_rejected() {
    let mut data = ProtoBuf::new(vec![]);
    for _ in 0..256 {
        data.write_u8(0);
    }
    let mut conn = Connection::new();
    let r = conn.write(Packet { id: 2, length: 0, data });
    assert_eq!(r, Err(ProtoError::Oversize));
}

#[test]
fn handshake_earns_one_empty_reply() {
    let frame = handshake_frame();
    let mut conn = Connection::new();
    let replies = conn.extend_buffer(&frame);
    assert_eq!(replies, vec![vec![0x00, 0x01]]);
}

#[test]
fn two_back_to_back_frames_are_both_dispatched() {
    let mut feed = handshake_frame();
    feed.extend_from_slice(&handshake_frame());
    let mut conn = Connection::new();
    let replies = conn.extend_buffer(&feed);
    assert_eq!(replies, vec![vec![0x00, 0x01], vec![0x00, 0x01]]);
}

#[test]
fn chunked_delivery_matches_single_feed() {
    let frame = handshake_frame();
    // Every split into two chunks.
    for cut in 1..frame.len() {
        let mut conn = Connection::new();
        let first = conn.extend_buffer(&frame[..cut]);
        assert_eq!(first, Vec::<Vec<u8>>::new());
        let second = conn.extend_buffer(&frame[cut..]);
        assert_eq!(second, vec![vec![0x00, 0x01]]);
    }
    // One byte at a time.
    let mut conn = Connection::new();
    let mut all: Vec<Vec<u8>> = Vec::new();
    for &b in &frame {
        all.extend(conn.extend_buffer(&[b]));
    }
    assert_eq!(all, vec![vec![0x00, 0x01]]);
}

#[test]
fn sentinel_stops_framing_and_keeps_later_bytes() {
    let mut feed = handshake_frame();
    feed.push(0x00);
    feed.extend_from_slice(&handshake_frame());

    let mut conn = Connection::new();
    // Only the frame before the sentinel is dispatched on this pass.
    let first = conn.extend_buffer(&feed);
    assert_eq!(first, vec![vec![0x00, 0x01]]);
    // The bytes after the sentinel were kept buffered, untouched.
    let second = conn.extend_buffer(&[]);
    assert_eq!(second, vec![vec![0x00, 0x01]]);
}

#[test]
fn sentinel_alone_is_not_a_packet() {
    let mut conn = Connection::new();
    let replies = conn.extend_buffer(&[0x00]);
    assert_eq!(replies, Vec::<Vec<u8>>::new());
}

#[test]
fn unknown_id_is_skipped_not_fatal() {
    let mut feed = encode(9, &[1, 2, 3]);
    feed.extend_from_slice(&handshake_frame());
    let mut conn = Connection::new();
    let replies = conn.extend_buffer(&feed);
    // The unknown packet earns no reply; the handshake after it still does.
    assert_eq!(replies, vec![vec![0x00, 0x01]]);
}

#[test]
fn malformed_handshake_is_skipped_not_fatal() {
    // The body's string length byte promises more bytes than the body holds.
    let mut feed = encode(0x00, &[5, b'h', b'i']);
    feed.extend_from_slice(&handshake_frame());
    let mut conn = Connection::new();
    let replies = conn.extend_buffer(&feed);
    assert_eq!(replies, vec![vec![0x00, 0x01]]);
}

#[test]
fn invalid_utf8_handshake_is_skipped() {
    // string [0x80] is not UTF-8; then a bool byte and eight i64 bytes.
    let body = vec![0x01, 0x80, 0x01, 0, 0, 0, 0, 0, 0, 0, 64];
    let frame = encode(0x00, &body);
    let mut conn = Connection::new();
    let replies = conn.extend_buffer(&frame);
    assert_eq!(replies, Vec::<Vec<u8>>::new());
}

#[test]
fn truncated_handshake_body_is_skipped() {
    // A valid string but too few bytes for the flag and threshold.
    let body = vec![0x02, b'o', b'k', 0x01];
    let frame = encode(0x00, &body);
    let mut conn = Connection::new();
    let replies = conn.extend_buffer(&frame);
    assert_eq!(replies, Vec::<Vec<u8>>::new());
}
