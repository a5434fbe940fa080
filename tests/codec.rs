use doosknet::{
    deserialize_all, deserialize_packet, serialize_packet, Decoded, NetworkBuffer, Packet,
    MAX_BUFFER_SIZE,
};
use std::collections::VecDeque;

fn expect_packet(d: Decoded) -> Packet {
    match d {
        Decoded::Packet(p) => p,
        other => panic!("expected a packet, got {:?}", other),
    }
}

fn buffer_with(bytes: &[u8]) -> NetworkBuffer {
    let mut b = NetworkBuffer::new();
    assert!(b.append(bytes));
    b
}

#[test]
fn welcome_frame_layout_and_round_trip() {
    let p = Packet::new("SERVER", "Welcome to Rustychat!");
    let frame = serialize_packet(p);
    let body_len = 8 + 6 + 8 + 21;
    assert_eq!(frame.len(), 8 + body_len);
    assert_eq!(&frame[..8], &[0, 0, 0, 0, 0, 0, 0, body_len as u8]);
    let mut expected_body: Vec<u8> = vec![6, 0, 0, 0, 0, 0, 0, 0];
    expected_body.extend_from_slice(b"SERVER");
    expected_body.extend_from_slice(&[21, 0, 0, 0, 0, 0, 0, 0]);
    expected_body.extend_from_slice(b"Welcome to Rustychat!");
    assert_eq!(&frame[8..], &expected_body[..]);

    let mut buffer = buffer_with(&frame);
    let q = expect_packet(deserialize_packet(&mut buffer));
    assert_eq!(q.sender, "SERVER");
    assert_eq!(q.message, "Welcome to Rustychat!");
    assert_eq!(buffer.filled(), 0);
}

#[test]
fn round_trip_various_packets() {
    let cases = [("", ""), ("Bob", "hi"), ("Jeb", "héllo wörld ✓"), ("Mitch", "")];
    for (s, m) in cases.iter() {
        let frame = serialize_packet(Packet::new(s, m));
        let mut buffer = buffer_with(&frame);
        let q = expect_packet(deserialize_packet(&mut buffer));
        assert_eq!(q.sender, *s);
        assert_eq!(q.message, *m);
        assert_eq!(buffer.filled(), 0);
    }
}

#[test]
fn largest_packet_that_fits() {
    let message = "x".repeat(255 - 16 - 3);
    let p = Packet::new("Bob", &message);
    assert!(p.fits());
    let frame = serialize_packet(p);
    assert_eq!(frame.len(), 8 + 255);
    let mut buffer = buffer_with(&frame);
    let q = expect_packet(deserialize_packet(&mut buffer));
    assert_eq!(q.message, message);
    let too_long = Packet::new("Bob", &"x".repeat(256 - 16 - 3));
    assert!(!too_long.fits());
}

#[test]
fn batched_frames_decode_in_order() {
    let mut bytes = Vec::new();
    for (s, m) in [("Bob", "one"), ("Bill", "two"), ("Jim", "three")].iter() {
        bytes.extend(serialize_packet(Packet::new(s, m)));
    }
    let mut buffer = buffer_with(&bytes);
    let mut incoming = VecDeque::new();
    assert!(deserialize_all(&mut buffer, &mut incoming));
    let got: Vec<(String, String)> =
        incoming.into_iter().map(|p| (p.sender, p.message)).collect();
    assert_eq!(
        got,
        vec![
            ("Bob".to_string(), "one".to_string()),
            ("Bill".to_string(), "two".to_string()),
            ("Jim".to_string(), "three".to_string()),
        ]
    );
    assert_eq!(buffer.filled(), 0);
}

#[test]
fn partial_trailing_frame_is_kept() {
    let mut bytes = serialize_packet(Packet::new("Bob", "whole"));
    let next = serialize_packet(Packet::new("Bill", "partial"));
    bytes.extend_from_slice(&next[..5]);
    let mut buffer = buffer_with(&bytes);
    let mut incoming = VecDeque::new();
    assert!(deserialize_all(&mut buffer, &mut incoming));
    assert_eq!(incoming.len(), 1);
    assert_eq!(incoming[0].message, "whole");
    assert_eq!(buffer.as_slice(), &next[..5]);

    // the rest of the frame arrives later and completes it
    assert!(buffer.append(&next[5..]));
    let q = expect_packet(deserialize_packet(&mut buffer));
    assert_eq!(q.sender, "Bill");
    assert_eq!(q.message, "partial");
    assert_eq!(buffer.filled(), 0);
}

#[test]
fn partial_body_needs_more_data() {
    let frame = serialize_packet(Packet::new("Bob", "hello"));
    let mut buffer = buffer_with(&frame[..frame.len() - 1]);
    assert!(matches!(deserialize_packet(&mut buffer), Decoded::NeedMoreData));
    assert_eq!(buffer.as_slice(), &frame[..frame.len() - 1]);
}

#[test]
fn short_header_needs_more_data() {
    let mut buffer = buffer_with(&[0, 0, 0]);
    assert!(matches!(deserialize_packet(&mut buffer), Decoded::NeedMoreData));
    assert_eq!(buffer.filled(), 3);
    let mut empty = NetworkBuffer::new();
    assert!(matches!(deserialize_packet(&mut empty), Decoded::NeedMoreData));
}

#[test]
fn oversize_header_is_a_protocol_violation() {
    let header = [0u8, 0, 0, 0, 0, 0, 1, 0];
    let mut buffer = buffer_with(&header);
    assert!(matches!(deserialize_packet(&mut buffer), Decoded::ProtocolViolation));
    assert_eq!(buffer.as_slice(), &header);
    let huge = [0xffu8; 8];
    let mut buffer = buffer_with(&huge);
    let mut incoming = VecDeque::new();
    assert!(!deserialize_all(&mut buffer, &mut incoming));
    assert!(incoming.is_empty());
}

#[test]
fn malformed_body_is_a_protocol_violation() {
    // declares a sender of 2 bytes that are not UTF-8
    let mut bytes = vec![0, 0, 0, 0, 0, 0, 0, 18];
    bytes.extend_from_slice(&[2, 0, 0, 0, 0, 0, 0, 0, 0xff, 0xfe]);
    bytes.extend_from_slice(&[0, 0, 0, 0, 0, 0, 0, 0]);
    let mut buffer = buffer_with(&bytes);
    assert!(matches!(deserialize_packet(&mut buffer), Decoded::ProtocolViolation));
}

#[test]
fn body_with_trailing_bytes_is_a_protocol_violation() {
    let frame = serialize_packet(Packet::new("Bob", "hi"));
    let mut bytes = frame.clone();
    bytes[7] += 1;
    bytes.push(0);
    let mut buffer = buffer_with(&bytes);
    assert!(matches!(deserialize_packet(&mut buffer), Decoded::ProtocolViolation));
}

#[test]
fn buffer_append_drain_clear() {
    let mut b = NetworkBuffer::new();
    assert_eq!(b.filled(), 0);
    assert!(b.append(&[1, 2, 3, 4, 5]));
    b.drain(2);
    assert_eq!(b.as_slice(), &[3, 4, 5]);
    assert!(b.append(&[6]));
    assert_eq!(b.as_slice(), &[3, 4, 5, 6]);
    b.clear();
    assert_eq!(b.filled(), 0);
}

#[test]
fn buffer_rejects_overflow() {
    let mut b = NetworkBuffer::new();
    assert!(b.append(&vec![7u8; MAX_BUFFER_SIZE - 1]));
    assert!(!b.append(&[1, 2]));
    assert_eq!(b.filled(), MAX_BUFFER_SIZE - 1);
    assert!(b.append(&[1]));
    assert_eq!(b.filled(), MAX_BUFFER_SIZE);
    assert!(!b.append(&[1]));
}

#[test]
fn packet_clone_keeps_fields() {
    let p = Packet::new("Deboe", "copy me");
    let q = p.clone();
    assert_eq!(q.sender, "Deboe");
    assert_eq!(q.message, "copy me");
}
