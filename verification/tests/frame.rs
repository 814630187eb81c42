//! WebSocket framing.
use pylon::transport::buffer::Buffer;
use pylon::transport::frame::{encode, encode_text, parse, Frame, OpCode, ParseError};

const MASK: [u8; 4] = [0x37, 0xfa, 0x21, 0x3d];

fn buffer(bytes: &[u8]) -> Buffer {
    let mut b = Buffer::new();
    b.extend_from_slice(bytes);
    b
}

/// A masked client frame.
fn client(first: u8, payload: &[u8]) -> Vec<u8> {
    let mut out = vec![first];
    if payload.len() < 126 {
        out.push(0x80 | payload.len() as u8);
    } else if payload.len() < 65536 {
        out.push(0x80 | 126);
        out.extend_from_slice(&(payload.len() as u16).to_be_bytes());
    } else {
        out.push(0x80 | 127);
        out.extend_from_slice(&(payload.len() as u64).to_be_bytes());
    }
    out.extend_from_slice(&MASK);
    for (i, b) in payload.iter().enumerate() {
        out.push(b ^ MASK[i % 4]);
    }
    out
}

#[test]
fn a_masked_text_frame_is_unmasked() {
    let mut buf = buffer(&[
        0x81, 0x85, 0x37, 0xfa, 0x21, 0x3d, 0x7f, 0x9f, 0x4d, 0x51, 0x58,
    ]);
    assert_eq!(
        parse(&mut buf, 100),
        Ok(Frame {
            fin: true,
            opcode: OpCode::Text,
            payload: b"Hello".to_vec(),
        })
    );
    assert!(buf.is_empty());
}

#[test]
fn what_follows_a_frame_stays_in_the_buffer() {
    let mut buf = buffer(&client(0x89, b"a"));
    buf.extend_from_slice(&[1, 2, 3]);
    assert_eq!(parse(&mut buf, 100).unwrap().opcode, OpCode::Ping);
    assert_eq!(buf.as_slice(), &[1, 2, 3]);
}

#[test]
fn every_length_form_is_read() {
    for n in [0usize, 125, 126, 65535, 65536] {
        let payload = vec![b'z'; n];
        let mut buf = buffer(&client(0x02, &payload));
        let f = parse(&mut buf, 1 << 20).unwrap();
        assert!(!f.fin);
        assert_eq!(f.opcode, OpCode::Binary);
        assert_eq!(f.payload, payload);
    }
}

#[test]
fn a_frame_that_is_cut_short_is_incomplete() {
    let whole = client(0x81, &vec![b'q'; 200]);
    for n in 0..whole.len() {
        let mut buf = buffer(&whole[..n]);
        assert_eq!(parse(&mut buf, 1 << 20), Err(ParseError::Incomplete));
        assert_eq!(buf.as_slice(), &whole[..n]);
    }
}

#[test]
fn framing_violations_are_told_apart() {
    let cases: [(Vec<u8>, &str); 5] = [
        (client(0xC1, b"x"), "reserved bits set"),
        (client(0x83, b"x"), "unknown opcode"),
        (vec![0x81, 0x01, b'x'], "unmasked client frame"),
        (client(0x09, b"x"), "fragmented control frame"),
        (client(0x88, &vec![0; 126]), "oversized control frame"),
    ];
    for (bytes, why) in cases {
        let mut buf = buffer(&bytes);
        assert_eq!(parse(&mut buf, 1000), Err(ParseError::Protocol(why)));
    }
}

#[test]
fn a_payload_over_the_limit_is_refused_by_its_header() {
    let mut buf = buffer(&client(0x81, &vec![b'x'; 200])[..10]);
    assert_eq!(parse(&mut buf, 199), Err(ParseError::TooLarge));
}

#[test]
fn server_frames_are_not_masked() {
    let mut out = Buffer::new();
    encode_text(&mut out, b"hi");
    encode(&mut out, false, OpCode::Binary, &[7; 126]);
    assert_eq!(&out.as_slice()[..4], &[0x81, 2, b'h', b'i']);
    assert_eq!(&out.as_slice()[4..8], &[0x02, 126, 0, 126]);
    assert_eq!(&out.as_slice()[8..], &[7; 126]);
}

#[test]
fn a_long_server_frame_has_an_eight_byte_length() {
    let mut out = Buffer::new();
    encode(&mut out, true, OpCode::Text, &vec![1; 65536]);
    assert_eq!(&out.as_slice()[..10], &[0x81, 127, 0, 0, 0, 0, 0, 1, 0, 0]);
    assert_eq!(out.len(), 10 + 65536);
}

#[test]
fn opcodes_survive_their_codes() {
    for op in [
        OpCode::Continuation,
        OpCode::Text,
        OpCode::Binary,
        OpCode::Close,
        OpCode::Ping,
        OpCode::Pong,
    ] {
        assert_eq!(OpCode::from_u8(op.to_u8()), Some(op));
    }
    assert_eq!(OpCode::from_u8(3), None);
}

#[test]
fn a_buffer_is_filled_at_its_end_and_emptied_from_its_front() {
    let mut b = buffer(b"abc");
    b.extend_from_slice(b"de");
    b.advance(2);
    assert_eq!(b.as_slice(), b"cde");
    assert_eq!(b.len(), 3);
    b.clear();
    assert!(b.is_empty());
}
