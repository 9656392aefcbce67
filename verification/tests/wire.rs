use byteorder::{BigEndian, ByteOrder};
use pastebuff::wire::{
    decode_frame, decode_text, encode_frame, encode_text, payload_length, ProtocolError,
    HEADER_LEN,
};

fn round_trip(text: &str) -> String {
    let frame = encode_text(text).unwrap();
    let (payload, consumed) = decode_frame(&frame).unwrap();
    assert_eq!(consumed, frame.len());
    decode_text(payload).unwrap()
}

#[test]
fn header_is_four_bytes() {
    assert_eq!(HEADER_LEN, 4);
}

#[test]
fn frame_is_length_then_payload() {
    assert_eq!(encode_frame(b"hi"), Ok(vec![0, 0, 0, 2, b'h', b'i']));
    assert_eq!(encode_frame(b""), Ok(vec![0, 0, 0, 0]));
}

#[test]
fn length_is_written_most_significant_byte_first() {
    let payload = vec![7u8; 0x0102_03];
    let frame = encode_frame(&payload).unwrap();
    assert_eq!(&frame[..4], &[0x00, 0x01, 0x02, 0x03]);
    assert_eq!(frame.len(), 4 + 0x0102_03);
    assert_eq!(&frame[4..], &payload[..]);
    assert_eq!(BigEndian::read_u32(&frame), 0x0102_03);
}

#[test]
fn length_is_read_most_significant_byte_first() {
    assert_eq!(payload_length(&[0x00, 0x00, 0x01, 0x02]), Some(258));
    assert_eq!(payload_length(&[0x01, 0x00, 0x00, 0x00, 0xff]), Some(16_777_216));
    assert_eq!(payload_length(&[0x12, 0x34, 0x56, 0x78]), Some(0x1234_5678));
    let mut header = [0u8; 4];
    BigEndian::write_u32(&mut header, 3_000_000_000);
    assert_eq!(payload_length(&header), Some(3_000_000_000));
}

#[test]
fn length_needs_four_bytes() {
    assert_eq!(payload_length(&[]), None);
    assert_eq!(payload_length(&[0, 0, 1]), None);
}

#[test]
fn frame_is_taken_only_when_whole() {
    assert_eq!(decode_frame(&[]), None);
    assert_eq!(decode_frame(&[0, 0, 0]), None);
    assert_eq!(decode_frame(&[0, 0, 0, 3]), None);
    assert_eq!(decode_frame(&[0, 0, 0, 3, 1, 2]), None);
    assert_eq!(decode_frame(&[0, 0, 0, 3, 1, 2, 3]), Some((vec![1, 2, 3], 7)));
    assert_eq!(decode_frame(&[0, 0, 0, 0]), Some((vec![], 4)));
}

#[test]
fn what_follows_a_frame_is_left_alone() {
    let mut stream = encode_frame(b"first").unwrap();
    stream.extend_from_slice(&encode_frame(b"second").unwrap());
    let (payload, consumed) = decode_frame(&stream).unwrap();
    assert_eq!(payload, b"first".to_vec());
    assert_eq!(consumed, 9);
    let (payload, consumed) = decode_frame(&stream[consumed..]).unwrap();
    assert_eq!(payload, b"second".to_vec());
    assert_eq!(consumed, 10);
}

#[test]
fn a_huge_announced_length_is_not_a_whole_frame() {
    assert_eq!(decode_frame(&[0xff, 0xff, 0xff, 0xff, 1, 2, 3]), None);
}

#[test]
fn text_round_trips() {
    assert_eq!(round_trip(""), "");
    assert_eq!(round_trip("plain"), "plain");
    assert_eq!(round_trip("{\"Get\":\"k\"}"), "{\"Get\":\"k\"}");
}

#[test]
fn multi_byte_text_round_trips() {
    let text = "naïve – 日本語 – 🦀 – \u{10FFFF}";
    let frame = encode_text(text).unwrap();
    assert_eq!(BigEndian::read_u32(&frame) as usize, text.len());
    assert_eq!(frame.len(), 4 + text.len());
    assert_eq!(round_trip(text), text);
}

#[test]
fn a_payload_that_looks_like_a_length_round_trips() {
    let payload = [0u8, 0, 0, 5, 0, 0, 0, 1, 0xff, 0xff, 0xff, 0xff];
    let frame = encode_frame(&payload).unwrap();
    assert_eq!(&frame[..4], &[0, 0, 0, 12]);
    assert_eq!(decode_frame(&frame), Some((payload.to_vec(), 16)));
    let text = "\u{0}\u{0}\u{0}\u{5}abc";
    assert_eq!(round_trip(text), text);
}

#[test]
fn payload_that_is_not_text_is_refused() {
    assert_eq!(decode_text(vec![0xff, 0xfe]), Err(ProtocolError::InvalidText));
    assert_eq!(decode_text(vec![0xc3]), Err(ProtocolError::InvalidText));
    assert_eq!(decode_text(vec![0xed, 0xa0, 0x80]), Err(ProtocolError::InvalidText));
    assert_eq!(decode_text(vec![0xc0, 0x80]), Err(ProtocolError::InvalidText));
    assert_eq!(decode_text(vec![0xc3, 0xa9]), Ok("é".to_string()));
    assert_eq!(decode_text(vec![]), Ok(String::new()));
}
