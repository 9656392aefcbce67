//! Framing of messages on the byte stream.
//!
//! Every message, in either direction, travels as a frame: a length of four
//! bytes, most significant first, followed by exactly that many bytes of
//! payload. The payload is text in UTF-8. What the text says is not this
//! module's concern: it moves payloads in and out of frames and checks that
//! they are text.

use byteorder::{BigEndian, ByteOrder};
use vstd::arithmetic::div_mod::lemma_fundamental_div_mod_converse;
use vstd::prelude::*;
use vstd::slice::{slice_subrange, slice_to_vec};
use vstd::utf8::{decode_utf8, encode_utf8, valid_utf8};
use vstd::utf8::{encode_utf8_decode_utf8, encode_utf8_valid_utf8};

verus! {

/// The number of bytes in a frame's length prefix.
pub const HEADER_LEN: usize = 4;

/// The four bytes that stand for `n`, most significant first.
pub open spec fn be32(n: u32) -> Seq<u8> {
    seq![
        (n / 0x100_0000) as u8,
        ((n / 0x1_0000) % 0x100) as u8,
        ((n / 0x100) % 0x100) as u8,
        (n % 0x100) as u8,
    ]
}

/// The number that the first four bytes of `bytes` stand for, most
/// significant first.
pub open spec fn be32_value(bytes: Seq<u8>) -> int
    recommends
        bytes.len() >= 4,
{
    bytes[0] * 0x100_0000 + bytes[1] * 0x1_0000 + bytes[2] * 0x100 + bytes[3]
}

/// The frame that carries `payload`.
pub open spec fn frame_of(payload: Seq<u8>) -> Seq<u8>
    recommends
        payload.len() <= u32::MAX,
{
    be32(payload.len() as u32) + payload
}

/// The frame that carries `text`.
pub open spec fn text_frame(text: Seq<char>) -> Seq<u8> {
    frame_of(encode_utf8(text))
}

/// The size of the frame that `buf` starts with, prefix included, as its
/// first four bytes announce it.
pub open spec fn frame_size(buf: Seq<u8>) -> int
    recommends
        buf.len() >= 4,
{
    4 + be32_value(buf)
}

/// `buf` starts with a whole frame.
pub open spec fn frame_ready(buf: Seq<u8>) -> bool {
    buf.len() >= 4 && buf.len() >= frame_size(buf)
}

/// The payload of the frame that `buf` starts with.
pub open spec fn frame_payload(buf: Seq<u8>) -> Seq<u8>
    recommends
        frame_ready(buf),
{
    buf.subrange(4, frame_size(buf))
}

/// What can be wrong with a frame.
#[derive(Debug, Clone, Copy, PartialEq, Eq)]
pub enum ProtocolError {
    /// The payload is longer than a length prefix can announce.
    FrameTooLarge,
    /// The stream ended inside a frame.
    Truncated,
    /// The payload is not text in UTF-8.
    InvalidText,
    /// The payload is text, but not a message of the protocol.
    Malformed,
}

/// A length prefix says what it was written from.
pub proof fn lemma_be32_round_trip(n: u32)
    ensures
        be32(n).len() == 4,
        be32_value(be32(n)) == n,
{
}

/// Whatever four bytes a stream begins with, they are the prefix of exactly
/// one length.
pub proof fn lemma_be32_value_range(bytes: Seq<u8>)
    requires
        bytes.len() >= 4,
    ensures
        0 <= be32_value(bytes) <= u32::MAX,
        be32(be32_value(bytes) as u32) == bytes.subrange(0, 4),
{
    let b0 = bytes[0] as int;
    let b1 = bytes[1] as int;
    let b2 = bytes[2] as int;
    let b3 = bytes[3] as int;
    let v = be32_value(bytes);
    lemma_fundamental_div_mod_converse(v, 0x100_0000, b0, b1 * 0x1_0000 + b2 * 0x100 + b3);
    lemma_fundamental_div_mod_converse(v, 0x1_0000, b0 * 0x100 + b1, b2 * 0x100 + b3);
    lemma_fundamental_div_mod_converse(b0 * 0x100 + b1, 0x100, b0, b1);
    lemma_fundamental_div_mod_converse(v, 0x100, b0 * 0x1_0000 + b1 * 0x100 + b2, b3);
    lemma_fundamental_div_mod_converse(b0 * 0x1_0000 + b1 * 0x100 + b2, 0x100, b0 * 0x100 + b1, b2);
    assert(be32(v as u32) =~= bytes.subrange(0, 4));
}

/// Taking a frame apart gives back the payload it was made from, whatever the
/// payload holds and whatever follows the frame on the stream: only the
/// prefix is read as a length.
pub proof fn lemma_frame_round_trip(payload: Seq<u8>, rest: Seq<u8>)
    requires
        payload.len() <= u32::MAX,
    ensures
        frame_ready(frame_of(payload) + rest),
        frame_size(frame_of(payload) + rest) == 4 + payload.len(),
        frame_payload(frame_of(payload) + rest) == payload,
        (frame_of(payload) + rest).skip(4 + payload.len() as int) == rest,
{
    let n = payload.len() as u32;
    let buf = frame_of(payload) + rest;
    // the first four bytes are the prefix, and the prefix says `n`
    lemma_be32_round_trip(n);
    assert(buf[0] == be32(n)[0] && buf[1] == be32(n)[1] && buf[2] == be32(n)[2] && buf[3] == be32(
        n,
    )[3]);
    assert(be32_value(buf) == n);
    // what follows them is the payload, and then the rest
    assert(buf.subrange(4, 4 + payload.len() as int) =~= payload);
    assert(buf.skip(4 + payload.len() as int) =~= rest);
}

/// A buffer that starts with a whole frame starts with the frame of that
/// frame's payload: no two payloads share a frame, and no frame can be read
/// in two ways.
pub proof fn lemma_frame_is_canonical(buf: Seq<u8>)
    requires
        frame_ready(buf),
    ensures
        frame_payload(buf).len() <= u32::MAX,
        frame_of(frame_payload(buf)) == buf.take(frame_size(buf)),
{
    lemma_be32_value_range(buf);
    assert(frame_of(frame_payload(buf)) =~= buf.take(frame_size(buf)));
}

/// Text survives the journey through a frame: the payload of its frame is
/// valid UTF-8 and decodes to the same characters, whether they take one byte
/// each or several.
pub proof fn lemma_text_round_trip(text: Seq<char>, rest: Seq<u8>)
    requires
        encode_utf8(text).len() <= u32::MAX,
    ensures
        frame_ready(text_frame(text) + rest),
        valid_utf8(frame_payload(text_frame(text) + rest)),
        decode_utf8(frame_payload(text_frame(text) + rest)) == text,
{
    lemma_frame_round_trip(encode_utf8(text), rest);
    encode_utf8_valid_utf8(text);
    encode_utf8_decode_utf8(text);
}

/// `byteorder`'s `BigEndian::write_u32`, on a buffer of four bytes: the
/// contract claims that it leaves in the buffer the four bytes of `n`, most
/// significant first.
#[verifier::external_body]
fn write_length(n: u32) -> (out: Vec<u8>)
    ensures
        out@ == be32(n),
{
    let mut buf: [u8; 4] = [0u8; 4];
    BigEndian::write_u32(&mut buf, n);
    buf.to_vec()
}

/// `byteorder`'s `BigEndian::read_u32`: the contract claims that it reads the
/// first four bytes of `buf` as a number, most significant first. It panics
/// on a shorter buffer, which the precondition rules out.
#[verifier::external_body]
fn read_length(buf: &[u8]) -> (n: u32)
    requires
        buf@.len() >= 4,
    ensures
        n == be32_value(buf@),
{
    BigEndian::read_u32(buf)
}

/// `String::from_utf8` of the standard library: the contract claims that it
/// accepts exactly the byte sequences that are valid UTF-8, and that the
/// string it returns consists of those bytes.
#[verifier::external_body]
pub(crate) fn text_from_utf8(bytes: Vec<u8>) -> (result: Option<String>)
    ensures
        result is Some <==> valid_utf8(bytes@),
        result matches Some(text) ==> encode_utf8(text@) == bytes@,
{
    String::from_utf8(bytes).ok()
}

/// Puts `payload` into a frame. A payload too long for the length prefix is
/// refused.
pub fn encode_frame(payload: &[u8]) -> (result: Result<Vec<u8>, ProtocolError>)
    ensures
        payload@.len() > u32::MAX <==> result is Err,
        result matches Err(e) ==> e == ProtocolError::FrameTooLarge,
        result matches Ok(bytes) ==> {
            &&& bytes@ == frame_of(payload@)
            &&& frame_ready(bytes@)
            &&& frame_size(bytes@) == bytes@.len()
            &&& frame_payload(bytes@) == payload@
        },
{
    if payload.len() > u32::MAX as usize {
        return Err(ProtocolError::FrameTooLarge);
    }
    let mut out = write_length(payload.len() as u32);
    out.extend_from_slice(payload);
    proof {
        lemma_frame_round_trip(payload@, Seq::empty());
        assert(frame_of(payload@) + Seq::<u8>::empty() =~= frame_of(payload@));
    }
    Ok(out)
}

/// Puts `text` into a frame, as UTF-8.
pub fn encode_text(text: &str) -> (result: Result<Vec<u8>, ProtocolError>)
    ensures
        encode_utf8(text@).len() > u32::MAX <==> result is Err,
        result matches Err(e) ==> e == ProtocolError::FrameTooLarge,
        result matches Ok(bytes) ==> {
            &&& bytes@ == text_frame(text@)
            &&& frame_ready(bytes@)
            &&& valid_utf8(frame_payload(bytes@))
            &&& decode_utf8(frame_payload(bytes@)) == text@
        },
{
    proof {
        encode_utf8_valid_utf8(text@);
        encode_utf8_decode_utf8(text@);
    }
    encode_frame(text.as_bytes())
}

/// The payload length that a length prefix announces. `None` while fewer
/// than four bytes of the prefix are there.
pub fn payload_length(header: &[u8]) -> (result: Option<usize>)
    ensures
        result is Some <==> header@.len() >= 4,
        result matches Some(n) ==> n == be32_value(header@),
{
    if header.len() < HEADER_LEN {
        None
    } else {
        Some(read_length(header) as usize)
    }
}

/// Takes the first frame off `buf`: its payload, and the number of bytes the
/// frame occupied. `None` while `buf` does not yet hold a whole frame.
pub fn decode_frame(buf: &[u8]) -> (result: Option<(Vec<u8>, usize)>)
    ensures
        result is Some <==> frame_ready(buf@),
        result matches Some((payload, consumed)) ==> {
            &&& payload@ == frame_payload(buf@)
            &&& consumed == frame_size(buf@)
        },
{
    match payload_length(buf) {
        None => None,
        Some(n) => {
            if buf.len() - HEADER_LEN < n {
                None
            } else {
                let end = HEADER_LEN + n;
                let payload = slice_to_vec(slice_subrange(buf, HEADER_LEN, end));
                Some((payload, end))
            }
        },
    }
}

/// Reads a payload as text. A payload that is not valid UTF-8 is refused.
pub fn decode_text(payload: Vec<u8>) -> (result: Result<String, ProtocolError>)
    ensures
        valid_utf8(payload@) <==> result is Ok,
        result matches Err(e) ==> e == ProtocolError::InvalidText,
        result matches Ok(text) ==> text@ == decode_utf8(payload@),
{
    match text_from_utf8(payload) {
        Some(text) => {
            proof {
                encode_utf8_decode_utf8(text@);
            }
            Ok(text)
        },
        None => Err(ProtocolError::InvalidText),
    }
}

} // verus!
