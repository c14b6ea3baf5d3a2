//! The peer-to-peer request/response stream format: each message is a
//! big-endian `u32` length followed by that many bytes.

use vstd::prelude::*;
use crate::bytes::{
    append_bytes, be_u32, copy_array, lemma_u32_be_round_trip, read_u32_be, u32_be, u32_to_be,
};
use crate::protocol::{
    frame_bytes, lemma_encode_decode, parse_frame, Frame, FrameView, ProtocolError, MAX_FRAME_SIZE,
};
use vstd::slice::slice_subrange;

verus! {

/// Largest request or response body a peer accepts, in bytes.
pub const MAX_MESSAGE_SIZE: usize = 10485760;

/// The stream protocol spoken by peers.
#[derive(Clone, Debug, PartialEq, Eq, Structural)]
pub struct MarrowProtocol;

#[derive(Debug, Clone, PartialEq, Eq)]
pub struct MarrowRequest(pub Vec<u8>);

#[derive(Debug, Clone, PartialEq, Eq)]
pub struct MarrowResponse(pub Vec<u8>);

#[derive(Clone, Default)]
pub struct MarrowCodec;

#[derive(Debug, Clone, Copy, PartialEq, Eq, Structural)]
pub enum CodecError {
    /// A length prefix announced a body larger than `MAX_MESSAGE_SIZE`.
    FrameExceedsSizeLimit(u32),
}

impl CodecError {
    /// Human-readable description of the error.
    pub fn message(&self) -> (text: &'static str)
        ensures
            text@ == match self {
                CodecError::FrameExceedsSizeLimit(_) => "Frame exceeds size limit"@,
            },
    {
        match self {
            CodecError::FrameExceedsSizeLimit(_) => "Frame exceeds size limit",
        }
    }
}

impl MarrowProtocol {
    /// The protocol name peers negotiate.
    pub fn name(&self) -> (name: &'static str)
        ensures
            name@ == "/marrow/p2p/1.0.0"@,
    {
        "/marrow/p2p/1.0.0"
    }
}

impl AsRef<str> for MarrowProtocol {
    /// The protocol name, as libraries that negotiate protocols by name read it.
    fn as_ref(&self) -> (name: &str)
        ensures
            name@ == "/marrow/p2p/1.0.0"@,
    {
        self.name()
    }
}

/// The bytes written for a body: its length (truncated to 32 bits) in
/// big-endian, then the body.
pub open spec fn length_prefixed(data: Seq<u8>) -> Seq<u8> {
    u32_be(data.len() as u32) + data
}

/// Writes the length prefix and body of `data`.
pub fn encode_length_prefixed(data: &[u8]) -> (out: Vec<u8>)
    ensures
        out@ == length_prefixed(data@),
{
    let mut out: Vec<u8> = Vec::new();
    let prefix = u32_to_be(data.len() as u32);
    append_bytes(&mut out, &prefix);
    append_bytes(&mut out, data);
    out
}

/// The body length a big-endian prefix announces, refused when larger than
/// `MAX_MESSAGE_SIZE`.
pub fn decode_length_prefix(prefix: [u8; 4]) -> (r: Result<usize, CodecError>)
    ensures
        be_u32(prefix@) <= MAX_MESSAGE_SIZE ==> r == Ok::<usize, CodecError>(be_u32(prefix@) as usize),
        be_u32(prefix@) > MAX_MESSAGE_SIZE ==> r == Err::<usize, CodecError>(
            CodecError::FrameExceedsSizeLimit(be_u32(prefix@)),
        ),
{
    let len = read_u32_be(&prefix);
    if len as usize > MAX_MESSAGE_SIZE {
        return Err(CodecError::FrameExceedsSizeLimit(len));
    }
    Ok(len as usize)
}

impl MarrowCodec {
    /// Bytes written for a request.
    pub fn write_request(&self, request: &MarrowRequest) -> (out: Vec<u8>)
        ensures
            out@ == length_prefixed(request.0@),
    {
        encode_length_prefixed(request.0.as_slice())
    }

    /// Bytes written for a response.
    pub fn write_response(&self, response: &MarrowResponse) -> (out: Vec<u8>)
        ensures
            out@ == length_prefixed(response.0@),
    {
        encode_length_prefixed(response.0.as_slice())
    }
}

/// Why the start of a byte stream holds no frame.
#[derive(Debug)]
pub enum FrameStreamError {
    /// A length prefix announced a body larger than `MAX_MESSAGE_SIZE`.
    TooLarge(u32),
    /// The announced body is not a frame.
    Frame(ProtocolError),
}

/// What the start of a stream of length-prefixed frames holds.
pub enum StreamRead {
    /// The prefix, or the body it announces, has not fully arrived.
    Incomplete,
    /// The prefix announces a body larger than `MAX_MESSAGE_SIZE`.
    TooLarge(u32),
    /// The body is larger than `MAX_FRAME_SIZE`.
    FrameTooLarge(nat),
    /// The body does not start with a frame.
    Malformed,
    /// A frame, and the number of stream bytes (prefix and body) it took.
    Frame(FrameView, nat),
}

/// What the start of `buf` holds: a big-endian `u32` length, then that many
/// bytes holding a frame.
pub open spec fn stream_read(buf: Seq<u8>) -> StreamRead {
    if buf.len() < 4 {
        StreamRead::Incomplete
    } else if be_u32(buf) > MAX_MESSAGE_SIZE {
        StreamRead::TooLarge(be_u32(buf))
    } else if buf.len() < 4 + be_u32(buf) {
        StreamRead::Incomplete
    } else if be_u32(buf) > MAX_FRAME_SIZE {
        StreamRead::FrameTooLarge(be_u32(buf) as nat)
    } else {
        match parse_frame(buf.subrange(4, 4 + be_u32(buf))) {
            Some(f) => StreamRead::Frame(f, (4 + be_u32(buf)) as nat),
            None => StreamRead::Malformed,
        }
    }
}

/// Reads one frame from the start of `buf`: `Ok(None)` while its bytes have
/// not all arrived, else the frame with the number of bytes it took, or why
/// there is none.
pub fn decode_frame_stream(buf: &[u8]) -> (r: Result<Option<(Frame, usize)>, FrameStreamError>)
    ensures
        match stream_read(buf@) {
            StreamRead::Incomplete => r matches Ok(None),
            StreamRead::TooLarge(n) => r matches Err(FrameStreamError::TooLarge(m)) && m == n,
            StreamRead::FrameTooLarge(n) => r matches Err(
                FrameStreamError::Frame(ProtocolError::FrameTooLarge(m)),
            ) && m == n,
            StreamRead::Malformed => r matches Err(
                FrameStreamError::Frame(ProtocolError::Deserialization(_)),
            ),
            StreamRead::Frame(f, k) => r matches Ok(Some((g, m))) && g@ == f && m == k,
        },
{
    if buf.len() < 4 {
        return Ok(None);
    }
    let prefix = copy_array::<4>(buf, 0);
    assert(prefix@ =~= buf@.subrange(0, 4));
    let len = match decode_length_prefix(prefix) {
        Ok(len) => len,
        Err(CodecError::FrameExceedsSizeLimit(n)) => return Err(FrameStreamError::TooLarge(n)),
    };
    if buf.len() - 4 < len {
        return Ok(None);
    }
    let body = slice_subrange(buf, 4, 4 + len);
    match Frame::decode(body) {
        Ok(frame) => Ok(Some((frame, 4 + len))),
        Err(e) => Err(FrameStreamError::Frame(e)),
    }
}

/// The stream bytes of `frame`: its encoding behind a big-endian length
/// prefix; refused, as by `Frame::encode`, when the encoding is larger than
/// `MAX_FRAME_SIZE`.
pub fn encode_frame_stream(frame: &Frame) -> (r: Result<Vec<u8>, ProtocolError>)
    ensures
        frame_bytes(frame@).len() <= MAX_FRAME_SIZE ==> (r matches Ok(v) && v@ == length_prefixed(
            frame_bytes(frame@),
        )),
        frame_bytes(frame@).len() > MAX_FRAME_SIZE ==> (r matches Err(ProtocolError::FrameTooLarge(n))
            && n == frame_bytes(frame@).len()),
{
    match frame.encode() {
        Ok(bytes) => Ok(encode_length_prefixed(bytes.as_slice())),
        Err(e) => Err(e),
    }
}

/// Law: a frame written to a stream is read back whole, whatever follows it,
/// taking exactly the bytes written.
pub proof fn lemma_frame_stream_round_trip(f: Frame, rest: Seq<u8>)
    requires
        frame_bytes(f@).len() <= MAX_FRAME_SIZE,
    ensures
        stream_read(length_prefixed(frame_bytes(f@)) + rest) == StreamRead::Frame(
            f@,
            length_prefixed(frame_bytes(f@)).len(),
        ),
{
    let b = frame_bytes(f@);
    let buf = length_prefixed(b) + rest;
    lemma_u32_be_round_trip(b.len() as u32);
    assert(buf.subrange(0, 4) =~= u32_be(b.len() as u32));
    assert(be_u32(buf) == be_u32(buf.subrange(0, 4)));
    assert(buf.subrange(4, 4 + b.len() as int) =~= b);
    lemma_encode_decode(f);
}

/// Law: the prefix written for a body of at most `MAX_MESSAGE_SIZE` bytes
/// reads back as its length, and the body follows it.
pub proof fn lemma_length_prefix_round_trip(data: Seq<u8>)
    requires
        data.len() <= MAX_MESSAGE_SIZE,
    ensures
        be_u32(length_prefixed(data).take(4)) == data.len(),
        length_prefixed(data).skip(4) == data,
{
    lemma_u32_be_round_trip(data.len() as u32);
    assert(length_prefixed(data).take(4) =~= u32_be(data.len() as u32));
    assert(length_prefixed(data).skip(4) =~= data);
}

} // verus!
