//! Wire frames exchanged between peers and the relay, and their byte format.
//!
//! A frame is a little-endian `u32` variant index followed by the variant's
//! fields in order: fixed-size keys as their raw bytes, integers in
//! little-endian, and byte strings as a little-endian `u64` length followed by
//! the bytes. Decoding ignores bytes after the frame, so padded frames decode.

use vstd::prelude::*;
use crate::bytes::{
    append_bytes, copy_array, copy_range, le_u32, le_u64, lemma_le_u32_encodes, lemma_le_u64_encodes,
    lemma_u32_le_round_trip,
    lemma_u64_le_round_trip, read_u32_le, read_u64_le, u32_le, u32_to_le, u64_le, u64_to_le,
};
use crate::handshake::{InitiatorOutput, ResponderOutput};
use crate::text::{decimal, decimal_text};
use vstd::string::StringExecFns;

verus! {

/// Largest encoded frame, in bytes.
pub const MAX_FRAME_SIZE: usize = 65536;

/// Padded frames are a whole number of blocks of this many bytes.
pub const PADDING_BLOCK_SIZE: usize = 256;

#[derive(Debug)]
pub enum ProtocolError {
    Serialization(String),
    Deserialization(String),
    FrameTooLarge(usize),
}

impl ProtocolError {
    /// Human-readable description of the error.
    pub fn message(&self) -> (text: String)
        ensures
            text@ == match self {
                ProtocolError::Serialization(s) => "Failed to serialize frame: "@ + s@,
                ProtocolError::Deserialization(s) => "Failed to deserialize frame: "@ + s@,
                ProtocolError::FrameTooLarge(n) => "Frame size ("@ + decimal(*n as nat)
                    + " bytes) exceeds maximum limit of "@ + decimal(MAX_FRAME_SIZE as nat)
                    + " bytes"@,
            },
    {
        match self {
            ProtocolError::Serialization(s) => {
                let mut text = String::from_str("Failed to serialize frame: ");
                text.append(s.as_str());
                text
            },
            ProtocolError::Deserialization(s) => {
                let mut text = String::from_str("Failed to deserialize frame: ");
                text.append(s.as_str());
                text
            },
            ProtocolError::FrameTooLarge(n) => {
                let mut text = String::from_str("Frame size (");
                text.append(decimal_text(*n as u64).as_str());
                text.append(" bytes) exceeds maximum limit of ");
                text.append(decimal_text(MAX_FRAME_SIZE as u64).as_str());
                text.append(" bytes");
                text
            },
        }
    }
}

#[derive(Clone, Debug, PartialEq, Eq)]
pub struct HandshakeInitPayload {
    pub sender_pubkey: [u8; 32],
    pub ephemeral_x25519: [u8; 32],
    pub ml_kem_pk: Vec<u8>,
}

impl HandshakeInitPayload {
    /// The first handshake frame body: our identity key and the initiator's
    /// public keys.
    pub fn new(sender_pubkey: [u8; 32], init_output: InitiatorOutput) -> (p: Self)
        ensures
            p.sender_pubkey == sender_pubkey,
            p.ephemeral_x25519 == init_output.x25519_public,
            p.ml_kem_pk == init_output.ml_kem_public,
    {
        HandshakeInitPayload {
            sender_pubkey,
            ephemeral_x25519: init_output.x25519_public,
            ml_kem_pk: init_output.ml_kem_public,
        }
    }
}

#[derive(Clone, Debug, PartialEq, Eq)]
pub struct HandshakeResponsePayload {
    pub recipient_pubkey: [u8; 32],
    pub ephemeral_x25519: [u8; 32],
    pub ml_kem_ct: Vec<u8>,
}

impl HandshakeResponsePayload {
    /// The handshake reply body: our identity key, the responder's public key
    /// and a copy of its ML-KEM ciphertext.
    pub fn new(recipient_pubkey: [u8; 32], resp_output: &ResponderOutput) -> (p: Self)
        ensures
            p.recipient_pubkey == recipient_pubkey,
            p.ephemeral_x25519 == resp_output.x25519_public,
            p.ml_kem_ct@ == resp_output.ml_kem_ciphertext@,
    {
        let ct = resp_output.ml_kem_ciphertext.as_slice();
        HandshakeResponsePayload {
            recipient_pubkey,
            ephemeral_x25519: resp_output.x25519_public,
            ml_kem_ct: copy_range(ct, 0, ct.len()),
        }
    }
}

#[derive(Clone, Debug, PartialEq, Eq)]
pub struct EncryptedMessagePayload {
    pub recipient_pubkey: [u8; 32],
    pub dh_pubkey: [u8; 32],
    pub sequence_number: u64,
    pub previous_chain_length: u32,
    pub nonce: [u8; 12],
    pub ciphertext: Vec<u8>,
}

#[derive(Clone, Debug, PartialEq, Eq)]
pub enum Frame {
    HandshakeInit(HandshakeInitPayload),
    HandshakeResponse(HandshakeResponsePayload),
    Message(EncryptedMessagePayload),
    Ack { message_id: [u8; 16] },
    Ping,
    Pong,
    /// Cover traffic: random bytes that carry no message.
    Dummy(Vec<u8>),
}

/// Abstract value of a frame.
pub enum FrameView {
    HandshakeInit { sender_pubkey: Seq<u8>, ephemeral_x25519: Seq<u8>, ml_kem_pk: Seq<u8> },
    HandshakeResponse { recipient_pubkey: Seq<u8>, ephemeral_x25519: Seq<u8>, ml_kem_ct: Seq<u8> },
    Message {
        recipient_pubkey: Seq<u8>,
        dh_pubkey: Seq<u8>,
        sequence_number: u64,
        previous_chain_length: u32,
        nonce: Seq<u8>,
        ciphertext: Seq<u8>,
    },
    Ack { message_id: Seq<u8> },
    Ping,
    Pong,
    Dummy { data: Seq<u8> },
}

impl View for Frame {
    type V = FrameView;

    open spec fn view(&self) -> FrameView {
        match self {
            Frame::HandshakeInit(p) => FrameView::HandshakeInit {
                sender_pubkey: p.sender_pubkey@,
                ephemeral_x25519: p.ephemeral_x25519@,
                ml_kem_pk: p.ml_kem_pk@,
            },
            Frame::HandshakeResponse(p) => FrameView::HandshakeResponse {
                recipient_pubkey: p.recipient_pubkey@,
                ephemeral_x25519: p.ephemeral_x25519@,
                ml_kem_ct: p.ml_kem_ct@,
            },
            Frame::Message(p) => FrameView::Message {
                recipient_pubkey: p.recipient_pubkey@,
                dh_pubkey: p.dh_pubkey@,
                sequence_number: p.sequence_number,
                previous_chain_length: p.previous_chain_length,
                nonce: p.nonce@,
                ciphertext: p.ciphertext@,
            },
            Frame::Ack { message_id } => FrameView::Ack { message_id: message_id@ },
            Frame::Ping => FrameView::Ping,
            Frame::Pong => FrameView::Pong,
            Frame::Dummy(data) => FrameView::Dummy { data: data@ },
        }
    }
}

/// Field sizes of a frame value that the format can carry.
pub open spec fn frame_view_wf(f: FrameView) -> bool {
    match f {
        FrameView::HandshakeInit { sender_pubkey, ephemeral_x25519, ml_kem_pk } => sender_pubkey.len()
            == 32 && ephemeral_x25519.len() == 32 && ml_kem_pk.len() <= u64::MAX,
        FrameView::HandshakeResponse { recipient_pubkey, ephemeral_x25519, ml_kem_ct } =>
            recipient_pubkey.len() == 32 && ephemeral_x25519.len() == 32 && ml_kem_ct.len()
            <= u64::MAX,
        FrameView::Message { recipient_pubkey, dh_pubkey, nonce, ciphertext, .. } =>
            recipient_pubkey.len() == 32 && dh_pubkey.len() == 32 && nonce.len() == 12
                && ciphertext.len() <= u64::MAX,
        FrameView::Ack { message_id } => message_id.len() == 16,
        FrameView::Ping => true,
        FrameView::Pong => true,
        FrameView::Dummy { data } => data.len() <= u64::MAX,
    }
}

/// A byte string prefixed by its length.
pub open spec fn len_prefixed(d: Seq<u8>) -> Seq<u8> {
    u64_le(d.len() as u64) + d
}

/// The bytes of a frame.
pub open spec fn frame_bytes(f: FrameView) -> Seq<u8> {
    match f {
        FrameView::HandshakeInit { sender_pubkey, ephemeral_x25519, ml_kem_pk } => u32_le(0)
            + sender_pubkey + ephemeral_x25519 + len_prefixed(ml_kem_pk),
        FrameView::HandshakeResponse { recipient_pubkey, ephemeral_x25519, ml_kem_ct } => u32_le(
            1,
        ) + recipient_pubkey + ephemeral_x25519 + len_prefixed(ml_kem_ct),
        FrameView::Message {
            recipient_pubkey,
            dh_pubkey,
            sequence_number,
            previous_chain_length,
            nonce,
            ciphertext,
        } => u32_le(2) + recipient_pubkey + dh_pubkey + u64_le(sequence_number) + u32_le(
            previous_chain_length,
        ) + nonce + len_prefixed(ciphertext),
        FrameView::Ack { message_id } => u32_le(3) + message_id,
        FrameView::Ping => u32_le(4),
        FrameView::Pong => u32_le(5),
        FrameView::Dummy { data } => u32_le(6) + len_prefixed(data),
    }
}

/// A length-prefixed byte string at the start of `b`, and what follows it.
pub open spec fn parse_len_prefixed(b: Seq<u8>) -> Option<(Seq<u8>, Seq<u8>)> {
    if b.len() < 8 {
        None
    } else {
        let n = le_u64(b);
        if b.len() - 8 < n {
            None
        } else {
            Some((b.subrange(8, 8 + n), b.skip(8 + n)))
        }
    }
}

/// A handshake frame body (variant 0 or 1) at the start of `r`.
pub open spec fn parse_key_exchange(tag: u32, r: Seq<u8>) -> Option<FrameView> {
    if r.len() < 64 {
        None
    } else {
        match parse_len_prefixed(r.skip(64)) {
            Some((d, _)) => if tag == 0 {
                Some(
                    FrameView::HandshakeInit {
                        sender_pubkey: r.take(32),
                        ephemeral_x25519: r.subrange(32, 64),
                        ml_kem_pk: d,
                    },
                )
            } else {
                Some(
                    FrameView::HandshakeResponse {
                        recipient_pubkey: r.take(32),
                        ephemeral_x25519: r.subrange(32, 64),
                        ml_kem_ct: d,
                    },
                )
            },
            None => None,
        }
    }
}

/// A message frame body (variant 2) at the start of `r`.
pub open spec fn parse_message(r: Seq<u8>) -> Option<FrameView> {
    if r.len() < 88 {
        None
    } else {
        match parse_len_prefixed(r.skip(88)) {
            Some((d, _)) => Some(
                FrameView::Message {
                    recipient_pubkey: r.take(32),
                    dh_pubkey: r.subrange(32, 64),
                    sequence_number: le_u64(r.skip(64)),
                    previous_chain_length: le_u32(r.skip(72)),
                    nonce: r.subrange(76, 88),
                    ciphertext: d,
                },
            ),
            None => None,
        }
    }
}

/// The body of a frame with variant index `tag` at the start of `r`.
pub open spec fn parse_frame_body(tag: u32, r: Seq<u8>) -> Option<FrameView> {
    if tag == 0 || tag == 1 {
        parse_key_exchange(tag, r)
    } else if tag == 2 {
        parse_message(r)
    } else if tag == 3 {
        if r.len() < 16 {
            None
        } else {
            Some(FrameView::Ack { message_id: r.take(16) })
        }
    } else if tag == 4 {
        Some(FrameView::Ping)
    } else if tag == 5 {
        Some(FrameView::Pong)
    } else if tag == 6 {
        match parse_len_prefixed(r) {
            Some((d, _)) => Some(FrameView::Dummy { data: d }),
            None => None,
        }
    } else {
        None
    }
}

/// The frame whose bytes start `b`, if any.
pub open spec fn parse_frame(b: Seq<u8>) -> Option<FrameView> {
    if b.len() < 4 {
        None
    } else {
        parse_frame_body(le_u32(b), b.skip(4))
    }
}

/// `len` rounded up to a whole number of padding blocks.
pub open spec fn padded_len(len: nat) -> nat {
    if len % (PADDING_BLOCK_SIZE as nat) == 0 {
        len
    } else {
        (len / (PADDING_BLOCK_SIZE as nat) + 1) * (PADDING_BLOCK_SIZE as nat)
    }
}

proof fn lemma_parse_len_prefixed(d: Seq<u8>, t: Seq<u8>)
    requires
        d.len() <= u64::MAX,
    ensures
        parse_len_prefixed(len_prefixed(d) + t) == Some((d, t)),
{
    lemma_u64_le_round_trip(d.len() as u64);
    let b = len_prefixed(d) + t;
    assert(b.take(8) =~= u64_le(d.len() as u64));
    assert(le_u64(b) == le_u64(u64_le(d.len() as u64))) by {
        let e = u64_le(d.len() as u64);
        assert(b[0] == e[0] && b[1] == e[1] && b[2] == e[2] && b[3] == e[3]);
        assert(b[4] == e[4] && b[5] == e[5] && b[6] == e[6] && b[7] == e[7]);
    }
    assert(b.subrange(8, 8 + d.len() as int) =~= d);
    assert(b.skip(8 + d.len() as int) =~= t);
}

proof fn lemma_le_u32_of_prefix(x: u32, t: Seq<u8>)
    ensures
        le_u32(u32_le(x) + t) == x,
        (u32_le(x) + t).len() >= 4,
        (u32_le(x) + t).skip(4) == t,
{
    lemma_u32_le_round_trip(x);
    let b = u32_le(x) + t;
    let e = u32_le(x);
    assert(b[0] == e[0] && b[1] == e[1] && b[2] == e[2] && b[3] == e[3]);
    assert(b.skip(4) =~= t);
}

proof fn lemma_le_u64_of_prefix(x: u64, t: Seq<u8>)
    ensures
        le_u64(u64_le(x) + t) == x,
        (u64_le(x) + t).skip(8) == t,
{
    lemma_u64_le_round_trip(x);
    let b = u64_le(x) + t;
    let e = u64_le(x);
    assert(b[0] == e[0] && b[1] == e[1] && b[2] == e[2] && b[3] == e[3]);
    assert(b[4] == e[4] && b[5] == e[5] && b[6] == e[6] && b[7] == e[7]);
    assert(b.skip(8) =~= t);
}

proof fn lemma_key_exchange_round_trip(tag: u32, k1: Seq<u8>, k2: Seq<u8>, d: Seq<u8>, t: Seq<u8>)
    requires
        k1.len() == 32,
        k2.len() == 32,
        d.len() <= u64::MAX,
    ensures
        ({
            let r = parse_key_exchange(tag, k1 + k2 + len_prefixed(d) + t);
            &&& tag == 0 ==> r == Some(
                FrameView::HandshakeInit { sender_pubkey: k1, ephemeral_x25519: k2, ml_kem_pk: d },
            )
            &&& tag != 0 ==> r == Some(
                FrameView::HandshakeResponse {
                    recipient_pubkey: k1,
                    ephemeral_x25519: k2,
                    ml_kem_ct: d,
                },
            )
        }),
{
    let body = k1 + k2 + len_prefixed(d) + t;
    assert(body.take(32) =~= k1);
    assert(body.subrange(32, 64) =~= k2);
    assert(body.skip(64) =~= len_prefixed(d) + t);
    lemma_parse_len_prefixed(d, t);
}

proof fn lemma_message_round_trip(
    recipient_pubkey: Seq<u8>,
    dh_pubkey: Seq<u8>,
    sequence_number: u64,
    previous_chain_length: u32,
    nonce: Seq<u8>,
    ciphertext: Seq<u8>,
    trailing: Seq<u8>,
)
    requires
        recipient_pubkey.len() == 32,
        dh_pubkey.len() == 32,
        nonce.len() == 12,
        ciphertext.len() <= u64::MAX,
    ensures
        parse_message(
            recipient_pubkey + dh_pubkey + u64_le(sequence_number) + u32_le(previous_chain_length)
                + nonce + len_prefixed(ciphertext) + trailing,
        ) == Some(
            FrameView::Message {
                recipient_pubkey,
                dh_pubkey,
                sequence_number,
                previous_chain_length,
                nonce,
                ciphertext,
            },
        ),
{
    let tail = nonce + len_prefixed(ciphertext) + trailing;
    let after_seq = u32_le(previous_chain_length) + tail;
    let after_keys = u64_le(sequence_number) + after_seq;
    let body = recipient_pubkey + dh_pubkey + after_keys;
    assert(recipient_pubkey + dh_pubkey + u64_le(sequence_number) + u32_le(previous_chain_length)
        + nonce + len_prefixed(ciphertext) + trailing =~= body);
    assert(body.take(32) =~= recipient_pubkey);
    assert(body.subrange(32, 64) =~= dh_pubkey);
    assert(body.skip(64) =~= after_keys);
    lemma_le_u64_of_prefix(sequence_number, after_seq);
    assert(body.skip(72) =~= after_seq);
    lemma_le_u32_of_prefix(previous_chain_length, tail);
    assert(body.subrange(76, 88) =~= nonce);
    assert(body.skip(88) =~= len_prefixed(ciphertext) + trailing);
    lemma_parse_len_prefixed(ciphertext, trailing);
}

/// Whether `b` starts with the bytes of `f`, a frame the format can carry.
pub open spec fn starts_with_frame(b: Seq<u8>, f: FrameView) -> bool {
    &&& frame_view_wf(f)
    &&& frame_bytes(f).len() <= b.len()
    &&& b.take(frame_bytes(f).len() as int) == frame_bytes(f)
}

/// A length-prefixed string read from `x` is what `x` starts with.
proof fn lemma_parse_len_prefixed_sound(x: Seq<u8>)
    requires
        parse_len_prefixed(x) is Some,
    ensures
        ({
            let (d, _) = parse_len_prefixed(x).unwrap();
            &&& d.len() <= u64::MAX
            &&& len_prefixed(d).len() <= x.len()
            &&& x.take(len_prefixed(d).len() as int) == len_prefixed(d)
        }),
{
    let (d, _) = parse_len_prefixed(x).unwrap();
    lemma_le_u64_encodes(x);
    assert(d.len() == le_u64(x));
    assert(x.take(8 + d.len() as int) =~= x.take(8) + d);
}

/// Law: a frame read from `b` is what `b` starts with.
pub proof fn lemma_parse_frame_sound(b: Seq<u8>)
    requires
        parse_frame(b) is Some,
    ensures
        starts_with_frame(b, parse_frame(b).unwrap()),
{
    let f = parse_frame(b).unwrap();
    let tag = le_u32(b);
    let r = b.skip(4);
    lemma_le_u32_encodes(b);
    assert(b.take(4) == u32_le(tag));
    if tag == 0 || tag == 1 {
        let x = r.skip(64);
        lemma_parse_len_prefixed_sound(x);
        let (d, _) = parse_len_prefixed(x).unwrap();
        let n = len_prefixed(d).len();
        assert(b.take(4 + 64 + n as int) =~= b.take(4) + r.take(32) + r.subrange(32, 64) + x.take(n as int));
    } else if tag == 2 {
        let x = r.skip(88);
        lemma_parse_len_prefixed_sound(x);
        let (d, _) = parse_len_prefixed(x).unwrap();
        let n = len_prefixed(d).len();
        lemma_le_u64_encodes(r.skip(64));
        lemma_le_u32_encodes(r.skip(72));
        assert(b.take(4 + 88 + n as int) =~= b.take(4) + r.take(32) + r.subrange(32, 64) + r.skip(64).take(8)
            + r.skip(72).take(4) + r.subrange(76, 88) + x.take(n as int));
    } else if tag == 3 {
        assert(b.take(20) =~= b.take(4) + r.take(16));
    } else if tag == 6 {
        lemma_parse_len_prefixed_sound(r);
        let (d, _) = parse_len_prefixed(r).unwrap();
        let n = len_prefixed(d).len();
        assert(b.take(4 + n as int) =~= b.take(4) + r.take(n as int));
    }
}

/// Bytes that start with a frame's bytes decode to that frame.
proof fn lemma_starts_with_frame_parses(b: Seq<u8>, f: FrameView)
    requires
        starts_with_frame(b, f),
    ensures
        parse_frame(b) == Some(f),
{
    let k = frame_bytes(f).len() as int;
    let t = b.skip(k);
    assert(b =~= b.take(k) + t);
    lemma_frame_round_trip(f, t);
}

/// Law: the bytes decode to a frame exactly when they start with that
/// frame's bytes; no other frame's bytes can start them too.
pub proof fn lemma_parse_frame_exact(b: Seq<u8>, f: FrameView)
    ensures
        parse_frame(b) == Some(f) <==> starts_with_frame(b, f),
{
    if parse_frame(b) == Some(f) {
        lemma_parse_frame_sound(b);
    }
    if starts_with_frame(b, f) {
        lemma_starts_with_frame_parses(b, f);
    }
}

/// Law: a frame's bytes, followed by any bytes at all, decode to that frame.
pub proof fn lemma_frame_round_trip(f: FrameView, trailing: Seq<u8>)
    requires
        frame_view_wf(f),
    ensures
        parse_frame(frame_bytes(f) + trailing) == Some(f),
{
    let b = frame_bytes(f) + trailing;
    match f {
        FrameView::HandshakeInit { sender_pubkey, ephemeral_x25519, ml_kem_pk } => {
            let body = sender_pubkey + ephemeral_x25519 + len_prefixed(ml_kem_pk) + trailing;
            assert(b =~= u32_le(0) + body);
            lemma_le_u32_of_prefix(0, body);
            lemma_key_exchange_round_trip(0, sender_pubkey, ephemeral_x25519, ml_kem_pk, trailing);
        },
        FrameView::HandshakeResponse { recipient_pubkey, ephemeral_x25519, ml_kem_ct } => {
            let body = recipient_pubkey + ephemeral_x25519 + len_prefixed(ml_kem_ct) + trailing;
            assert(b =~= u32_le(1) + body);
            lemma_le_u32_of_prefix(1, body);
            lemma_key_exchange_round_trip(1, recipient_pubkey, ephemeral_x25519, ml_kem_ct, trailing);
        },
        FrameView::Message {
            recipient_pubkey,
            dh_pubkey,
            sequence_number,
            previous_chain_length,
            nonce,
            ciphertext,
        } => {
            let body = recipient_pubkey + dh_pubkey + u64_le(sequence_number) + u32_le(
                previous_chain_length,
            ) + nonce + len_prefixed(ciphertext) + trailing;
            assert(b =~= u32_le(2) + body);
            lemma_le_u32_of_prefix(2, body);
            lemma_message_round_trip(
                recipient_pubkey,
                dh_pubkey,
                sequence_number,
                previous_chain_length,
                nonce,
                ciphertext,
                trailing,
            );
        },
        FrameView::Ack { message_id } => {
            let body = message_id + trailing;
            assert(b =~= u32_le(3) + body);
            lemma_le_u32_of_prefix(3, body);
            assert(body.take(16) =~= message_id);
        },
        FrameView::Ping => {
            lemma_le_u32_of_prefix(4, trailing);
        },
        FrameView::Pong => {
            lemma_le_u32_of_prefix(5, trailing);
        },
        FrameView::Dummy { data } => {
            let body = len_prefixed(data) + trailing;
            assert(b =~= u32_le(6) + body);
            lemma_le_u32_of_prefix(6, body);
            lemma_parse_len_prefixed(data, trailing);
        },
    }
}

fn append_len_prefixed(out: &mut Vec<u8>, d: &[u8])
    ensures
        final(out)@ == old(out)@ + len_prefixed(d@),
{
    let n = u64_to_le(d.len() as u64);
    append_bytes(out, &n);
    append_bytes(out, d);
    assert(final(out)@ =~= old(out)@ + len_prefixed(d@));
}

/// Reads a length-prefixed byte string at `pos`, giving it and the position
/// after it.
fn read_len_prefixed(s: &[u8], pos: usize) -> (r: Option<(Vec<u8>, usize)>)
    requires
        pos <= s@.len(),
    ensures
        match parse_len_prefixed(s@.skip(pos as int)) {
            Some((d, rest)) => r matches Some((v, p)) && v@ == d && p <= s@.len() && rest == s@.skip(
                p as int,
            ),
            None => r is None,
        },
{
    let len = s.len();
    if len - pos < 8 {
        return None;
    }
    let n = read_u64_le(s, pos);
    assert(s@.subrange(pos as int, s@.len() as int) == s@.skip(pos as int));
    let avail = (len - pos - 8) as u64;
    if avail < n {
        return None;
    }
    let n_bytes = n as usize;
    let data = copy_range(s, pos + 8, n_bytes);
    assert(s@.skip(pos as int).subrange(8, 8 + n as int) =~= s@.subrange(pos + 8, pos + 8 + n_bytes));
    assert(s@.skip(pos as int).skip(8 + n as int) =~= s@.skip(pos + 8 + n_bytes));
    Some((data, pos + 8 + n_bytes))
}

fn parse_key_exchange_at(tag: u32, s: &[u8]) -> (r: Option<Frame>)
    requires
        s@.len() >= 4,
    ensures
        match parse_key_exchange(tag, s@.skip(4)) {
            Some(f) => r matches Some(g) && g@ == f,
            None => r is None,
        },
{
    let ghost body = s@.skip(4);
    if s.len() - 4 < 64 {
        return None;
    }
    assert(body.skip(64) =~= s@.skip(68));
    match read_len_prefixed(s, 68) {
        None => None,
        Some((d, _)) => {
            let k1 = copy_array::<32>(s, 4);
            let k2 = copy_array::<32>(s, 36);
            assert(body.take(32) =~= k1@);
            assert(body.subrange(32, 64) =~= k2@);
            if tag == 0 {
                Some(
                    Frame::HandshakeInit(
                        HandshakeInitPayload { sender_pubkey: k1, ephemeral_x25519: k2, ml_kem_pk: d },
                    ),
                )
            } else {
                Some(
                    Frame::HandshakeResponse(
                        HandshakeResponsePayload {
                            recipient_pubkey: k1,
                            ephemeral_x25519: k2,
                            ml_kem_ct: d,
                        },
                    ),
                )
            }
        },
    }
}

fn parse_message_at(s: &[u8]) -> (r: Option<Frame>)
    requires
        s@.len() >= 4,
    ensures
        match parse_message(s@.skip(4)) {
            Some(f) => r matches Some(g) && g@ == f,
            None => r is None,
        },
{
    let ghost body = s@.skip(4);
    if s.len() - 4 < 88 {
        return None;
    }
    assert(body.skip(88) =~= s@.skip(92));
    match read_len_prefixed(s, 92) {
        None => None,
        Some((d, _)) => {
            let recipient = copy_array::<32>(s, 4);
            let dh = copy_array::<32>(s, 36);
            let seq_no = read_u64_le(s, 68);
            let prev = read_u32_le(s, 76);
            let nonce = copy_array::<12>(s, 80);
            assert(body.take(32) =~= recipient@);
            assert(body.subrange(32, 64) =~= dh@);
            assert(body.skip(64) =~= s@.subrange(68, s@.len() as int));
            assert(body.skip(72) =~= s@.subrange(76, s@.len() as int));
            assert(body.subrange(76, 88) =~= nonce@);
            Some(
                Frame::Message(
                    EncryptedMessagePayload {
                        recipient_pubkey: recipient,
                        dh_pubkey: dh,
                        sequence_number: seq_no,
                        previous_chain_length: prev,
                        nonce,
                        ciphertext: d,
                    },
                ),
            )
        },
    }
}

fn parse_frame_at(s: &[u8]) -> (r: Option<Frame>)
    ensures
        match parse_frame(s@) {
            Some(f) => r matches Some(g) && g@ == f,
            None => r is None,
        },
{
    if s.len() < 4 {
        return None;
    }
    let tag = read_u32_le(s, 0);
    assert(s@.subrange(0, s@.len() as int) =~= s@);
    let ghost body = s@.skip(4);
    if tag == 0 || tag == 1 {
        parse_key_exchange_at(tag, s)
    } else if tag == 2 {
        parse_message_at(s)
    } else if tag == 3 {
        if s.len() - 4 < 16 {
            None
        } else {
            let id = copy_array::<16>(s, 4);
            assert(body.take(16) =~= id@);
            Some(Frame::Ack { message_id: id })
        }
    } else if tag == 4 {
        Some(Frame::Ping)
    } else if tag == 5 {
        Some(Frame::Pong)
    } else if tag == 6 {
        match read_len_prefixed(s, 4) {
            Some((d, _)) => Some(Frame::Dummy(d)),
            None => None,
        }
    } else {
        None
    }
}

impl Frame {
    /// The bytes of this frame, or `FrameTooLarge` when they exceed
    /// `MAX_FRAME_SIZE`.
    pub fn encode(&self) -> (r: Result<Vec<u8>, ProtocolError>)
        ensures
            frame_bytes(self@).len() <= MAX_FRAME_SIZE ==> (r matches Ok(v) && v@ == frame_bytes(self@)),
            frame_bytes(self@).len() > MAX_FRAME_SIZE ==> (r matches Err(ProtocolError::FrameTooLarge(n))
                && n == frame_bytes(self@).len()),
    {
        let mut out: Vec<u8> = Vec::new();
        match self {
            Frame::HandshakeInit(p) => {
                append_bytes(&mut out, &u32_to_le(0));
                append_bytes(&mut out, &p.sender_pubkey);
                append_bytes(&mut out, &p.ephemeral_x25519);
                append_len_prefixed(&mut out, p.ml_kem_pk.as_slice());
            },
            Frame::HandshakeResponse(p) => {
                append_bytes(&mut out, &u32_to_le(1));
                append_bytes(&mut out, &p.recipient_pubkey);
                append_bytes(&mut out, &p.ephemeral_x25519);
                append_len_prefixed(&mut out, p.ml_kem_ct.as_slice());
            },
            Frame::Message(p) => {
                append_bytes(&mut out, &u32_to_le(2));
                append_bytes(&mut out, &p.recipient_pubkey);
                append_bytes(&mut out, &p.dh_pubkey);
                append_bytes(&mut out, &u64_to_le(p.sequence_number));
                append_bytes(&mut out, &u32_to_le(p.previous_chain_length));
                append_bytes(&mut out, &p.nonce);
                append_len_prefixed(&mut out, p.ciphertext.as_slice());
            },
            Frame::Ack { message_id } => {
                append_bytes(&mut out, &u32_to_le(3));
                append_bytes(&mut out, message_id);
            },
            Frame::Ping => {
                append_bytes(&mut out, &u32_to_le(4));
            },
            Frame::Pong => {
                append_bytes(&mut out, &u32_to_le(5));
            },
            Frame::Dummy(data) => {
                append_bytes(&mut out, &u32_to_le(6));
                append_len_prefixed(&mut out, data.as_slice());
            },
        }
        assert(out@ =~= frame_bytes(self@));
        if out.len() > MAX_FRAME_SIZE {
            return Err(ProtocolError::FrameTooLarge(out.len()));
        }
        Ok(out)
    }

    /// The bytes of this frame followed by zero bytes up to a whole number of
    /// `PADDING_BLOCK_SIZE` blocks, or `FrameTooLarge` when the frame's bytes
    /// exceed `MAX_FRAME_SIZE`.
    pub fn encode_padded(&self) -> (r: Result<Vec<u8>, ProtocolError>)
        ensures
            frame_bytes(self@).len() <= MAX_FRAME_SIZE ==> (r matches Ok(v) && v@.len() == padded_len(
                frame_bytes(self@).len(),
            ) && v@.take(frame_bytes(self@).len() as int) == frame_bytes(self@) && (forall|i: int|
                frame_bytes(self@).len() <= i < v@.len() ==> v@[i] == 0)),
            frame_bytes(self@).len() > MAX_FRAME_SIZE ==> (r matches Err(ProtocolError::FrameTooLarge(n))
                && n == frame_bytes(self@).len()),
    {
        let mut bytes = match self.encode() {
            Ok(b) => b,
            Err(e) => return Err(e),
        };
        let len = bytes.len();
        let target = if len % PADDING_BLOCK_SIZE == 0 {
            len
        } else {
            (len / PADDING_BLOCK_SIZE + 1) * PADDING_BLOCK_SIZE
        };
        while bytes.len() < target
            invariant
                len <= bytes@.len() <= target,
                len == frame_bytes(self@).len(),
                target == padded_len(len as nat),
                bytes@.take(len as int) == frame_bytes(self@),
                forall|i: int| len <= i < bytes@.len() ==> bytes@[i] == 0,
            decreases target - bytes@.len(),
        {
            let ghost prev = bytes@;
            bytes.push(0u8);
            assert(bytes@.take(len as int) =~= prev.take(len as int));
        }
        Ok(bytes)
    }

    /// The frame that `bytes` start with; bytes after it are ignored. Fails
    /// with `FrameTooLarge` when `bytes` exceed `MAX_FRAME_SIZE` and with
    /// `Deserialization` when they do not start with a frame.
    pub fn decode(bytes: &[u8]) -> (r: Result<Frame, ProtocolError>)
        ensures
            bytes@.len() > MAX_FRAME_SIZE ==> (r matches Err(ProtocolError::FrameTooLarge(n)) && n
                == bytes@.len()),
            bytes@.len() <= MAX_FRAME_SIZE ==> match parse_frame(bytes@) {
                Some(f) => r matches Ok(g) && g@ == f,
                None => r matches Err(ProtocolError::Deserialization(text)) && text@
                    == "bytes do not start with a frame"@,
            },
            bytes@.len() <= MAX_FRAME_SIZE ==> (r matches Ok(g) ==> starts_with_frame(bytes@, g@)),
            bytes@.len() <= MAX_FRAME_SIZE ==> (r is Err <==> forall|f: FrameView|
                !#[trigger] starts_with_frame(bytes@, f)),
    {
        if bytes.len() > MAX_FRAME_SIZE {
            return Err(ProtocolError::FrameTooLarge(bytes.len()));
        }
        proof {
            assert forall|f: FrameView| #[trigger] starts_with_frame(bytes@, f) implies parse_frame(bytes@)
                == Some(f) by {
                lemma_parse_frame_exact(bytes@, f);
            }
            if parse_frame(bytes@) is Some {
                lemma_parse_frame_sound(bytes@);
            }
        }
        match parse_frame_at(bytes) {
            Some(f) => Ok(f),
            None => Err(ProtocolError::Deserialization("bytes do not start with a frame".to_string())),
        }
    }
}

/// Every frame value has field sizes that the format can carry.
pub proof fn lemma_frame_wf(f: Frame)
    ensures
        frame_view_wf(f@),
{
    match f {
        Frame::HandshakeInit(p) => {
            assert(p.ml_kem_pk.len() == p.ml_kem_pk@.len());
        },
        Frame::HandshakeResponse(p) => {
            assert(p.ml_kem_ct.len() == p.ml_kem_ct@.len());
        },
        Frame::Message(p) => {
            assert(p.ciphertext.len() == p.ciphertext@.len());
        },
        Frame::Dummy(d) => {
            assert(d.len() == d@.len());
        },
        _ => {},
    }
}

/// Law: what `encode` writes, `decode` reads back as the same frame.
pub proof fn lemma_encode_decode(f: Frame)
    ensures
        frame_bytes(f@).len() <= MAX_FRAME_SIZE ==> parse_frame(frame_bytes(f@)) == Some(f@),
{
    lemma_frame_wf(f);
    lemma_frame_round_trip(f@, seq![]);
    assert(frame_bytes(f@) + seq![] =~= frame_bytes(f@));
}

/// Law: a padded frame decodes to the frame, and its length is a whole number
/// of padding blocks no larger than `MAX_FRAME_SIZE`.
pub proof fn lemma_padded_decode(f: Frame, padded: Seq<u8>)
    requires
        frame_bytes(f@).len() <= MAX_FRAME_SIZE,
        padded.len() == padded_len(frame_bytes(f@).len()),
        padded.take(frame_bytes(f@).len() as int) == frame_bytes(f@),
    ensures
        parse_frame(padded) == Some(f@),
        padded.len() % (PADDING_BLOCK_SIZE as nat) == 0,
        padded.len() <= MAX_FRAME_SIZE,
{
    let b = frame_bytes(f@);
    lemma_frame_wf(f);
    lemma_frame_round_trip(f@, padded.skip(b.len() as int));
    assert(b + padded.skip(b.len() as int) =~= padded);
    assert(padded_len(b.len()) % 256 == 0) by (nonlinear_arith)
        requires
            padded_len(b.len()) == if b.len() % 256 == 0 {
                b.len()
            } else {
                (b.len() / 256 + 1) * 256
            },
    ;
    assert(padded_len(b.len()) <= 65536) by (nonlinear_arith)
        requires
            b.len() <= 65536,
            padded_len(b.len()) == if b.len() % 256 == 0 {
                b.len()
            } else {
                (b.len() / 256 + 1) * 256
            },
    ;
}

} // verus!
