use marrow::codec::{
    decode_frame_stream, encode_frame_stream, FrameStreamError,
    decode_length_prefix, encode_length_prefixed, CodecError, MarrowCodec, MarrowProtocol,
    MarrowRequest, MarrowResponse, MAX_MESSAGE_SIZE,
};
use marrow::protocol::{EncryptedMessagePayload, Frame, HandshakeInitPayload, HandshakeResponsePayload, ProtocolError, MAX_FRAME_SIZE};
use marrow::relay::{send_jitter_ms, MAX_SEND_JITTER_MS, MIN_SEND_JITTER_MS};
use marrow::relay::{
    extract_recipient, frame_length, frame_length_prefix, registration_peer, route_frame,
    OfflineQueue, RelayAction, RelayError, OFFLINE_QUEUE_CAPACITY, OFFLINE_TTL_SECS,
};
use marrow::search::{SearchResult, StoredValue};
use marrow::storage::{message_key, message_key_range, new_session_id, MessageDirection, Session, StoredMessage};

fn message_to(recipient: [u8; 32]) -> Frame {
    Frame::Message(EncryptedMessagePayload {
        recipient_pubkey: recipient,
        dh_pubkey: [3u8; 32],
        sequence_number: 1,
        previous_chain_length: 0,
        nonce: [0u8; 12],
        ciphertext: vec![1, 2, 3, 4],
    })
}

#[test]
fn relay_routes_frames() {
    assert_eq!(route_frame(&Frame::Ping), RelayAction::ReplyPong);
    assert_eq!(route_frame(&Frame::Pong), RelayAction::Drop);
    assert_eq!(route_frame(&Frame::Dummy(vec![1])), RelayAction::Drop);
    assert_eq!(route_frame(&Frame::Ack { message_id: [0; 16] }), RelayAction::Drop);
    assert_eq!(route_frame(&message_to([2u8; 32])), RelayAction::Forward([2u8; 32]));
    let init = Frame::HandshakeInit(HandshakeInitPayload {
        sender_pubkey: [5u8; 32],
        ephemeral_x25519: [6u8; 32],
        ml_kem_pk: vec![],
    });
    assert_eq!(extract_recipient(&init), Some([5u8; 32]));
    assert_eq!(registration_peer(&init), Some([5u8; 32]));
    assert_eq!(registration_peer(&Frame::Ping), None);
    let resp = Frame::HandshakeResponse(HandshakeResponsePayload {
        recipient_pubkey: [7u8; 32],
        ephemeral_x25519: [8u8; 32],
        ml_kem_ct: vec![],
    });
    assert_eq!(extract_recipient(&resp), Some([7u8; 32]));
    assert_eq!(extract_recipient(&Frame::Pong), None);
}

#[test]
fn relay_frame_length_prefix() {
    let prefix = frame_length_prefix(300);
    assert_eq!(prefix, [0x2c, 0x01, 0, 0]);
    assert_eq!(frame_length(prefix), Ok(300));
    assert_eq!(frame_length([0, 0, 1, 0]), Ok(65536));
    assert_eq!(frame_length([1, 0, 1, 0]), Err(RelayError::FrameTooLarge(65537)));
}

#[test]
fn offline_queue_drops_oldest_when_full() {
    let mut q = OfflineQueue::new();
    assert!(q.is_empty());
    for i in 0..(OFFLINE_QUEUE_CAPACITY as u64 + 5) {
        let mut id = [0u8; 16];
        id[0] = i as u8;
        q.push(i, Frame::Ack { message_id: id });
    }
    assert_eq!(q.len(), OFFLINE_QUEUE_CAPACITY);
    let frames = q.drain();
    assert!(q.is_empty());
    assert_eq!(frames.len(), OFFLINE_QUEUE_CAPACITY);
    match &frames[0] {
        Frame::Ack { message_id } => assert_eq!(message_id[0], 5),
        _ => panic!("expected an ack"),
    }
}

#[test]
fn offline_queue_expires_old_frames() {
    let mut q = OfflineQueue::new();
    q.push(10, Frame::Ping);
    q.push(200, Frame::Pong);
    q.push(400, Frame::Dummy(vec![1]));
    q.retain_fresh(400, OFFLINE_TTL_SECS);
    // the frame queued at 10 is 390 seconds old; the others are younger than 300
    assert_eq!(q.len(), 2);
    let frames = q.drain();
    assert_eq!(frames, vec![Frame::Pong, Frame::Dummy(vec![1])]);
}

#[test]
fn codec_length_prefix() {
    let out = encode_length_prefixed(&[9, 8, 7]);
    assert_eq!(out, vec![0, 0, 0, 3, 9, 8, 7]);
    assert_eq!(decode_length_prefix([0, 0, 0, 3]), Ok(3));
    assert_eq!(decode_length_prefix([0, 0xa0, 0, 0]), Ok(MAX_MESSAGE_SIZE));
    assert_eq!(
        decode_length_prefix([0, 0xa0, 0, 1]),
        Err(CodecError::FrameExceedsSizeLimit(MAX_MESSAGE_SIZE as u32 + 1))
    );
    let codec = MarrowCodec;
    assert_eq!(codec.write_request(&MarrowRequest(vec![1])), vec![0, 0, 0, 1, 1]);
    assert_eq!(codec.write_response(&MarrowResponse(vec![])), vec![0, 0, 0, 0]);
    assert_eq!(MarrowProtocol.name(), "/marrow/p2p/1.0.0");
    let named: &str = MarrowProtocol.as_ref();
    assert_eq!(named, "/marrow/p2p/1.0.0");
    assert_eq!(CodecError::FrameExceedsSizeLimit(0).message(), "Frame exceeds size limit");
}

#[test]
fn storage_message_keys() {
    assert_eq!(message_key("abc", 0), "abc/0000000000000000");
    assert_eq!(message_key("abc", 255), "abc/00000000000000ff");
    assert_eq!(message_key("s", u64::MAX), "s/ffffffffffffffff");
    let (lo, hi) = message_key_range("abc");
    assert_eq!(lo, "abc/");
    assert_eq!(hi, "abc0");
    let k = message_key("abc", 7);
    assert!(lo <= k && k < hi);
    let other = message_key("abcd", 7);
    assert!(!(lo <= other && other < hi));
    // keys of one session sort by sequence number
    assert!(message_key("abc", 9) < message_key("abc", 10));
}

#[test]
fn storage_sessions() {
    let id = new_session_id();
    assert_eq!(id.len(), 32);
    assert!(id.chars().all(|c| c.is_ascii_hexdigit() && !c.is_ascii_uppercase()));
    let mut s = Session::new(id.clone(), "deadbeef", 1_000_000);
    assert_eq!(s.peer_pubkey_hex, "deadbeef");
    assert_eq!(s.created_at, 1_000_000);
    assert_eq!(s.last_activity, 1_000_000);
    s.touch(2_000_000);
    assert_eq!(s.last_activity, 2_000_000);
    assert_eq!(s.created_at, 1_000_000);
    let m = StoredMessage {
        session_id: id.clone(),
        sender_pubkey_hex: "aabbccdd".to_string(),
        ciphertext: vec![1],
        timestamp: 0,
        direction: MessageDirection::Outbound,
        sequence_number: 3,
    };
    assert_eq!(m.storage_key(), format!("{}/{:016x}", id, 3));
}

#[test]
fn search_result_from_fields() {
    let r = SearchResult::from_fields(
        Some(StoredValue::Str("msg1".to_string())),
        Some(StoredValue::Str("peer".to_string())),
        Some(StoredValue::U64(1000)),
    );
    assert_eq!(r, SearchResult { msg_id: "msg1".to_string(), peer_id: "peer".to_string(), timestamp: 1000 });
    let missing = SearchResult::from_fields(None, Some(StoredValue::U64(1)), Some(StoredValue::Other));
    assert_eq!(missing, SearchResult { msg_id: String::new(), peer_id: String::new(), timestamp: 0 });
}

#[test]
fn send_jitter_stays_in_range() {
    assert_eq!((MIN_SEND_JITTER_MS, MAX_SEND_JITTER_MS), (2, 15));
    for _ in 0..200 {
        let ms = send_jitter_ms();
        assert!((2..=15).contains(&ms));
    }
}

#[test]
fn frame_stream_round_trip() {
    let frame = message_to([4u8; 32]);
    let bytes = encode_frame_stream(&frame).unwrap();
    let body = frame.encode().unwrap();
    assert_eq!(bytes.len(), 4 + body.len());
    assert_eq!(&bytes[..4], &(body.len() as u32).to_be_bytes());
    assert_eq!(&bytes[4..], &body[..]);

    let mut stream = bytes.clone();
    stream.extend_from_slice(&encode_frame_stream(&Frame::Ping).unwrap());
    match decode_frame_stream(&stream) {
        Ok(Some((f, taken))) => {
            assert_eq!(f, frame);
            assert_eq!(taken, bytes.len());
            match decode_frame_stream(&stream[taken..]) {
                Ok(Some((g, n))) => {
                    assert_eq!(g, Frame::Ping);
                    assert_eq!(n, 8);
                }
                other => panic!("unexpected {other:?}"),
            }
        }
        other => panic!("unexpected {other:?}"),
    }
}

#[test]
fn frame_stream_waits_for_whole_frames() {
    let bytes = encode_frame_stream(&message_to([1u8; 32])).unwrap();
    for cut in [0, 1, 3, 4, 5, bytes.len() - 1] {
        assert!(matches!(decode_frame_stream(&bytes[..cut]), Ok(None)));
    }
}

#[test]
fn frame_stream_errors() {
    let too_large = (MAX_MESSAGE_SIZE as u32 + 1).to_be_bytes();
    assert!(matches!(
        decode_frame_stream(&too_large),
        Err(FrameStreamError::TooLarge(n)) if n == MAX_MESSAGE_SIZE as u32 + 1
    ));

    let mut big = ((MAX_FRAME_SIZE + 1) as u32).to_be_bytes().to_vec();
    big.resize(4 + MAX_FRAME_SIZE + 1, 0);
    assert!(matches!(
        decode_frame_stream(&big),
        Err(FrameStreamError::Frame(ProtocolError::FrameTooLarge(n))) if n == MAX_FRAME_SIZE + 1
    ));

    let malformed = [0u8, 0, 0, 1, 0xff];
    assert!(matches!(
        decode_frame_stream(&malformed),
        Err(FrameStreamError::Frame(ProtocolError::Deserialization(_)))
    ));

    let oversized = Frame::Dummy(vec![0u8; MAX_FRAME_SIZE]);
    assert!(matches!(encode_frame_stream(&oversized), Err(ProtocolError::FrameTooLarge(_))));
}
