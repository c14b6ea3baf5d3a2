use marrow::handshake::{HandshakeInitiator, HandshakeResponder};
use marrow::identity::Identity;
use marrow::text::decimal_text;
use marrow::protocol::{
    EncryptedMessagePayload, Frame, HandshakeInitPayload, HandshakeResponsePayload, ProtocolError,
    MAX_FRAME_SIZE, PADDING_BLOCK_SIZE,
};

#[test]
fn test_ping_pong_frame() {
    let frame = Frame::Ping;
    let encoded = frame.encode().unwrap();
    let decoded = Frame::decode(&encoded).unwrap();
    assert_eq!(frame, decoded);
}

#[test]
fn test_encrypted_message_frame() {
    let payload = EncryptedMessagePayload {
        recipient_pubkey: [0x11; 32],
        dh_pubkey: [0x22; 32],
        sequence_number: 10,
        previous_chain_length: 2,
        nonce: [0x33; 12],
        ciphertext: vec![0xde, 0xad, 0xbe, 0xef],
    };

    let frame = Frame::Message(payload);
    let encoded = frame.encode().unwrap();
    let decoded = Frame::decode(&encoded).unwrap();

    assert_eq!(frame, decoded);
}

#[test]
fn test_frame_size_overflow() {
    let oversized_payload = EncryptedMessagePayload {
        recipient_pubkey: [0x00; 32],
        dh_pubkey: [0x00; 32],
        sequence_number: 0,
        previous_chain_length: 0,
        nonce: [0x00; 12],
        ciphertext: vec![0u8; MAX_FRAME_SIZE],
    };

    let frame = Frame::Message(oversized_payload);
    let result = frame.encode();

    assert!(matches!(result, Err(ProtocolError::FrameTooLarge(_))));
}

#[test]
fn test_end_to_end_handshake_via_frames() {
    let sender_identity = [0x01; 32];
    let responder_identity = [0x02; 32];

    let initiator = HandshakeInitiator::new();
    let init_out = initiator.generate_init_payload();

    let init_frame = Frame::HandshakeInit(HandshakeInitPayload::new(sender_identity, init_out));
    let init_bytes = init_frame.encode().expect("Failed to encode init frame");

    let decoded_init_frame = Frame::decode(&init_bytes).expect("Failed to decode init frame");

    let (resp_out, responder_secret) = match decoded_init_frame {
        Frame::HandshakeInit(payload) => {
            let resp_out = HandshakeResponder::process_init_and_respond(
                &payload.ephemeral_x25519,
                &payload.ml_kem_pk,
            )
            .expect("Failed to process init at responder");

            let secret = resp_out.master_secret.0;
            (resp_out, secret)
        }
        _ => panic!("Expected HandshakeInit frame"),
    };

    let resp_frame = Frame::HandshakeResponse(HandshakeResponsePayload::new(
        responder_identity,
        &resp_out,
    ));
    let resp_bytes = resp_frame.encode().expect("Failed to encode resp frame");

    let decoded_resp_frame = Frame::decode(&resp_bytes).expect("Failed to decode resp frame");

    let initiator_secret = match decoded_resp_frame {
        Frame::HandshakeResponse(payload) => initiator
            .process_response(&payload.ephemeral_x25519, &payload.ml_kem_ct)
            .expect("Failed to process response at initiator")
            .0,
        _ => panic!("Expected HandshakeResponse frame"),
    };

    assert_eq!(initiator_secret, responder_secret);
}

#[test]
fn test_e2e_handshake_and_frame_pipeline() {
    let ventie_identity = Identity::generate();
    let anek_identity = Identity::generate();

    let ventie_pubkey = ventie_identity.verifying_key();
    let anek_pubkey = anek_identity.verifying_key();

    let initiator = HandshakeInitiator::new();
    let init_out = initiator.generate_init_payload();

    let init_payload = HandshakeInitPayload::new(ventie_pubkey, init_out);
    let init_frame = Frame::HandshakeInit(init_payload);

    let encoded_init = init_frame
        .encode()
        .expect("Failed to encode HandshakeInit frame");

    let decoded_init_frame =
        Frame::decode(&encoded_init).expect("Failed to decode HandshakeInit frame");

    let (resp_out, responder_secret) = match decoded_init_frame {
        Frame::HandshakeInit(payload) => {
            let resp_out = HandshakeResponder::process_init_and_respond(
                &payload.ephemeral_x25519,
                &payload.ml_kem_pk,
            )
            .expect("Failed to process init at responder");

            let secret = resp_out.master_secret.0;
            (resp_out, secret)
        }
        _ => panic!("Expected HandshakeInit frame"),
    };

    let resp_payload = HandshakeResponsePayload::new(anek_pubkey, &resp_out);
    let resp_frame = Frame::HandshakeResponse(resp_payload);

    let encoded_resp = resp_frame
        .encode()
        .expect("Failed to encode HandshakeResponse frame");

    let decoded_resp_frame =
        Frame::decode(&encoded_resp).expect("Failed to decode HandshakeResponse frame");

    let initiator_secret = match decoded_resp_frame {
        Frame::HandshakeResponse(payload) => {
            initiator
                .process_response(&payload.ephemeral_x25519, &payload.ml_kem_ct)
                .expect("Failed to process response at initiator")
                .0
        }
        _ => panic!("Expected HandshakeResponse frame"),
    };

    assert_eq!(
        initiator_secret, responder_secret,
        "Master secrets must match after PQ-hybrid handshake"
    );

    let msg_payload = EncryptedMessagePayload {
        recipient_pubkey: anek_pubkey,
        dh_pubkey: [0x42; 32],
        sequence_number: 1,
        previous_chain_length: 0,
        nonce: [0x07; 12],
        ciphertext: vec![1, 2, 3, 4, 5],
    };

    let msg_frame = Frame::Message(msg_payload);
    let padded_encoded_msg = msg_frame
        .encode_padded()
        .expect("Failed to encode padded message frame");

    let decoded_msg_frame =
        Frame::decode(&padded_encoded_msg).expect("Failed to decode padded message frame");

    assert_eq!(msg_frame, decoded_msg_frame);
}

#[test]
fn test_relay_ping_pong_and_routing() {
    let peer_b = [2u8; 32];

    let msg_payload = EncryptedMessagePayload {
        recipient_pubkey: peer_b,
        dh_pubkey: [3u8; 32],
        sequence_number: 1,
        previous_chain_length: 0,
        nonce: [0u8; 12],
        ciphertext: vec![1, 2, 3, 4],
    };

    let frame = Frame::Message(msg_payload);
    let encoded = frame.encode().expect("Failed to encode frame");
    let decoded = Frame::decode(&encoded).expect("Failed to decode frame");

    assert!(matches!(decoded, Frame::Message(_)));
}

#[test]
fn test_padded_frame_encoding_and_decoding() {
    let msg_payload = EncryptedMessagePayload {
        recipient_pubkey: [2u8; 32],
        dh_pubkey: [3u8; 32],
        sequence_number: 42,
        previous_chain_length: 1,
        nonce: [9u8; 12],
        ciphertext: vec![0xDE, 0xAD, 0xBE, 0xEF],
    };

    let frame = Frame::Message(msg_payload);
    let padded_bytes = frame.encode_padded().expect("Failed to encode padded frame");

    assert_eq!(padded_bytes.len() % PADDING_BLOCK_SIZE, 0);

    let decoded = Frame::decode(&padded_bytes).expect("Failed to decode padded frame");
    assert_eq!(frame, decoded);
}

#[test]
fn test_dummy_frame_lifecycle() {
    let dummy_payload = vec![0xA5; 300];
    let frame = Frame::Dummy(dummy_payload.clone());

    let padded_bytes = frame.encode_padded().expect("Failed to encode dummy frame");
    assert_eq!(padded_bytes.len() % PADDING_BLOCK_SIZE, 0);

    let decoded = Frame::decode(&padded_bytes).expect("Failed to decode dummy frame");
    if let Frame::Dummy(data) = decoded {
        assert_eq!(data, dummy_payload);
    } else {
        panic!("Expected Frame::Dummy variant");
    }
}

#[test]
fn frame_bytes_layout() {
    assert_eq!(Frame::Ping.encode().unwrap(), vec![4, 0, 0, 0]);
    assert_eq!(Frame::Pong.encode().unwrap(), vec![5, 0, 0, 0]);
    let ack = Frame::Ack { message_id: [7u8; 16] }.encode().unwrap();
    assert_eq!(ack.len(), 4 + 16);
    assert_eq!(&ack[..4], &[3, 0, 0, 0]);
    let dummy = Frame::Dummy(vec![1, 2]).encode().unwrap();
    assert_eq!(dummy, vec![6, 0, 0, 0, 2, 0, 0, 0, 0, 0, 0, 0, 1, 2]);
    let msg = Frame::Message(EncryptedMessagePayload {
        recipient_pubkey: [1; 32],
        dh_pubkey: [2; 32],
        sequence_number: 0x0102,
        previous_chain_length: 3,
        nonce: [4; 12],
        ciphertext: vec![9],
    })
    .encode()
    .unwrap();
    assert_eq!(msg.len(), 4 + 32 + 32 + 8 + 4 + 12 + 8 + 1);
    assert_eq!(&msg[68..76], &[0x02, 0x01, 0, 0, 0, 0, 0, 0]);
    assert_eq!(&msg[76..80], &[3, 0, 0, 0]);
}

#[test]
fn frame_decode_errors() {
    assert!(matches!(Frame::decode(&[4, 0, 0]), Err(ProtocolError::Deserialization(_))));
    assert!(matches!(Frame::decode(&[9, 0, 0, 0]), Err(ProtocolError::Deserialization(_))));
    // a byte string announcing more bytes than follow
    assert!(matches!(
        Frame::decode(&[6, 0, 0, 0, 5, 0, 0, 0, 0, 0, 0, 0, 1]),
        Err(ProtocolError::Deserialization(_))
    ));
    let big = vec![0u8; MAX_FRAME_SIZE + 1];
    assert!(matches!(Frame::decode(&big), Err(ProtocolError::FrameTooLarge(n)) if n == MAX_FRAME_SIZE + 1));
    // trailing bytes are ignored
    assert_eq!(Frame::decode(&[5, 0, 0, 0, 1, 2, 3]).unwrap(), Frame::Pong);
}

#[test]
fn frame_size_limit_is_exact() {
    // A dummy frame of exactly MAX_FRAME_SIZE bytes encodes; one byte more does not.
    let fits = Frame::Dummy(vec![0u8; MAX_FRAME_SIZE - 12]);
    assert_eq!(fits.encode().unwrap().len(), MAX_FRAME_SIZE);
    assert_eq!(fits.encode_padded().unwrap().len(), MAX_FRAME_SIZE);
    let over = Frame::Dummy(vec![0u8; MAX_FRAME_SIZE - 11]);
    assert!(matches!(over.encode(), Err(ProtocolError::FrameTooLarge(n)) if n == MAX_FRAME_SIZE + 1));
    assert!(matches!(over.encode_padded(), Err(ProtocolError::FrameTooLarge(_))));
}

#[test]
fn padded_frame_is_zero_filled() {
    let padded = Frame::Ping.encode_padded().unwrap();
    assert_eq!(padded.len(), PADDING_BLOCK_SIZE);
    assert_eq!(&padded[..4], &[4, 0, 0, 0]);
    assert!(padded[4..].iter().all(|b| *b == 0));
}

#[test]
fn protocol_error_messages() {
    assert_eq!(
        ProtocolError::FrameTooLarge(70000).message(),
        "Frame size (70000 bytes) exceeds maximum limit of 65536 bytes"
    );
    assert_eq!(
        ProtocolError::Deserialization("bad".to_string()).message(),
        "Failed to deserialize frame: bad"
    );
    assert_eq!(
        ProtocolError::Serialization(String::new()).message(),
        "Failed to serialize frame: "
    );
}

#[test]
fn numbers_in_decimal() {
    for n in [0u64, 7, 10, 65536, 1234567890, u64::MAX] {
        assert_eq!(decimal_text(n), n.to_string());
    }
}
