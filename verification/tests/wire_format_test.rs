// The frame bytes follow bincode 1.x's default layout: a little-endian `u32`
// variant index, fixed-width little-endian integers, arrays written element by
// element and byte vectors preceded by a `u64` length. Each case below writes
// the same fields with bincode itself, as a tuple led by the variant index.

use marrow::protocol::{
    EncryptedMessagePayload, Frame, HandshakeInitPayload, HandshakeResponsePayload,
};

fn assert_same_as_bincode(frame: &Frame, expected: Vec<u8>) {
    let encoded = frame.encode().unwrap();
    assert_eq!(encoded, expected);
    let decoded = Frame::decode(&expected).unwrap();
    assert_eq!(&decoded, frame);
}

#[test]
fn wire_handshake_init_matches_bincode() {
    let payload = HandshakeInitPayload {
        sender_pubkey: [0x01; 32],
        ephemeral_x25519: [0x02; 32],
        ml_kem_pk: vec![0x03, 0x04, 0x05],
    };
    let expected = bincode::serialize(&(
        0u32,
        payload.sender_pubkey,
        payload.ephemeral_x25519,
        payload.ml_kem_pk.clone(),
    ))
    .unwrap();
    assert_same_as_bincode(&Frame::HandshakeInit(payload), expected);
}

#[test]
fn wire_handshake_response_matches_bincode() {
    let payload = HandshakeResponsePayload {
        recipient_pubkey: [0x0a; 32],
        ephemeral_x25519: [0x0b; 32],
        ml_kem_ct: vec![0x0c; 40],
    };
    let expected = bincode::serialize(&(
        1u32,
        payload.recipient_pubkey,
        payload.ephemeral_x25519,
        payload.ml_kem_ct.clone(),
    ))
    .unwrap();
    assert_same_as_bincode(&Frame::HandshakeResponse(payload), expected);
}

#[test]
fn wire_message_matches_bincode() {
    let payload = EncryptedMessagePayload {
        recipient_pubkey: [0x11; 32],
        dh_pubkey: [0x22; 32],
        sequence_number: 0x0102_0304_0506_0708,
        previous_chain_length: 0x0a0b_0c0d,
        nonce: [0x33; 12],
        ciphertext: vec![0xde, 0xad, 0xbe, 0xef],
    };
    let expected = bincode::serialize(&(
        2u32,
        payload.recipient_pubkey,
        payload.dh_pubkey,
        payload.sequence_number,
        payload.previous_chain_length,
        payload.nonce,
        payload.ciphertext.clone(),
    ))
    .unwrap();
    assert_same_as_bincode(&Frame::Message(payload), expected);
}

#[test]
fn wire_ack_matches_bincode() {
    let message_id: [u8; 16] = [
        1, 2, 3, 4, 5, 6, 7, 8, 9, 10, 11, 12, 13, 14, 15, 16,
    ];
    let expected = bincode::serialize(&(3u32, message_id)).unwrap();
    assert_same_as_bincode(&Frame::Ack { message_id }, expected);
}

#[test]
fn wire_ping_pong_match_bincode() {
    assert_same_as_bincode(&Frame::Ping, bincode::serialize(&4u32).unwrap());
    assert_same_as_bincode(&Frame::Pong, bincode::serialize(&5u32).unwrap());
}

#[test]
fn wire_dummy_matches_bincode() {
    let data = vec![0x5a; 7];
    let expected = bincode::serialize(&(6u32, data.clone())).unwrap();
    assert_same_as_bincode(&Frame::Dummy(data), expected);
}

#[test]
fn wire_empty_vectors_match_bincode() {
    let payload = HandshakeInitPayload {
        sender_pubkey: [0; 32],
        ephemeral_x25519: [0; 32],
        ml_kem_pk: Vec::new(),
    };
    let expected = bincode::serialize(&(0u32, [0u8; 32], [0u8; 32], Vec::<u8>::new())).unwrap();
    assert_same_as_bincode(&Frame::HandshakeInit(payload), expected);
}
