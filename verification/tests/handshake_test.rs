use marrow::handshake::{HandshakeError, HandshakeInitiator, HandshakeResponder, ML_KEM_CT_SIZE};

#[test]
fn test_successful_hybrid_handshake() {
    let initiator = HandshakeInitiator::new();
    let init_payload = initiator.generate_init_payload();

    let responder_output = HandshakeResponder::process_init_and_respond(
        &init_payload.x25519_public,
        &init_payload.ml_kem_public,
    )
    .expect("Responder processing failed");

    let initiator_master_secret = initiator
        .process_response(
            &responder_output.x25519_public,
            &responder_output.ml_kem_ciphertext,
        )
        .expect("Initiator response processing failed");

    assert_eq!(initiator_master_secret.0, responder_output.master_secret.0);
}

#[test]
fn handshake_rejects_bad_key_length() {
    let initiator = HandshakeInitiator::default();
    let init_payload = initiator.generate_init_payload();
    assert_eq!(init_payload.ml_kem_public.len(), 1184);
    let r = HandshakeResponder::process_init_and_respond(
        &init_payload.x25519_public,
        &init_payload.ml_kem_public[..100],
    );
    assert!(matches!(r, Err(HandshakeError::InvalidMlKemKeyLength)));
}

#[test]
fn handshake_rejects_bad_ciphertext_length() {
    let initiator = HandshakeInitiator::new();
    let init_payload = initiator.generate_init_payload();
    let out = HandshakeResponder::process_init_and_respond(
        &init_payload.x25519_public,
        &init_payload.ml_kem_public,
    )
    .unwrap();
    assert_eq!(out.ml_kem_ciphertext.len(), ML_KEM_CT_SIZE);
    let r = initiator.process_response(&out.x25519_public, &out.ml_kem_ciphertext[..ML_KEM_CT_SIZE - 1]);
    assert!(matches!(r, Err(HandshakeError::InvalidMlKemCiphertextLength)));
}

#[test]
fn handshake_tampered_ciphertext_gives_different_secret() {
    let initiator = HandshakeInitiator::new();
    let init_payload = initiator.generate_init_payload();
    let out = HandshakeResponder::process_init_and_respond(
        &init_payload.x25519_public,
        &init_payload.ml_kem_public,
    )
    .unwrap();
    let mut ct = out.ml_kem_ciphertext.clone();
    ct[0] ^= 0xff;
    let secret = initiator.process_response(&out.x25519_public, &ct).unwrap();
    assert_ne!(secret.0, out.master_secret.0);
}

#[test]
fn handshake_respond_with_is_deterministic() {
    let initiator = HandshakeInitiator::new();
    let init_payload = initiator.generate_init_payload();
    let a = HandshakeResponder::respond_with(&init_payload.x25519_public, [7u8; 32], vec![1, 2, 3], [9u8; 32]);
    let b = HandshakeResponder::respond_with(&init_payload.x25519_public, [7u8; 32], vec![1, 2, 3], [9u8; 32]);
    assert_eq!(a.x25519_public, b.x25519_public);
    assert_eq!(a.master_secret.0, b.master_secret.0);
    assert_eq!(a.ml_kem_ciphertext, vec![1, 2, 3]);
    let c = HandshakeResponder::respond_with(&init_payload.x25519_public, [7u8; 32], vec![1, 2, 3], [8u8; 32]);
    assert_ne!(a.master_secret.0, c.master_secret.0);
}

#[test]
fn handshake_error_messages() {
    assert_eq!(HandshakeError::InvalidMlKemKeyLength.message(), "Invalid ML-KEM public key length");
    assert_eq!(HandshakeError::DecapsulationFailed.message(), "Decapsulation failed");
}

#[test]
fn init_payload_carries_a_full_ml_kem_key() {
    let initiator = HandshakeInitiator::new();
    let payload = initiator.generate_init_payload();
    assert_eq!(payload.ml_kem_public.len(), 1184);
    assert_eq!(initiator.generate_init_payload().ml_kem_public, payload.ml_kem_public);
    assert!(HandshakeResponder::process_init_and_respond(&payload.x25519_public, &payload.ml_kem_public).is_ok());
}
