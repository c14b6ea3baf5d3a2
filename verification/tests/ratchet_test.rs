use marrow::ratchet::{DoubleRatchet, EncryptedMessage, Header, RatchetError, MAX_SKIPPED_KEYS};
use rand::rngs::OsRng;
use x25519_dalek::{PublicKey, StaticSecret};

fn anek_keys() -> ([u8; 32], [u8; 32]) {
    let anek_dh = StaticSecret::random_from_rng(OsRng);
    let anek_dh_pub = PublicKey::from(&anek_dh);
    (anek_dh.to_bytes(), anek_dh_pub.to_bytes())
}

#[test]
fn test_double_ratchet_basic_exchange() {
    let shared_secret = [42u8; 32];
    let (anek_dh, anek_dh_pub) = anek_keys();

    let mut ventie = DoubleRatchet::new_ventie(shared_secret, anek_dh_pub);
    let mut anek = DoubleRatchet::new_anek(shared_secret, anek_dh);

    let ad = b"context-ad";

    let msg1 = ventie.encrypt(b"Hello anek", ad).unwrap();
    let decrypted1 = anek.decrypt(&msg1, ad).unwrap();
    assert_eq!(decrypted1, b"Hello anek");

    let msg2 = anek.encrypt(b"Hello ventie", ad).unwrap();
    let decrypted2 = ventie.decrypt(&msg2, ad).unwrap();
    assert_eq!(decrypted2, b"Hello ventie");
}

#[test]
fn test_out_of_order_messages() {
    let shared_secret = [99u8; 32];
    let (anek_dh, anek_dh_pub) = anek_keys();

    let mut ventie = DoubleRatchet::new_ventie(shared_secret, anek_dh_pub);
    let mut anek = DoubleRatchet::new_anek(shared_secret, anek_dh);

    let ad = b"test";

    let msg1 = ventie.encrypt(b"Message 1", ad).unwrap();
    let msg2 = ventie.encrypt(b"Message 2", ad).unwrap();

    let dec2 = anek.decrypt(&msg2, ad).unwrap();
    assert_eq!(dec2, b"Message 2");

    let dec1 = anek.decrypt(&msg1, ad).unwrap();
    assert_eq!(dec1, b"Message 1");
}

#[test]
fn ratchet_headers_count_messages() {
    let (anek_dh, anek_dh_pub) = anek_keys();
    let ventie_secret = [5u8; 32];
    let mut ventie = DoubleRatchet::new_ventie_with_secret([1u8; 32], anek_dh_pub, ventie_secret);
    let mut anek = DoubleRatchet::new_anek([1u8; 32], anek_dh);
    let m0 = ventie.encrypt(b"a", b"").unwrap();
    let m1 = ventie.encrypt(b"bb", b"").unwrap();
    let ventie_pub = PublicKey::from(&StaticSecret::from(ventie_secret)).to_bytes();
    assert_eq!(m0.header, Header { dh_pub: ventie_pub, pn: 0, n: 0 });
    assert_eq!(m1.header.n, 1);
    // plaintext plus a 16-byte tag
    assert_eq!(m1.ciphertext.len(), 2 + 16);
    assert_eq!(anek.decrypt(&m0, b"").unwrap(), b"a");
    assert_eq!(anek.decrypt(&m1, b"").unwrap(), b"bb");
    // the reply carries the receiver's new ratchet key and its previous chain length
    let reply = anek.encrypt(b"r", b"").unwrap();
    assert_eq!(reply.header.pn, 0);
    assert_eq!(reply.header.n, 0);
    assert_ne!(reply.header.dh_pub, PublicKey::from(&StaticSecret::from(anek_dh)).to_bytes());
    assert_eq!(ventie.decrypt(&reply, b"").unwrap(), b"r");
}

#[test]
fn ratchet_receiver_cannot_send_first() {
    let (anek_dh, _) = anek_keys();
    let mut anek = DoubleRatchet::new_anek([3u8; 32], anek_dh);
    assert!(matches!(anek.encrypt(b"x", b""), Err(RatchetError::DecryptionFailed)));
}

#[test]
fn ratchet_wrong_associated_data_fails() {
    let (anek_dh, anek_dh_pub) = anek_keys();
    let mut ventie = DoubleRatchet::new_ventie([4u8; 32], anek_dh_pub);
    let mut anek = DoubleRatchet::new_anek([4u8; 32], anek_dh);
    let m = ventie.encrypt(b"secret", b"ad-1").unwrap();
    assert!(matches!(anek.decrypt(&m, b"ad-2"), Err(RatchetError::DecryptionFailed)));
    // the failed attempt left the session in step: the genuine delivery works
    assert_eq!(anek.decrypt(&m, b"ad-1").unwrap(), b"secret");
    let next = ventie.encrypt(b"more", b"ad-1").unwrap();
    assert_eq!(anek.decrypt(&next, b"ad-1").unwrap(), b"more");
}

#[test]
fn ratchet_tampered_header_fails() {
    let (anek_dh, anek_dh_pub) = anek_keys();
    let mut ventie = DoubleRatchet::new_ventie([6u8; 32], anek_dh_pub);
    let mut anek = DoubleRatchet::new_anek([6u8; 32], anek_dh);
    let m = ventie.encrypt(b"hello", b"").unwrap();
    let mut tampered = m.clone();
    tampered.ciphertext[0] ^= 1;
    assert!(anek.decrypt(&tampered, b"").is_err());
    assert_eq!(anek.decrypt(&m, b"").unwrap(), b"hello");
}

#[test]
fn ratchet_forged_ratchet_key_does_not_move_the_session() {
    let (anek_dh, anek_dh_pub) = anek_keys();
    let mut ventie = DoubleRatchet::new_ventie([2u8; 32], anek_dh_pub);
    let mut anek = DoubleRatchet::new_anek([2u8; 32], anek_dh);
    let m0 = ventie.encrypt(b"zero", b"").unwrap();
    assert_eq!(anek.decrypt(&m0, b"").unwrap(), b"zero");
    let m1 = ventie.encrypt(b"one", b"").unwrap();
    let forged = EncryptedMessage {
        header: Header { dh_pub: [9u8; 32], pn: 1, n: 0 },
        ciphertext: m1.ciphertext.clone(),
    };
    assert!(anek.decrypt(&forged, b"").is_err());
    assert_eq!(anek.decrypt(&m1, b"").unwrap(), b"one");
    let reply = anek.encrypt(b"back", b"").unwrap();
    assert_eq!(ventie.decrypt(&reply, b"").unwrap(), b"back");
}

#[test]
fn ratchet_message_delivered_once() {
    let (anek_dh, anek_dh_pub) = anek_keys();
    let mut ventie = DoubleRatchet::new_ventie([12u8; 32], anek_dh_pub);
    let mut anek = DoubleRatchet::new_anek([12u8; 32], anek_dh);
    let m0 = ventie.encrypt(b"a", b"").unwrap();
    let m1 = ventie.encrypt(b"b", b"").unwrap();
    assert_eq!(anek.decrypt(&m1, b"").unwrap(), b"b");
    assert_eq!(anek.decrypt(&m0, b"").unwrap(), b"a");
    assert!(anek.decrypt(&m0, b"").is_err());
    assert!(anek.decrypt(&m1, b"").is_err());
}

#[test]
fn ratchet_too_many_skipped_keys() {
    let (anek_dh, anek_dh_pub) = anek_keys();
    let mut ventie = DoubleRatchet::new_ventie([8u8; 32], anek_dh_pub);
    let mut anek = DoubleRatchet::new_anek([8u8; 32], anek_dh);
    let m = ventie.encrypt(b"first", b"").unwrap();
    let far = EncryptedMessage {
        header: Header { dh_pub: m.header.dh_pub, pn: 0, n: MAX_SKIPPED_KEYS as u32 + 1 },
        ciphertext: m.ciphertext.clone(),
    };
    assert!(matches!(anek.decrypt(&far, b""), Err(RatchetError::TooManySkippedKeys)));
}

#[test]
fn ratchet_error_messages() {
    assert_eq!(RatchetError::DecryptionFailed.message(), "Decryption failed");
    assert_eq!(RatchetError::TooManySkippedKeys.message(), "Too many skipped keys");
    assert_eq!(RatchetError::KeyNotFound.message(), "Key not found for message");
    assert_eq!(RatchetError::InvalidPublicKey.message(), "Invalid public key");
}

#[test]
fn ratchet_interleaved_conversation_delivers_everything() {
    let (anek_dh, anek_dh_pub) = anek_keys();
    let mut ventie = DoubleRatchet::new_ventie([7u8; 32], anek_dh_pub);
    let mut anek = DoubleRatchet::new_anek([7u8; 32], anek_dh);
    let ad = b"conv";

    // Ventie's first chain: three messages, delivered out of order.
    let v0 = ventie.encrypt(b"v0", ad).unwrap();
    let v1 = ventie.encrypt(b"v1", ad).unwrap();
    let v2 = ventie.encrypt(b"v2", ad).unwrap();
    assert_eq!(anek.decrypt(&v1, ad).unwrap(), b"v1");

    // Anek answers on its first chain while two of Ventie's are in flight.
    let a0 = anek.encrypt(b"a0", ad).unwrap();
    let a1 = anek.encrypt(b"a1", ad).unwrap();
    assert_eq!(anek.decrypt(&v2, ad).unwrap(), b"v2");

    // Ventie receives the second answer first, ratchets, and sends again.
    assert_eq!(ventie.decrypt(&a1, ad).unwrap(), b"a1");
    let v3 = ventie.encrypt(b"v3", ad).unwrap();
    let v4 = ventie.encrypt(b"v4", ad).unwrap();

    // Anek gets Ventie's new chain before the last message of the old one.
    assert_eq!(anek.decrypt(&v4, ad).unwrap(), b"v4");
    let a2 = anek.encrypt(b"a2", ad).unwrap();
    assert_eq!(anek.decrypt(&v0, ad).unwrap(), b"v0");
    assert_eq!(anek.decrypt(&v3, ad).unwrap(), b"v3");

    // Ventie gets Anek's newest chain, then the older answer.
    assert_eq!(ventie.decrypt(&a2, ad).unwrap(), b"a2");
    assert_eq!(ventie.decrypt(&a0, ad).unwrap(), b"a0");

    // Each message is delivered once: a replay is refused.
    assert!(anek.decrypt(&v1, ad).is_err());
}
