use chacha20poly1305::aead::{Aead, KeyInit};
use marrow::identity::{CryptoError, EncryptedVault, Identity};
use marrow::mnemonic::MnemonicKey;

#[test]
fn test_identity_encryption_cycle() {
    let identity = Identity::generate();
    let password = b"super_secret_master_password";

    let vault = identity.export_encrypted(password).unwrap();
    let decrypted = Identity::import_encrypted(&vault, password).unwrap();

    assert_eq!(identity.verifying_key(), decrypted.verifying_key());
}

#[test]
fn test_invalid_password_fails() {
    let identity = Identity::generate();
    let password = b"correct_password";
    let wrong_password = b"wrong_password";

    let vault = identity.export_encrypted(password).unwrap();
    assert!(Identity::import_encrypted(&vault, wrong_password).is_err());
}

#[test]
fn test_mnemonic_generation_and_derivation() {
    let phrase_12 = MnemonicKey::generate_phrase_12();
    assert_eq!(phrase_12.split_whitespace().count(), 12);

    let phrase_24 = MnemonicKey::generate_phrase_24();
    assert_eq!(phrase_24.split_whitespace().count(), 24);

    let id1 = MnemonicKey::derive_identity(&phrase_12, None).unwrap();
    let id2 = MnemonicKey::derive_identity(&phrase_12, None).unwrap();

    assert_eq!(id1.verifying_key(), id2.verifying_key());

    let id_passphrase = MnemonicKey::derive_identity(&phrase_12, Some("pass123")).unwrap();
    assert_ne!(id1.verifying_key(), id_passphrase.verifying_key());
}

#[test]
fn vault_round_trip_with_fixed_salt_and_nonce() {
    let identity = Identity::from_bytes(&[7u8; 32]);
    let vault = identity.seal_with(b"pw", [1u8; 16], [2u8; 12]).unwrap();
    assert_eq!(vault.salt, [1u8; 16]);
    assert_eq!(vault.nonce, [2u8; 12]);
    assert_eq!(vault.ciphertext.len(), 32 + 16);
    let opened = Identity::import_encrypted(&vault, b"pw").unwrap();
    assert_eq!(opened.secret_bytes(), [7u8; 32]);
    // Sealing is deterministic in the salt and nonce.
    let again = identity.seal_with(b"pw", [1u8; 16], [2u8; 12]).unwrap();
    assert_eq!(vault, again);
    // The ciphertext is not the seed in the clear.
    assert_ne!(&vault.ciphertext[..32], &[7u8; 32][..]);
}

#[test]
fn vault_wrong_password_is_decryption_error() {
    let identity = Identity::from_bytes(&[9u8; 32]);
    let vault = identity.seal_with(b"right", [3u8; 16], [4u8; 12]).unwrap();
    assert!(matches!(
        Identity::import_encrypted(&vault, b"wrong"),
        Err(CryptoError::DecryptionError)
    ));
}

#[test]
fn vault_with_tampered_ciphertext_fails() {
    let identity = Identity::from_bytes(&[5u8; 32]);
    let good = identity.seal_with(b"pw", [6u8; 16], [7u8; 12]).unwrap();
    let truncated = EncryptedVault {
        salt: good.salt,
        nonce: good.nonce,
        ciphertext: good.ciphertext[..20].to_vec(),
    };
    assert!(matches!(
        Identity::import_encrypted(&truncated, b"pw"),
        Err(CryptoError::DecryptionError)
    ));
}

#[test]
fn vault_with_short_plaintext_is_invalid_key() {
    let salt = [8u8; 16];
    let nonce = [9u8; 12];
    let params = argon2::Params::new(65536, 3, 1, Some(32)).unwrap();
    let hasher = argon2::Argon2::new(argon2::Algorithm::Argon2id, argon2::Version::V0x13, params);
    let mut key = [0u8; 32];
    hasher.hash_password_into(b"pw", &salt, &mut key).unwrap();
    let cipher = chacha20poly1305::ChaCha20Poly1305::new(chacha20poly1305::Key::from_slice(&key));
    let ciphertext = cipher
        .encrypt(chacha20poly1305::Nonce::from_slice(&nonce), &[1u8; 20][..])
        .unwrap();
    let vault = EncryptedVault { salt, nonce, ciphertext };
    assert!(matches!(
        Identity::import_encrypted(&vault, b"pw"),
        Err(CryptoError::InvalidKey)
    ));
}

#[test]
fn identity_bytes_and_public_hex() {
    // RFC 8032, Ed25519 test 1.
    let secret: [u8; 32] = hex::decode("9d61b19deffd5a60ba844af492ec2cc44449c5697b326919703bac031cae7f60")
        .unwrap()
        .try_into()
        .unwrap();
    let identity = Identity::from_bytes(&secret);
    assert_eq!(identity.secret_bytes(), secret);
    assert_eq!(
        identity.public_hex(),
        "d75a980182b10ab7d54bfed3c964073a0ee172f3daa62325af021a68f707511a"
    );
    assert_eq!(identity.signing_key().verifying_key().to_bytes(), identity.verifying_key());
    assert_eq!(identity.signing_key().to_bytes(), secret);
}

#[test]
fn mnemonic_known_vector() {
    // BIP-39 test vector: all-zero 16-byte entropy.
    let phrase = MnemonicKey::phrase_from_entropy(&[0u8; 16]);
    assert_eq!(
        phrase,
        "abandon abandon abandon abandon abandon abandon abandon abandon abandon abandon abandon about"
    );
    let id = MnemonicKey::derive_identity(&phrase, Some("TREZOR")).unwrap();
    // First 32 bytes of the vector's seed c55257c360c07c72...
    let expected_prefix = [0xc5u8, 0x52, 0x57, 0xc3, 0x60, 0xc0, 0x7c, 0x72];
    assert_eq!(&id.secret_bytes()[..8], &expected_prefix[..]);
}

#[test]
fn mnemonic_invalid_phrase_is_invalid_key() {
    assert!(matches!(
        MnemonicKey::derive_identity("not a valid phrase at all", None),
        Err(CryptoError::InvalidKey)
    ));
}

#[test]
fn crypto_error_messages() {
    assert_eq!(CryptoError::DecryptionError.message(), "Decryption failed or invalid password");
    assert_eq!(CryptoError::InvalidKey.message(), "Invalid key length or format");
}

#[test]
fn generated_phrases_are_spaced_lower_case_words_that_derive() {
    for phrase in [MnemonicKey::generate_phrase_12(), MnemonicKey::generate_phrase_24()] {
        assert!(phrase.chars().all(|c| c == ' ' || c.is_ascii_lowercase()));
        assert!(!phrase.starts_with(' ') && !phrase.ends_with(' ') && !phrase.contains("  "));
        assert!(MnemonicKey::derive_identity(&phrase, None).is_ok());
        assert!(MnemonicKey::derive_identity(&phrase, Some("extra words")).is_ok());
    }
}
