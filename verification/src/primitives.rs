//! Calls into the outside cryptographic and encoding crates.
//!
//! Every function here is trusted: Verus believes its contract without reading
//! its body. Each contract names what the outside function returns and adds only
//! facts that its source or documentation shows.

use vstd::prelude::*;
use chacha20poly1305::aead::{Aead, KeyInit, Payload};
use ml_kem::kem::Decapsulate;
use ml_kem::{EncapsulateDeterministic, EncodedSizeUser, KemCore};
use rand::Rng;
use rand::RngCore;
use zeroize::Zeroize;

verus! {

/// X25519 public key of a 32-byte secret (the base point multiplied by the clamped secret).
pub uninterp spec fn x25519_base(secret: Seq<u8>) -> Seq<u8>;

/// X25519 shared secret of a 32-byte secret with a 32-byte public key.
pub uninterp spec fn x25519(secret: Seq<u8>, public: Seq<u8>) -> Seq<u8>;

/// HKDF-SHA256 with the given salt and input key material, expanded with `info`
/// into 32 bytes of output key material.
pub uninterp spec fn hkdf_sha256(salt: Seq<u8>, ikm: Seq<u8>, info: Seq<u8>) -> Seq<u8>;

/// ChaCha20-Poly1305 ciphertext (with its 16-byte tag) of `plaintext`.
pub uninterp spec fn chacha_seal(key: Seq<u8>, nonce: Seq<u8>, aad: Seq<u8>, plaintext: Seq<u8>) -> Seq<u8>;

/// ChaCha20-Poly1305 decryption of `ciphertext`: the plaintext, or `None` when
/// the tag does not authenticate.
pub uninterp spec fn chacha_open(key: Seq<u8>, nonce: Seq<u8>, aad: Seq<u8>, ciphertext: Seq<u8>) -> Option<Seq<u8>>;

/// Argon2id (version 0x13) output of 32 bytes for a password and salt under the
/// given memory, time and parallelism costs.
pub uninterp spec fn argon2id_key(password: Seq<u8>, salt: Seq<u8>, m_cost: u32, t_cost: u32, p_cost: u32) -> Seq<u8>;

/// Ed25519 verifying (public) key of a 32-byte signing key seed.
pub uninterp spec fn ed25519_public(secret: Seq<u8>) -> Seq<u8>;

/// The 32-byte seed an Ed25519 signing key holds (what `SigningKey::to_bytes`
/// returns).
pub uninterp spec fn ed25519_signing_seed(key: ed25519_dalek::SigningKey) -> Seq<u8>;

/// English BIP-39 phrase of the given entropy.
pub uninterp spec fn bip39_phrase(entropy: Seq<u8>) -> Seq<char>;

/// BIP-39 seed of an English phrase under a passphrase, or `None` when the
/// phrase is not a valid English mnemonic.
pub uninterp spec fn bip39_seed(phrase: Seq<char>, passphrase: Seq<char>) -> Option<Seq<u8>>;

/// ML-KEM-768 shared key obtained by decapsulating `ciphertext` with an encoded
/// decapsulation key.
pub uninterp spec fn mlkem_decaps(decaps_key: Seq<u8>, ciphertext: Seq<u8>) -> Seq<u8>;

/// ML-KEM-768 ciphertext and shared key of encapsulating the 32-byte message
/// `m` to an encoded encapsulation key.
pub uninterp spec fn mlkem_encaps(encaps_key: Seq<u8>, m: Seq<u8>) -> (Seq<u8>, Seq<u8>);

/// The encapsulation key held inside an encoded ML-KEM-768 decapsulation key,
/// after its 1152-byte decryption key.
pub open spec fn mlkem_held_encaps_key(decaps_key: Seq<u8>) -> Seq<u8> {
    decaps_key.subrange(1152, 2336)
}

/// Diffie-Hellman agreement of `secret` with the public key `public`: whatever
/// secret `t` has `public` as its public key computes the same shared secret
/// with our public key.
pub open spec fn dh_agrees(secret: Seq<u8>, public: Seq<u8>) -> bool {
    forall|t: Seq<u8>|
        #![trigger x25519_base(t)]
        t.len() == 32 && public == x25519_base(t) ==> x25519(secret, public) == x25519(
            t,
            x25519_base(secret),
        )
}

/// The view of an optional byte vector.
pub open spec fn opt_bytes(v: Option<Vec<u8>>) -> Option<Seq<u8>> {
    match v {
        Some(b) => Some(b@),
        None => None,
    }
}

/// The ChaCha20-Poly1305 encryption of this crate refuses plaintexts of
/// `2^32 - 1` or more 64-byte blocks.
pub open spec fn aead_plaintext_fits(len: nat) -> bool {
    len / 64 < 0xffff_ffff
}

/// Number of words of a phrase whose words are separated by single spaces.
pub open spec fn word_count(s: Seq<char>) -> nat
    decreases s.len(),
{
    if s.len() == 0 {
        0
    } else {
        let starts_word: nat = if s.last() != ' ' && (s.len() == 1 || s[s.len() - 2] == ' ') {
            1
        } else {
            0
        };
        word_count(s.drop_last()) + starts_word
    }
}

/// Whether `s` is words of lower-case ASCII letters joined by single spaces:
/// only letters and spaces, no space first or last, no two spaces in a row.
pub open spec fn spaced_lower_words(s: Seq<char>) -> bool {
    &&& s.len() > 0
    &&& s[0] != ' '
    &&& s.last() != ' '
    &&& forall|i: int| 0 <= i < s.len() ==> #[trigger] s[i] == ' ' || ('a' <= s[i] && s[i] <= 'z')
    &&& forall|i: int| 0 <= i < s.len() - 1 ==> !(#[trigger] s[i] == ' ' && s[i + 1] == ' ')
}

/// Lower-case hexadecimal digit of a value below 16.
pub open spec fn hex_digit(d: u8) -> char {
    if d < 10 {
        (('0' as u8) + d) as char
    } else {
        (('a' as u8) + (d - 10)) as char
    }
}

/// Lower-case hexadecimal text of a byte string, two digits per byte.
pub open spec fn hex_lower(b: Seq<u8>) -> Seq<char>
    decreases b.len(),
{
    if b.len() == 0 {
        seq![]
    } else {
        hex_lower(b.drop_last()) + seq![hex_digit(b.last() / 16), hex_digit(b.last() % 16)]
    }
}

/// `n` bytes from the operating system's random number generator
/// (`rand::rngs::OsRng::fill_bytes`). Nothing is stated of their value.
#[verifier::external_body]
pub(crate) fn os_random_bytes(n: usize) -> (bytes: Vec<u8>)
    ensures
        bytes@.len() == n,
{
    let mut bytes = vec![0u8; n];
    rand::rngs::OsRng.fill_bytes(&mut bytes);
    bytes
}

/// `zeroize::Zeroize::zeroize` on a byte array: every byte is overwritten with
/// zero, by writes the compiler does not remove.
#[verifier::external_body]
pub(crate) fn wipe_array<const N: usize>(bytes: &mut [u8; N])
    ensures
        final(bytes)@ == Seq::new(N as nat, |i: int| 0u8),
{
    bytes.zeroize();
}

/// `zeroize::Zeroize::zeroize` on a byte vector: its bytes (and spare
/// capacity) are overwritten with zero, and it is left empty.
#[verifier::external_body]
pub(crate) fn wipe_vec(bytes: &mut Vec<u8>)
    ensures
        final(bytes)@.len() == 0,
{
    bytes.zeroize();
}

/// `rand::thread_rng().gen_range(low..=high)`: a number drawn at random from
/// `low` to `high`, both included. Nothing more is stated of its value. The
/// range must not be empty, or the call panics.
#[verifier::external_body]
pub(crate) fn random_in_range(low: u64, high: u64) -> (n: u64)
    requires
        low <= high,
    ensures
        low <= n <= high,
{
    rand::thread_rng().gen_range(low..=high)
}

/// `x25519_dalek::PublicKey::from(&StaticSecret::from(secret))`: the public key
/// of a secret, named `x25519_base`.
#[verifier::external_body]
pub(crate) fn x25519_public_key(secret: &[u8; 32]) -> (public: [u8; 32])
    ensures
        public@ == x25519_base(secret@),
{
    x25519_dalek::PublicKey::from(&x25519_dalek::StaticSecret::from(*secret)).to_bytes()
}

/// `x25519_dalek::StaticSecret::diffie_hellman`: the shared secret, named `x25519`.
/// The second clause is Diffie-Hellman agreement: when the peer's public key is
/// the public key of some secret `t`, the result is also what `t` computes with
/// our public key.
#[verifier::external_body]
pub(crate) fn x25519_diffie_hellman(secret: &[u8; 32], public: &[u8; 32]) -> (shared: [u8; 32])
    ensures
        shared@ == x25519(secret@, public@),
        forall|t: Seq<u8>|
            #![trigger x25519_base(t)]
            t.len() == 32 && public@ == x25519_base(t) ==> shared@ == x25519(t, x25519_base(secret@)),
{
    let secret = x25519_dalek::StaticSecret::from(*secret);
    secret.diffie_hellman(&x25519_dalek::PublicKey::from(*public)).to_bytes()
}

/// `hkdf::Hkdf::<Sha256>::new(Some(salt), ikm)` followed by `expand(info)` into 32
/// bytes (which never fails: HKDF-SHA256 allows up to 8160 output bytes).
#[verifier::external_body]
pub(crate) fn hkdf_sha256_32(salt: &[u8], ikm: &[u8], info: &[u8]) -> (okm: [u8; 32])
    ensures
        okm@ == hkdf_sha256(salt@, ikm@, info@),
{
    let hk = hkdf::Hkdf::<sha2::Sha256>::new(Some(salt), ikm);
    let mut okm = [0u8; 32];
    hk.expand(info, &mut okm).expect("32 bytes is a valid HKDF-SHA256 output length");
    okm
}

/// `ChaCha20Poly1305::encrypt` with a payload of plaintext and associated data.
/// It fails exactly when the plaintext holds `2^32 - 1` or more 64-byte blocks;
/// otherwise the ciphertext is the plaintext's length plus a 16-byte tag, and
/// decrypting it with the same key, nonce and associated data gives back the
/// plaintext.
#[verifier::external_body]
pub(crate) fn chacha20poly1305_seal(key: &[u8; 32], nonce: &[u8; 12], plaintext: &[u8], aad: &[u8]) -> (ct: Option<Vec<u8>>)
    requires
        plaintext@.len() + 16 <= isize::MAX,
    ensures
        ct is Some <==> aead_plaintext_fits(plaintext@.len()),
        ct matches Some(c) ==> {
            &&& c@ == chacha_seal(key@, nonce@, aad@, plaintext@)
            &&& c@.len() == plaintext@.len() + 16
            &&& chacha_open(key@, nonce@, aad@, c@) == Some(plaintext@)
        },
{
    let cipher = chacha20poly1305::ChaCha20Poly1305::new(chacha20poly1305::Key::from_slice(key));
    cipher.encrypt(chacha20poly1305::Nonce::from_slice(nonce), Payload { msg: plaintext, aad }).ok()
}

/// `ChaCha20Poly1305::decrypt` with a payload of ciphertext and associated data,
/// named `chacha_open`.
#[verifier::external_body]
pub(crate) fn chacha20poly1305_open(key: &[u8; 32], nonce: &[u8; 12], ciphertext: &[u8], aad: &[u8]) -> (pt: Option<Vec<u8>>)
    ensures
        opt_bytes(pt) == chacha_open(key@, nonce@, aad@, ciphertext@),
{
    let cipher = chacha20poly1305::ChaCha20Poly1305::new(chacha20poly1305::Key::from_slice(key));
    cipher.decrypt(chacha20poly1305::Nonce::from_slice(nonce), Payload { msg: ciphertext, aad }).ok()
}

/// `argon2::Params::new(m_cost, t_cost, p_cost, Some(32))` and
/// `Argon2::new(Argon2id, V0x13, params).hash_password_into` into 32 bytes.
/// With costs that `Params::new` accepts and a 16-byte salt it fails exactly when
/// the password is longer than `0xFFFF_FFFF` bytes.
#[verifier::external_body]
pub(crate) fn argon2id_hash(password: &[u8], salt: &[u8; 16], m_cost: u32, t_cost: u32, p_cost: u32) -> (key: Option<[u8; 32]>)
    requires
        8 <= m_cost,
        8 * p_cost <= m_cost,
        1 <= t_cost,
        1 <= p_cost <= 0xff_ffff,
    ensures
        key is Some <==> password@.len() <= 0xffff_ffff,
        key matches Some(k) ==> k@ == argon2id_key(password@, salt@, m_cost, t_cost, p_cost),
{
    let params = argon2::Params::new(m_cost, t_cost, p_cost, Some(32)).ok()?;
    let hasher = argon2::Argon2::new(argon2::Algorithm::Argon2id, argon2::Version::V0x13, params);
    let mut key = [0u8; 32];
    hasher.hash_password_into(password, salt, &mut key).ok()?;
    Some(key)
}

/// `ed25519_dalek::SigningKey::from_bytes(secret).verifying_key().to_bytes()`,
/// named `ed25519_public`.
#[verifier::external_body]
pub(crate) fn ed25519_verifying_key(secret: &[u8; 32]) -> (public: [u8; 32])
    ensures
        public@ == ed25519_public(secret@),
{
    ed25519_dalek::SigningKey::from_bytes(secret).verifying_key().to_bytes()
}

/// The outside signing key type, carried through without being read.
#[verifier::external_type_specification]
#[verifier::external_body]
pub struct ExSigningKey(ed25519_dalek::SigningKey);

/// `ed25519_dalek::SigningKey::from_bytes`: the key keeps the 32-byte seed it
/// was made from, the bytes that `SigningKey::to_bytes` gives back, named
/// `ed25519_signing_seed`.
#[verifier::external_body]
pub(crate) fn ed25519_signing_key(secret: &[u8; 32]) -> (key: ed25519_dalek::SigningKey)
    ensures
        ed25519_signing_seed(key) == secret@,
{
    ed25519_dalek::SigningKey::from_bytes(secret)
}

/// `hex::encode`: two lower-case hexadecimal digits per byte.
#[verifier::external_body]
pub(crate) fn hex_encode(bytes: &[u8]) -> (text: String)
    ensures
        text@ == hex_lower(bytes@),
{
    hex::encode(bytes)
}

/// `bip39::Mnemonic::from_entropy(entropy)` written out with `to_string`: the
/// English phrase, named `bip39_phrase`, whose words (taken from the English
/// word list, lower-case letters only) are joined by single spaces; 16 bytes of
/// entropy give 12 words and 32 bytes give 24. The phrase carries the checksum
/// of its entropy, so `Mnemonic::parse_in_normalized` accepts it again and it
/// has a seed under every passphrase.
#[verifier::external_body]
pub(crate) fn bip39_phrase_of(entropy: &[u8]) -> (phrase: String)
    requires
        entropy@.len() == 16 || entropy@.len() == 32,
    ensures
        phrase@ == bip39_phrase(entropy@),
        word_count(phrase@) == entropy@.len() * 3 / 4,
        spaced_lower_words(phrase@),
        forall|passphrase: Seq<char>| #[trigger] bip39_seed(phrase@, passphrase) is Some,
{
    bip39::Mnemonic::from_entropy(entropy).expect("16 and 32 bytes are valid BIP-39 entropy").to_string()
}

/// `bip39::Mnemonic::parse_in_normalized(Language::English, phrase)` followed by
/// `to_seed(passphrase)`, named `bip39_seed`.
#[verifier::external_body]
pub(crate) fn bip39_seed_of(phrase: &str, passphrase: &str) -> (seed: Option<[u8; 64]>)
    ensures
        match seed {
            Some(s) => bip39_seed(phrase@, passphrase@) == Some(s@),
            None => bip39_seed(phrase@, passphrase@) is None,
        },
{
    match bip39::Mnemonic::parse_in_normalized(bip39::Language::English, phrase) {
        Ok(mnemonic) => Some(mnemonic.to_seed(passphrase)),
        Err(_) => None,
    }
}

/// `ml_kem::MlKem768::generate(&mut OsRng)` with both keys encoded: a
/// 2400-byte decapsulation key and a 1184-byte encapsulation key. The keys
/// depend on chance. The encapsulation key returned is the one the
/// decapsulation key holds: an encoded decapsulation key is the decryption key
/// (1152 bytes), the encapsulation key, its hash and a 32-byte secret.
#[verifier::external_body]
pub(crate) fn mlkem768_generate() -> (keys: (Vec<u8>, Vec<u8>))
    ensures
        keys.0@.len() == 2400,
        keys.1@.len() == 1184,
        mlkem_held_encaps_key(keys.0@) == keys.1@,
{
    let (dk, ek) = ml_kem::MlKem768::generate(&mut rand::rngs::OsRng);
    (dk.as_bytes().to_vec(), ek.as_bytes().to_vec())
}

/// `EncapsulationKey::<MlKem768Params>::from_bytes` followed by
/// `encapsulate_deterministic(m)` (which never fails in this version), named
/// `mlkem_encaps`: a 1088-byte ciphertext and a 32-byte shared key, functions
/// of the key and the 32-byte message `m` alone. What decapsulation of the
/// ciphertext gives is not stated, since ML-KEM may fail to decapsulate with
/// negligible probability.
#[verifier::external_body]
pub(crate) fn mlkem768_encapsulate(encaps_key: &[u8], m: &[u8; 32]) -> (out: (Vec<u8>, [u8; 32]))
    requires
        encaps_key@.len() == 1184,
    ensures
        out.0@ == mlkem_encaps(encaps_key@, m@).0,
        out.1@ == mlkem_encaps(encaps_key@, m@).1,
        out.0@.len() == 1088,
{
    let encoded = ml_kem::Encoded::<ml_kem::kem::EncapsulationKey<ml_kem::MlKem768Params>>::try_from(encaps_key).expect("1184 bytes");
    let ek = ml_kem::kem::EncapsulationKey::<ml_kem::MlKem768Params>::from_bytes(&encoded);
    let m: ml_kem::B32 = (*m).into();
    let (ct, shared) = ek.encapsulate_deterministic(&m).expect("ML-KEM encapsulation does not fail");
    let mut key = [0u8; 32];
    key.copy_from_slice(shared.as_slice());
    (ct.as_slice().to_vec(), key)
}

/// `DecapsulationKey::<MlKem768Params>::from_bytes` followed by `decapsulate`
/// (which never fails in this version), named `mlkem_decaps`.
#[verifier::external_body]
pub(crate) fn mlkem768_decapsulate(decaps_key: &[u8], ciphertext: &[u8]) -> (shared: [u8; 32])
    requires
        decaps_key@.len() == 2400,
        ciphertext@.len() == 1088,
    ensures
        shared@ == mlkem_decaps(decaps_key@, ciphertext@),
{
    let encoded = ml_kem::Encoded::<ml_kem::kem::DecapsulationKey<ml_kem::MlKem768Params>>::try_from(decaps_key).expect("2400 bytes");
    let dk = ml_kem::kem::DecapsulationKey::<ml_kem::MlKem768Params>::from_bytes(&encoded);
    let ct = ml_kem::Ciphertext::<ml_kem::MlKem768>::try_from(ciphertext).expect("1088 bytes");
    let shared = dk.decapsulate(&ct).expect("ML-KEM decapsulation does not fail");
    let mut key = [0u8; 32];
    key.copy_from_slice(shared.as_slice());
    key
}

} // verus!
