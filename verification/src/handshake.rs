//! Hybrid X25519 + ML-KEM-768 key agreement that yields a shared master secret.

use vstd::prelude::*;
use crate::bytes::{append_bytes, ascii_bytes, copy_array};
use crate::primitives::{
    dh_agrees, hkdf_sha256, hkdf_sha256_32, mlkem768_decapsulate, mlkem768_encapsulate,
    mlkem768_generate, mlkem_decaps, mlkem_encaps, mlkem_held_encaps_key, os_random_bytes, x25519, x25519_base, x25519_diffie_hellman,
    x25519_public_key,
};

verus! {

pub const X25519_PK_SIZE: usize = 32;

pub const ML_KEM_PK_SIZE: usize = 1184;

pub const ML_KEM_CT_SIZE: usize = 1088;

pub const SHARED_SECRET_SIZE: usize = 32;

/// Length of an encoded ML-KEM-768 decapsulation key.
pub const ML_KEM_DK_SIZE: usize = 2400;

#[derive(Debug, Clone, Copy, PartialEq, Eq, Structural)]
pub enum HandshakeError {
    InvalidX25519KeyLength,
    InvalidMlKemKeyLength,
    InvalidMlKemCiphertextLength,
    DecapsulationFailed,
    KdfFailed,
}

impl HandshakeError {
    /// Human-readable description of the error.
    pub fn message(&self) -> (text: &'static str)
        ensures
            text@ == match self {
                HandshakeError::InvalidX25519KeyLength => "Invalid X25519 public key length"@,
                HandshakeError::InvalidMlKemKeyLength => "Invalid ML-KEM public key length"@,
                HandshakeError::InvalidMlKemCiphertextLength => "Invalid ML-KEM ciphertext length"@,
                HandshakeError::DecapsulationFailed => "Decapsulation failed"@,
                HandshakeError::KdfFailed => "Key derivation failed"@,
            },
    {
        match self {
            HandshakeError::InvalidX25519KeyLength => "Invalid X25519 public key length",
            HandshakeError::InvalidMlKemKeyLength => "Invalid ML-KEM public key length",
            HandshakeError::InvalidMlKemCiphertextLength => "Invalid ML-KEM ciphertext length",
            HandshakeError::DecapsulationFailed => "Decapsulation failed",
            HandshakeError::KdfFailed => "Key derivation failed",
        }
    }
}

/// The 32-byte secret both sides of a handshake end up with.
pub struct MasterSecret(pub [u8; SHARED_SECRET_SIZE]);

/// The side that opens a handshake: an ephemeral X25519 key pair and an
/// ML-KEM-768 key pair (both encoded).
pub struct HandshakeInitiator {
    x25519_secret: [u8; 32],
    x25519_public: [u8; 32],
    ml_kem_decapskey: Vec<u8>,
    ml_kem_encapskey: Vec<u8>,
}

/// Abstract value of an initiator.
pub struct InitiatorView {
    pub x25519_secret: Seq<u8>,
    pub x25519_public: Seq<u8>,
    pub ml_kem_decapskey: Seq<u8>,
    pub ml_kem_encapskey: Seq<u8>,
}

impl View for HandshakeInitiator {
    type V = InitiatorView;

    closed spec fn view(&self) -> InitiatorView {
        InitiatorView {
            x25519_secret: self.x25519_secret@,
            x25519_public: self.x25519_public@,
            ml_kem_decapskey: self.ml_kem_decapskey@,
            ml_kem_encapskey: self.ml_kem_encapskey@,
        }
    }
}

/// What the initiator sends first.
pub struct InitiatorOutput {
    pub x25519_public: [u8; X25519_PK_SIZE],
    pub ml_kem_public: Vec<u8>,
}

/// What the responder sends back, with the master secret it derived.
pub struct ResponderOutput {
    pub x25519_public: [u8; X25519_PK_SIZE],
    pub ml_kem_ciphertext: Vec<u8>,
    pub master_secret: MasterSecret,
}

pub struct HandshakeResponder;

pub open spec fn handshake_salt_bytes() -> Seq<u8> {
    seq![0x4du8, 0x61, 0x72, 0x72, 0x6f, 0x77, 0x2d, 0x50, 0x51, 0x43, 0x2d, 0x48, 0x79, 0x62, 0x72, 0x69, 0x64, 0x2d, 0x48, 0x61, 0x6e, 0x64, 0x73, 0x68, 0x61, 0x6b, 0x65, 0x2d, 0x76, 0x31]
}

pub open spec fn master_secret_info_bytes() -> Seq<u8> {
    seq![0x6du8, 0x61, 0x73, 0x74, 0x65, 0x72, 0x20, 0x73, 0x65, 0x63, 0x72, 0x65, 0x74]
}

fn handshake_salt() -> (r: [u8; 30])
    ensures
        r@ == handshake_salt_bytes(),
{
    let r: [u8; 30] = [0x4du8, 0x61, 0x72, 0x72, 0x6f, 0x77, 0x2d, 0x50, 0x51, 0x43, 0x2d, 0x48, 0x79, 0x62, 0x72, 0x69, 0x64, 0x2d, 0x48, 0x61, 0x6e, 0x64, 0x73, 0x68, 0x61, 0x6b, 0x65, 0x2d, 0x76, 0x31];
    assert(r@ =~= handshake_salt_bytes());
    r
}

fn master_secret_info() -> (r: [u8; 13])
    ensures
        r@ == master_secret_info_bytes(),
{
    let r: [u8; 13] = [0x6du8, 0x61, 0x73, 0x74, 0x65, 0x72, 0x20, 0x73, 0x65, 0x63, 0x72, 0x65, 0x74];
    assert(r@ =~= master_secret_info_bytes());
    r
}

/// Master secret from the X25519 and ML-KEM shared secrets: HKDF-SHA256 over
/// their concatenation, with the handshake salt and the "master secret" label.
pub open spec fn hybrid_master_secret(x25519_ss: Seq<u8>, ml_kem_ss: Seq<u8>) -> Seq<u8> {
    hkdf_sha256(handshake_salt_bytes(), x25519_ss + ml_kem_ss, master_secret_info_bytes())
}

/// Law: the master secret is HKDF-SHA256 with the salt
/// "Marrow-PQC-Hybrid-Handshake-v1" and the label "master secret", keyed by the
/// X25519 shared secret followed by the ML-KEM shared secret. Both secrets
/// reach HKDF whole: with the same ML-KEM secret, two different X25519 secrets
/// of one length hand HKDF different key material, and likewise two different
/// ML-KEM secrets with the same X25519 secret.
pub proof fn lemma_master_secret_keyed_by_both(x25519_ss: Seq<u8>, ml_kem_ss: Seq<u8>, other: Seq<u8>)
    ensures
        hybrid_master_secret(x25519_ss, ml_kem_ss) == hkdf_sha256(
            ascii_bytes("Marrow-PQC-Hybrid-Handshake-v1"@),
            x25519_ss + ml_kem_ss,
            ascii_bytes("master secret"@),
        ),
        (x25519_ss + ml_kem_ss).take(x25519_ss.len() as int) == x25519_ss,
        (x25519_ss + ml_kem_ss).skip(x25519_ss.len() as int) == ml_kem_ss,
        other.len() == x25519_ss.len() && other != x25519_ss ==> other + ml_kem_ss != x25519_ss
            + ml_kem_ss,
        other != ml_kem_ss ==> x25519_ss + other != x25519_ss + ml_kem_ss,
{
    reveal_strlit("Marrow-PQC-Hybrid-Handshake-v1");
    reveal_strlit("master secret");
    assert(ascii_bytes("Marrow-PQC-Hybrid-Handshake-v1"@) =~= handshake_salt_bytes());
    assert(ascii_bytes("master secret"@) =~= master_secret_info_bytes());
    assert((x25519_ss + ml_kem_ss).take(x25519_ss.len() as int) =~= x25519_ss);
    assert((x25519_ss + ml_kem_ss).skip(x25519_ss.len() as int) =~= ml_kem_ss);
    if other.len() == x25519_ss.len() && other != x25519_ss {
        assert((other + ml_kem_ss).take(other.len() as int) =~= other);
    }
    if other != ml_kem_ss {
        assert((x25519_ss + other).skip(x25519_ss.len() as int) =~= other);
    }
}

/// Derives the master secret from the two shared secrets (which never fails).
fn derive_master_secret(x25519_ss: &[u8], ml_kem_ss: &[u8]) -> (r: Result<MasterSecret, HandshakeError>)
    ensures
        r matches Ok(m) && m.0@ == hybrid_master_secret(x25519_ss@, ml_kem_ss@),
{
    let mut ikm: Vec<u8> = Vec::new();
    append_bytes(&mut ikm, x25519_ss);
    append_bytes(&mut ikm, ml_kem_ss);
    let salt = handshake_salt();
    let info = master_secret_info();
    let okm = hkdf_sha256_32(&salt, ikm.as_slice(), &info);
    Ok(MasterSecret(okm))
}

/// A well-formed initiator: the X25519 public key belongs to the secret, the
/// ML-KEM keys have their encoded lengths, and the encapsulation key is the one
/// the decapsulation key holds.
pub open spec fn initiator_wf(v: InitiatorView) -> bool {
    &&& v.x25519_secret.len() == 32
    &&& v.x25519_public == x25519_base(v.x25519_secret)
    &&& v.ml_kem_decapskey.len() == ML_KEM_DK_SIZE
    &&& v.ml_kem_encapskey.len() == ML_KEM_PK_SIZE
    &&& mlkem_held_encaps_key(v.ml_kem_decapskey) == v.ml_kem_encapskey
}

impl HandshakeInitiator {
    #[verifier::type_invariant]
    closed spec fn well_formed(self) -> bool {
        initiator_wf(self@)
    }

    /// A fresh initiator: a random X25519 secret and a random ML-KEM-768 key pair.
    pub fn new() -> (r: Self)
        ensures
            initiator_wf(r@),
    {
        let bytes = os_random_bytes(32);
        let x25519_secret = copy_array::<32>(bytes.as_slice(), 0);
        let x25519_public = x25519_public_key(&x25519_secret);
        let (ml_kem_decapskey, ml_kem_encapskey) = mlkem768_generate();
        HandshakeInitiator { x25519_secret, x25519_public, ml_kem_decapskey, ml_kem_encapskey }
    }

    /// The public keys to send to the responder.
    pub fn generate_init_payload(&self) -> (out: InitiatorOutput)
        ensures
            out.x25519_public@ == self@.x25519_public,
            out.ml_kem_public@ == self@.ml_kem_encapskey,
            out.ml_kem_public@.len() == ML_KEM_PK_SIZE,
    {
        proof {
            use_type_invariant(self);
        }
        let mut ml_kem_public: Vec<u8> = Vec::new();
        append_bytes(&mut ml_kem_public, self.ml_kem_encapskey.as_slice());
        InitiatorOutput { x25519_public: self.x25519_public, ml_kem_public }
    }

    /// Completes the handshake with the responder's X25519 public key and ML-KEM
    /// ciphertext: the master secret from our X25519 agreement with the
    /// responder's key and our decapsulation of the ciphertext. Fails only when
    /// the ciphertext does not have `ML_KEM_CT_SIZE` bytes.
    pub fn process_response(self, responder_x25519_pk_bytes: &[u8; X25519_PK_SIZE], ml_kem_ct_bytes: &[u8]) -> (r: Result<MasterSecret, HandshakeError>)
        ensures
            ml_kem_ct_bytes@.len() != ML_KEM_CT_SIZE ==> r == Err::<MasterSecret, HandshakeError>(
                HandshakeError::InvalidMlKemCiphertextLength,
            ),
            ml_kem_ct_bytes@.len() == ML_KEM_CT_SIZE ==> (r matches Ok(m) && m.0@ == hybrid_master_secret(
                x25519(self@.x25519_secret, responder_x25519_pk_bytes@),
                mlkem_decaps(self@.ml_kem_decapskey, ml_kem_ct_bytes@),
            )),
            dh_agrees(self@.x25519_secret, responder_x25519_pk_bytes@),
    {
        proof {
            use_type_invariant(&self);
        }
        let dh = x25519_diffie_hellman(&self.x25519_secret, responder_x25519_pk_bytes);
        if ml_kem_ct_bytes.len() != ML_KEM_CT_SIZE {
            return Err(HandshakeError::InvalidMlKemCiphertextLength);
        }
        let ml_kem_secret = mlkem768_decapsulate(self.ml_kem_decapskey.as_slice(), ml_kem_ct_bytes);
        derive_master_secret(&dh, &ml_kem_secret)
    }
}

impl Default for HandshakeInitiator {
    fn default() -> (r: Self)
        ensures
            initiator_wf(r@),
    {
        Self::new()
    }
}

impl HandshakeResponder {
    /// The responder's reply given its X25519 secret and the ML-KEM
    /// ciphertext and shared key it encapsulated: its public key, the
    /// ciphertext, and the master secret from its X25519 agreement with the
    /// initiator's key and the encapsulated shared key.
    pub fn respond_with(
        initiator_x25519_pk_bytes: &[u8; X25519_PK_SIZE],
        x25519_secret: [u8; 32],
        ml_kem_ciphertext: Vec<u8>,
        ml_kem_shared: [u8; 32],
    ) -> (out: ResponderOutput)
        ensures
            out.x25519_public@ == x25519_base(x25519_secret@),
            out.ml_kem_ciphertext@ == ml_kem_ciphertext@,
            out.master_secret.0@ == hybrid_master_secret(
                x25519(x25519_secret@, initiator_x25519_pk_bytes@),
                ml_kem_shared@,
            ),
            dh_agrees(x25519_secret@, initiator_x25519_pk_bytes@),
    {
        let x25519_public = x25519_public_key(&x25519_secret);
        let dh = x25519_diffie_hellman(&x25519_secret, initiator_x25519_pk_bytes);
        let master_secret = match derive_master_secret(&dh, &ml_kem_shared) {
            Ok(m) => m,
            Err(_) => MasterSecret([0u8; 32]),
        };
        ResponderOutput { x25519_public, ml_kem_ciphertext, master_secret }
    }

    /// Answers an initiator's public keys with a fresh X25519 key and an
    /// ML-KEM encapsulation to the initiator's key. Fails only when the
    /// ML-KEM key does not have `ML_KEM_PK_SIZE` bytes.
    pub fn process_init_and_respond(
        initiator_x25519_pk_bytes: &[u8; X25519_PK_SIZE],
        initiator_ml_kem_pk_bytes: &[u8],
    ) -> (r: Result<ResponderOutput, HandshakeError>)
        ensures
            initiator_ml_kem_pk_bytes@.len() != ML_KEM_PK_SIZE ==> (r matches Err(e) && e
                == HandshakeError::InvalidMlKemKeyLength),
            initiator_ml_kem_pk_bytes@.len() == ML_KEM_PK_SIZE ==> (r matches Ok(out) && exists|
                secret: Seq<u8>,
                m: Seq<u8>,
            |
                {
                    &&& secret.len() == 32
                    &&& m.len() == 32
                    &&& out.x25519_public@ == x25519_base(secret)
                    &&& out.ml_kem_ciphertext@ == mlkem_encaps(initiator_ml_kem_pk_bytes@, m).0
                    &&& out.ml_kem_ciphertext@.len() == ML_KEM_CT_SIZE
                    &&& out.master_secret.0@ == hybrid_master_secret(
                        x25519(secret, initiator_x25519_pk_bytes@),
                        mlkem_encaps(initiator_ml_kem_pk_bytes@, m).1,
                    )
                    &&& dh_agrees(secret, initiator_x25519_pk_bytes@)
                }),
    {
        if initiator_ml_kem_pk_bytes.len() != ML_KEM_PK_SIZE {
            return Err(HandshakeError::InvalidMlKemKeyLength);
        }
        let bytes = os_random_bytes(32);
        let my_secret = copy_array::<32>(bytes.as_slice(), 0);
        let m_bytes = os_random_bytes(32);
        let m = copy_array::<32>(m_bytes.as_slice(), 0);
        let (ct, shared) = mlkem768_encapsulate(initiator_ml_kem_pk_bytes, &m);
        let out = Self::respond_with(initiator_x25519_pk_bytes, my_secret, ct, shared);
        Ok(out)
    }
}

/// Law: both sides of a handshake derive the same master secret. The
/// initiator sends the public keys of a well-formed initiator; the responder
/// answers with its X25519 public key and the encapsulation of a message `m` to
/// the initiator's ML-KEM key, and derives its master secret from its own
/// secret and the encapsulated key; the initiator completes with its secret and
/// its decapsulation of the ciphertext. This holds provided the decapsulation
/// recovers the encapsulated key, which ML-KEM guarantees except with
/// negligible probability.
pub proof fn lemma_handshake_agreement(initiator: InitiatorView, responder_secret: Seq<u8>, m: Seq<u8>)
    requires
        initiator_wf(initiator),
        responder_secret.len() == 32,
        dh_agrees(responder_secret, initiator.x25519_public),
        mlkem_decaps(initiator.ml_kem_decapskey, mlkem_encaps(initiator.ml_kem_encapskey, m).0)
            == mlkem_encaps(initiator.ml_kem_encapskey, m).1,
    ensures
        hybrid_master_secret(
            x25519(initiator.x25519_secret, x25519_base(responder_secret)),
            mlkem_decaps(initiator.ml_kem_decapskey, mlkem_encaps(initiator.ml_kem_encapskey, m).0),
        ) == hybrid_master_secret(
            x25519(responder_secret, initiator.x25519_public),
            mlkem_encaps(initiator.ml_kem_encapskey, m).1,
        ),
{
    assert(x25519(responder_secret, x25519_base(initiator.x25519_secret)) == x25519(
        initiator.x25519_secret,
        x25519_base(responder_secret),
    ));
}

} // verus!
