//! The double ratchet: per-message keys from symmetric chains, refreshed by a
//! Diffie-Hellman step whenever the peer's ratchet key changes, with a bounded
//! store of skipped message keys for out-of-order delivery.

use vstd::prelude::*;
use crate::bytes::{append_bytes, ascii_bytes, bytes_equal, copy_array, u32_le, u32_to_le};
use crate::primitives::{
    aead_plaintext_fits, chacha20poly1305_open, dh_agrees, chacha20poly1305_seal, chacha_open, chacha_seal,
    hkdf_sha256, hkdf_sha256_32, os_random_bytes, x25519, x25519_base, x25519_diffie_hellman,
    x25519_public_key,
};

verus! {

/// Most message keys a session keeps for messages that have not arrived yet.
pub const MAX_SKIPPED_KEYS: usize = 2000;

#[derive(Debug, Clone, Copy, PartialEq, Eq, Structural)]
pub enum RatchetError {
    DecryptionFailed,
    TooManySkippedKeys,
    KeyNotFound,
    InvalidPublicKey,
}

impl RatchetError {
    /// Human-readable description of the error.
    pub fn message(&self) -> (text: &'static str)
        ensures
            text@ == match self {
                RatchetError::DecryptionFailed => "Decryption failed"@,
                RatchetError::TooManySkippedKeys => "Too many skipped keys"@,
                RatchetError::KeyNotFound => "Key not found for message"@,
                RatchetError::InvalidPublicKey => "Invalid public key"@,
            },
    {
        match self {
            RatchetError::DecryptionFailed => "Decryption failed",
            RatchetError::TooManySkippedKeys => "Too many skipped keys",
            RatchetError::KeyNotFound => "Key not found for message",
            RatchetError::InvalidPublicKey => "Invalid public key",
        }
    }
}

/// A 32-byte message key.
#[derive(Clone)]
pub struct SymmetricKey(pub [u8; 32]);

/// Header sent with each ratchet message: the sender's current ratchet public
/// key, the length of its previous sending chain and the message number.
#[derive(Clone, Debug, PartialEq, Eq)]
pub struct Header {
    pub dh_pub: [u8; 32],
    pub pn: u32,
    pub n: u32,
}

#[derive(Clone, Debug, PartialEq, Eq)]
pub struct EncryptedMessage {
    pub header: Header,
    pub ciphertext: Vec<u8>,
}

/// Abstract value of a header.
pub struct HeaderView {
    pub dh_pub: Seq<u8>,
    pub pn: u32,
    pub n: u32,
}

impl View for Header {
    type V = HeaderView;

    open spec fn view(&self) -> HeaderView {
        HeaderView { dh_pub: self.dh_pub@, pn: self.pn, n: self.n }
    }
}

/// A stored key for a skipped message: the sender's ratchet key, the message
/// number and the message key.
struct SkippedKey {
    dh_pub: [u8; 32],
    n: u32,
    mk: [u8; 32],
}

/// Abstract state of a ratchet session.
pub struct RatchetView {
    /// Our current ratchet secret.
    pub dhs: Seq<u8>,
    /// The peer's current ratchet public key, once known.
    pub dhr: Option<Seq<u8>>,
    /// Root key.
    pub rk: Seq<u8>,
    /// Sending chain key.
    pub cks: Option<Seq<u8>>,
    /// Receiving chain key.
    pub ckr: Option<Seq<u8>>,
    /// Number of messages sent in the current sending chain.
    pub ns: u32,
    /// Number of messages received in the current receiving chain.
    pub nr: u32,
    /// Length of the previous sending chain.
    pub pn: u32,
    /// Skipped message keys: (sender ratchet key, message number, message key),
    /// no two with the same sender key and number.
    pub skipped: Seq<(Seq<u8>, u32, Seq<u8>)>,
}

pub struct DoubleRatchet {
    dhs: [u8; 32],
    dhr: Option<[u8; 32]>,
    rk: [u8; 32],
    cks: Option<[u8; 32]>,
    ckr: Option<[u8; 32]>,
    ns: u32,
    nr: u32,
    pn: u32,
    mkskipped: Vec<SkippedKey>,
}

pub open spec fn opt_array_view(o: Option<[u8; 32]>) -> Option<Seq<u8>> {
    match o {
        Some(a) => Some(a@),
        None => None,
    }
}

spec fn skipped_entry_view(e: SkippedKey) -> (Seq<u8>, u32, Seq<u8>) {
    (e.dh_pub@, e.n, e.mk@)
}

impl View for DoubleRatchet {
    type V = RatchetView;

    closed spec fn view(&self) -> RatchetView {
        RatchetView {
            dhs: self.dhs@,
            dhr: opt_array_view(self.dhr),
            rk: self.rk@,
            cks: opt_array_view(self.cks),
            ckr: opt_array_view(self.ckr),
            ns: self.ns,
            nr: self.nr,
            pn: self.pn,
            skipped: self.mkskipped@.map_values(|e: SkippedKey| skipped_entry_view(e)),
        }
    }
}

// ---------------------------------------------------------------------------
// Key derivation labels

pub open spec fn prk_info_bytes() -> Seq<u8> {
    seq![0x4du8, 0x61, 0x72, 0x72, 0x6f, 0x77, 0x5f, 0x52, 0x61, 0x74, 0x63, 0x68, 0x65, 0x74, 0x5f, 0x48, 0x4b, 0x44, 0x46, 0x5f, 0x50, 0x52, 0x4b]
}

pub open spec fn root_info_bytes() -> Seq<u8> {
    seq![0x4du8, 0x61, 0x72, 0x72, 0x6f, 0x77, 0x5f, 0x52, 0x61, 0x74, 0x63, 0x68, 0x65, 0x74, 0x5f, 0x52, 0x6f, 0x6f, 0x74, 0x5f, 0x43, 0x68, 0x61, 0x69, 0x6e]
}

pub open spec fn chain_info_bytes() -> Seq<u8> {
    seq![0x4du8, 0x61, 0x72, 0x72, 0x6f, 0x77, 0x5f, 0x52, 0x61, 0x74, 0x63, 0x68, 0x65, 0x74, 0x5f, 0x43, 0x68, 0x61, 0x69, 0x6e, 0x5f, 0x53, 0x74, 0x65, 0x70]
}

pub open spec fn message_key_info_bytes() -> Seq<u8> {
    seq![0x4du8, 0x61, 0x72, 0x72, 0x6f, 0x77, 0x5f, 0x52, 0x61, 0x74, 0x63, 0x68, 0x65, 0x74, 0x5f, 0x4d, 0x65, 0x73, 0x73, 0x61, 0x67, 0x65, 0x5f, 0x4b, 0x65, 0x79]
}

fn prk_info() -> (r: [u8; 23])
    ensures
        r@ == prk_info_bytes(),
{
    let r: [u8; 23] = [0x4du8, 0x61, 0x72, 0x72, 0x6f, 0x77, 0x5f, 0x52, 0x61, 0x74, 0x63, 0x68, 0x65, 0x74, 0x5f, 0x48, 0x4b, 0x44, 0x46, 0x5f, 0x50, 0x52, 0x4b];
    assert(r@ =~= prk_info_bytes());
    r
}

fn root_info() -> (r: [u8; 25])
    ensures
        r@ == root_info_bytes(),
{
    let r: [u8; 25] = [0x4du8, 0x61, 0x72, 0x72, 0x6f, 0x77, 0x5f, 0x52, 0x61, 0x74, 0x63, 0x68, 0x65, 0x74, 0x5f, 0x52, 0x6f, 0x6f, 0x74, 0x5f, 0x43, 0x68, 0x61, 0x69, 0x6e];
    assert(r@ =~= root_info_bytes());
    r
}

fn chain_info() -> (r: [u8; 25])
    ensures
        r@ == chain_info_bytes(),
{
    let r: [u8; 25] = [0x4du8, 0x61, 0x72, 0x72, 0x6f, 0x77, 0x5f, 0x52, 0x61, 0x74, 0x63, 0x68, 0x65, 0x74, 0x5f, 0x43, 0x68, 0x61, 0x69, 0x6e, 0x5f, 0x53, 0x74, 0x65, 0x70];
    assert(r@ =~= chain_info_bytes());
    r
}

fn message_key_info() -> (r: [u8; 26])
    ensures
        r@ == message_key_info_bytes(),
{
    let r: [u8; 26] = [0x4du8, 0x61, 0x72, 0x72, 0x6f, 0x77, 0x5f, 0x52, 0x61, 0x74, 0x63, 0x68, 0x65, 0x74, 0x5f, 0x4d, 0x65, 0x73, 0x73, 0x61, 0x67, 0x65, 0x5f, 0x4b, 0x65, 0x79];
    assert(r@ =~= message_key_info_bytes());
    r
}

// ---------------------------------------------------------------------------
// The mathematical model

/// Next chain key of a symmetric chain.
pub open spec fn chain_next(ck: Seq<u8>) -> Seq<u8> {
    hkdf_sha256(prk_info_bytes(), ck, chain_info_bytes())
}

/// Message key produced by a chain step.
pub open spec fn chain_message_key(ck: Seq<u8>) -> Seq<u8> {
    hkdf_sha256(prk_info_bytes(), ck, message_key_info_bytes())
}

/// Next root key after mixing in a Diffie-Hellman output.
pub open spec fn root_next(rk: Seq<u8>, dh: Seq<u8>) -> Seq<u8> {
    hkdf_sha256(rk, dh, root_info_bytes())
}

/// Chain key started by mixing a Diffie-Hellman output into the root key.
pub open spec fn root_chain(rk: Seq<u8>, dh: Seq<u8>) -> Seq<u8> {
    hkdf_sha256(rk, dh, chain_info_bytes())
}

/// Nonce of message number `n`: eight zero bytes, then `n` little-endian.
pub open spec fn message_nonce(n: u32) -> Seq<u8> {
    seq![0u8, 0, 0, 0, 0, 0, 0, 0] + u32_le(n)
}

/// Law: the nonce of message number `n` is twelve bytes: eight zero bytes,
/// then the base-256 digits of `n`, least significant first.
pub proof fn lemma_message_nonce_layout(n: u32)
    ensures
        message_nonce(n).len() == 12,
        forall|i: int| 0 <= i < 8 ==> #[trigger] message_nonce(n)[i] == 0,
        message_nonce(n)[8] == n % 0x100,
        message_nonce(n)[9] == (n / 0x100) % 0x100,
        message_nonce(n)[10] == (n / 0x1_0000) % 0x100,
        message_nonce(n)[11] == n / 0x100_0000,
{
    crate::bytes::lemma_u32_le_digits(n);
}

/// Law: the ratchet's key derivations are HKDF-SHA256 with the labels of
/// the protocol. A chain step extracts with the salt "Marrow_Ratchet_HKDF_PRK"
/// from the chain key and expands "Marrow_Ratchet_Chain_Step" into the next
/// chain key and "Marrow_Ratchet_Message_Key" into the message key; a root
/// step extracts with the root key as salt from the Diffie-Hellman output and
/// expands "Marrow_Ratchet_Root_Chain" into the next root key and
/// "Marrow_Ratchet_Chain_Step" into the new chain key.
pub proof fn lemma_ratchet_kdf_labels(ck: Seq<u8>, rk: Seq<u8>, dh: Seq<u8>)
    ensures
        chain_next(ck) == hkdf_sha256(
            ascii_bytes("Marrow_Ratchet_HKDF_PRK"@),
            ck,
            ascii_bytes("Marrow_Ratchet_Chain_Step"@),
        ),
        chain_message_key(ck) == hkdf_sha256(
            ascii_bytes("Marrow_Ratchet_HKDF_PRK"@),
            ck,
            ascii_bytes("Marrow_Ratchet_Message_Key"@),
        ),
        root_next(rk, dh) == hkdf_sha256(rk, dh, ascii_bytes("Marrow_Ratchet_Root_Chain"@)),
        root_chain(rk, dh) == hkdf_sha256(rk, dh, ascii_bytes("Marrow_Ratchet_Chain_Step"@)),
{
    reveal_strlit("Marrow_Ratchet_HKDF_PRK");
    reveal_strlit("Marrow_Ratchet_Chain_Step");
    reveal_strlit("Marrow_Ratchet_Message_Key");
    reveal_strlit("Marrow_Ratchet_Root_Chain");
    assert(ascii_bytes("Marrow_Ratchet_HKDF_PRK"@) =~= prk_info_bytes());
    assert(ascii_bytes("Marrow_Ratchet_Chain_Step"@) =~= chain_info_bytes());
    assert(ascii_bytes("Marrow_Ratchet_Message_Key"@) =~= message_key_info_bytes());
    assert(ascii_bytes("Marrow_Ratchet_Root_Chain"@) =~= root_info_bytes());
}

/// Law: the associated data a message is authenticated with is the header's
/// 32-byte ratchet key, then the previous chain length and the message number
/// as four base-256 digits each, least significant first, then the caller's
/// associated data unchanged.
pub proof fn lemma_header_bytes_layout(h: HeaderView, ad: Seq<u8>)
    requires
        h.dh_pub.len() == 32,
    ensures
        header_bytes(h, ad).len() == 40 + ad.len(),
        header_bytes(h, ad).take(32) == h.dh_pub,
        header_bytes(h, ad)[32] == h.pn % 0x100,
        header_bytes(h, ad)[33] == (h.pn / 0x100) % 0x100,
        header_bytes(h, ad)[34] == (h.pn / 0x1_0000) % 0x100,
        header_bytes(h, ad)[35] == h.pn / 0x100_0000,
        header_bytes(h, ad)[36] == h.n % 0x100,
        header_bytes(h, ad)[37] == (h.n / 0x100) % 0x100,
        header_bytes(h, ad)[38] == (h.n / 0x1_0000) % 0x100,
        header_bytes(h, ad)[39] == h.n / 0x100_0000,
        header_bytes(h, ad).skip(40) == ad,
{
    crate::bytes::lemma_u32_le_digits(h.pn);
    crate::bytes::lemma_u32_le_digits(h.n);
    let hb = header_bytes(h, ad);
    assert(hb.take(32) =~= h.dh_pub);
    assert(hb.skip(40) =~= ad);
}

/// Associated data authenticated with a message: the header's ratchet key,
/// previous chain length and number, then the caller's associated data.
pub open spec fn header_bytes(h: HeaderView, ad: Seq<u8>) -> Seq<u8> {
    h.dh_pub + u32_le(h.pn) + u32_le(h.n) + ad
}

/// Whether the skipped store holds a key for (`dh`, `n`).
pub open spec fn has_skipped(sk: Seq<(Seq<u8>, u32, Seq<u8>)>, dh: Seq<u8>, n: u32) -> bool {
    exists|i: int| 0 <= i < sk.len() && (#[trigger] sk[i]).0 == dh && sk[i].1 == n
}

/// Position of the key for (`dh`, `n`) in the skipped store.
pub open spec fn skipped_position(sk: Seq<(Seq<u8>, u32, Seq<u8>)>, dh: Seq<u8>, n: u32) -> int {
    choose|i: int| 0 <= i < sk.len() && (#[trigger] sk[i]).0 == dh && sk[i].1 == n
}

/// Stores `mk` for (`dh`, `n`), replacing any key already stored for them.
pub open spec fn skipped_insert(sk: Seq<(Seq<u8>, u32, Seq<u8>)>, dh: Seq<u8>, n: u32, mk: Seq<u8>) -> Seq<(Seq<u8>, u32, Seq<u8>)> {
    if has_skipped(sk, dh, n) {
        sk.update(skipped_position(sk, dh, n), (dh, n, mk))
    } else {
        sk.push((dh, n, mk))
    }
}

/// No two skipped keys share a sender key and message number.
pub open spec fn skipped_distinct(sk: Seq<(Seq<u8>, u32, Seq<u8>)>) -> bool {
    forall|i: int, j: int|
        0 <= i < sk.len() && 0 <= j < sk.len() && i != j ==> (#[trigger] sk[i]).0 != (#[trigger] sk[j]).0
            || sk[i].1 != sk[j].1
}

/// Steps the receiving chain from `s.nr` up to `until`, storing each skipped
/// message key under the peer's ratchet key; fails (keeping the state reached)
/// when the store is full.
pub open spec fn skip_loop(s: RatchetView, until: u32) -> (RatchetView, Result<(), RatchetError>)
    decreases until - s.nr,
{
    if s.nr >= until || s.ckr is None {
        (s, Ok(()))
    } else {
        let ck = s.ckr.unwrap();
        let stepped = RatchetView { ckr: Some(chain_next(ck)), ..s };
        match s.dhr {
            Some(d) => {
                if s.skipped.len() >= MAX_SKIPPED_KEYS {
                    (stepped, Err(RatchetError::TooManySkippedKeys))
                } else {
                    skip_loop(
                        RatchetView {
                            skipped: skipped_insert(s.skipped, d, s.nr, chain_message_key(ck)),
                            nr: (s.nr + 1) as u32,
                            ..stepped
                        },
                        until,
                    )
                }
            },
            None => skip_loop(RatchetView { nr: (s.nr + 1) as u32, ..stepped }, until),
        }
    }
}

/// Skips the receiving chain to message number `until`: nothing without a
/// receiving chain, an error when more than `MAX_SKIPPED_KEYS` keys would be
/// skipped, and otherwise `skip_loop`.
pub open spec fn skip_chain(s: RatchetView, until: u32) -> (RatchetView, Result<(), RatchetError>) {
    if s.ckr is None {
        (s, Ok(()))
    } else if s.nr + MAX_SKIPPED_KEYS < until {
        (s, Err(RatchetError::TooManySkippedKeys))
    } else {
        skip_loop(s, until)
    }
}

/// The Diffie-Hellman ratchet step on a new peer key `remote`, with `fresh` as
/// our next ratchet secret.
pub open spec fn dh_ratchet_step(s: RatchetView, remote: Seq<u8>, fresh: Seq<u8>) -> RatchetView {
    let dh_recv = x25519(s.dhs, remote);
    let rk_mid = root_next(s.rk, dh_recv);
    let dh_send = x25519(fresh, remote);
    RatchetView {
        dhs: fresh,
        dhr: Some(remote),
        rk: root_next(rk_mid, dh_send),
        cks: Some(root_chain(rk_mid, dh_send)),
        ckr: Some(root_chain(s.rk, dh_recv)),
        ns: 0,
        nr: 0,
        pn: s.ns,
        skipped: s.skipped,
    }
}

/// Result of opening a ciphertext with a message key.
pub open spec fn open_with(mk: Seq<u8>, h: HeaderView, ct: Seq<u8>, ad: Seq<u8>) -> Result<Seq<u8>, RatchetError> {
    match chacha_open(mk, message_nonce(h.n), header_bytes(h, ad), ct) {
        Some(p) => Ok(p),
        None => Err(RatchetError::DecryptionFailed),
    }
}

/// State after the receiving-chain catch-up and ratchet steps of decryption
/// (before the final chain step), with the first error met, if any.
pub open spec fn decrypt_prepare(s: RatchetView, h: HeaderView, fresh: Seq<u8>) -> (RatchetView, Result<(), RatchetError>) {
    let (s1, r1) = if s.dhr == Some(h.dh_pub) {
        skip_chain(s, h.n)
    } else {
        (s, Ok(()))
    };
    if r1 is Err {
        (s1, r1)
    } else {
        let (s2, r2) = if s1.dhr != Some(h.dh_pub) {
            let (sa, ra) = skip_chain(s1, h.pn);
            if ra is Ok {
                (dh_ratchet_step(sa, h.dh_pub, fresh), ra)
            } else {
                (sa, ra)
            }
        } else {
            (s1, Ok(()))
        };
        if r2 is Err {
            (s2, r2)
        } else {
            skip_chain(s2, h.n)
        }
    }
}

/// Decryption of a message with header `h`, ciphertext `ct` and associated data
/// `ad`: the state afterwards and the plaintext or error. A stored skipped key is
/// used (and removed) first; otherwise the receiving chain catches up (through
/// a ratchet step, with `fresh` as the new ratchet secret, when the header
/// carries a new peer key) and advances one step.
pub open spec fn decrypt_spec(s: RatchetView, h: HeaderView, ct: Seq<u8>, ad: Seq<u8>, fresh: Seq<u8>) -> (RatchetView, Result<Seq<u8>, RatchetError>) {
    if has_skipped(s.skipped, h.dh_pub, h.n) {
        let i = skipped_position(s.skipped, h.dh_pub, h.n);
        (RatchetView { skipped: s.skipped.remove(i), ..s }, open_with(s.skipped[i].2, h, ct, ad))
    } else {
        let (s3, r3) = decrypt_prepare(s, h, fresh);
        match r3 {
            Err(e) => (s3, Err(e)),
            Ok(_) => match s3.ckr {
                None => (s3, Err(RatchetError::DecryptionFailed)),
                Some(ck) => (
                    RatchetView { ckr: Some(chain_next(ck)), nr: (s3.nr + 1) as u32, ..s3 },
                    open_with(chain_message_key(ck), h, ct, ad),
                ),
            },
        }
    }
}

/// What decrypting a message does to a session: the outcome of
/// `decrypt_spec` when it succeeds; when it fails, the session is left as it
/// was, so a forged or corrupted message cannot put it out of step with its
/// peer.
pub open spec fn decrypt_outcome(s: RatchetView, h: HeaderView, ct: Seq<u8>, ad: Seq<u8>, fresh: Seq<u8>) -> (RatchetView, Result<Seq<u8>, RatchetError>) {
    let (t, r) = decrypt_spec(s, h, ct, ad, fresh);
    if r is Ok {
        (t, r)
    } else {
        (s, r)
    }
}

/// Decryption of a message with header `h` does not overflow a message counter.
pub open spec fn decrypt_counters_fit(s: RatchetView, h: HeaderView) -> bool {
    ||| has_skipped(s.skipped, h.dh_pub, h.n)
    ||| s.ckr is None
    ||| (s.nr + MAX_SKIPPED_KEYS <= u32::MAX && (s.dhr != Some(h.dh_pub) || h.n > s.nr
        + MAX_SKIPPED_KEYS || h.n + MAX_SKIPPED_KEYS <= u32::MAX))
}

/// Session of the side that sends first, holding the peer's initial ratchet key
/// `anek_pub` and our first ratchet secret `secret`.
pub open spec fn ventie_initial(shared: Seq<u8>, anek_pub: Seq<u8>, secret: Seq<u8>) -> RatchetView {
    let dh = x25519(secret, anek_pub);
    RatchetView {
        dhs: secret,
        dhr: Some(anek_pub),
        rk: root_next(shared, dh),
        cks: Some(root_chain(shared, dh)),
        ckr: None,
        ns: 0,
        nr: 0,
        pn: 0,
        skipped: seq![],
    }
}

/// Session of the side that receives first, holding its initial ratchet secret.
pub open spec fn anek_initial(shared: Seq<u8>, secret: Seq<u8>) -> RatchetView {
    RatchetView {
        dhs: secret,
        dhr: None,
        rk: shared,
        cks: None,
        ckr: None,
        ns: 0,
        nr: 0,
        pn: 0,
        skipped: seq![],
    }
}

/// Abstract value of an encrypted message.
pub struct MessageView {
    pub header: HeaderView,
    pub ciphertext: Seq<u8>,
}

impl View for EncryptedMessage {
    type V = MessageView;

    open spec fn view(&self) -> MessageView {
        MessageView { header: self.header@, ciphertext: self.ciphertext@ }
    }
}

/// What encryption of `pt` with associated data `ad` does to state `s`, giving
/// state `t` and result `r`: without a sending chain it fails and changes
/// nothing; otherwise the chain advances, the message number is used and
/// counted, and the ciphertext is the AEAD encryption under the step's message
/// key (which opens again to `pt`), or the step fails when `pt` is too long.
pub open spec fn encrypt_spec(s: RatchetView, pt: Seq<u8>, ad: Seq<u8>, t: RatchetView, r: Result<MessageView, RatchetError>) -> bool {
    match s.cks {
        None => t == s && r == Err::<MessageView, RatchetError>(RatchetError::DecryptionFailed),
        Some(ck) => {
            let h = HeaderView { dh_pub: x25519_base(s.dhs), pn: s.pn, n: s.ns };
            let mk = chain_message_key(ck);
            &&& t == RatchetView { cks: Some(chain_next(ck)), ns: (s.ns + 1) as u32, ..s }
            &&& match r {
                Ok(m) => {
                    &&& m.header == h
                    &&& aead_plaintext_fits(pt.len())
                    &&& m.ciphertext == chacha_seal(mk, message_nonce(h.n), header_bytes(h, ad), pt)
                    &&& chacha_open(mk, message_nonce(h.n), header_bytes(h, ad), m.ciphertext)
                        == Some(pt)
                },
                Err(e) => e == RatchetError::DecryptionFailed && !aead_plaintext_fits(pt.len()),
            }
        },
    }
}

pub open spec fn message_result_view(r: Result<EncryptedMessage, RatchetError>) -> Result<MessageView, RatchetError> {
    match r {
        Ok(m) => Ok(m@),
        Err(e) => Err(e),
    }
}

pub open spec fn bytes_result_view(r: Result<Vec<u8>, RatchetError>) -> Result<Seq<u8>, RatchetError> {
    match r {
        Ok(v) => Ok(v@),
        Err(e) => Err(e),
    }
}

// ---------------------------------------------------------------------------
// Executable session

fn kdf_rk(rk: &[u8; 32], dh_out: &[u8; 32]) -> (r: ([u8; 32], [u8; 32]))
    ensures
        r.0@ == root_next(rk@, dh_out@),
        r.1@ == root_chain(rk@, dh_out@),
{
    let root = root_info();
    let chain = chain_info();
    let next_rk = hkdf_sha256_32(rk, dh_out, &root);
    let ck = hkdf_sha256_32(rk, dh_out, &chain);
    (next_rk, ck)
}

fn kdf_ck(ck: &[u8; 32]) -> (r: ([u8; 32], SymmetricKey))
    ensures
        r.0@ == chain_next(ck@),
        r.1.0@ == chain_message_key(ck@),
{
    let prk = prk_info();
    let chain = chain_info();
    let msg = message_key_info();
    let next_ck = hkdf_sha256_32(&prk, ck, &chain);
    let mk = hkdf_sha256_32(&prk, ck, &msg);
    (next_ck, SymmetricKey(mk))
}

fn header_ad(header: &Header, ad: &[u8]) -> (res: Vec<u8>)
    ensures
        res@ == header_bytes(header@, ad@),
{
    let mut res: Vec<u8> = Vec::new();
    append_bytes(&mut res, &header.dh_pub);
    let pn = u32_to_le(header.pn);
    append_bytes(&mut res, &pn);
    let n = u32_to_le(header.n);
    append_bytes(&mut res, &n);
    append_bytes(&mut res, ad);
    res
}

fn nonce_for(sequence_number: u32) -> (nonce: [u8; 12])
    ensures
        nonce@ == message_nonce(sequence_number),
{
    let le = u32_to_le(sequence_number);
    let nonce: [u8; 12] = [0u8, 0, 0, 0, 0, 0, 0, 0, le[0], le[1], le[2], le[3]];
    assert(nonce@ =~= message_nonce(sequence_number));
    nonce
}

fn aead_encrypt(key: &SymmetricKey, plaintext: &[u8], ad: &[u8], sequence_number: u32) -> (r: Result<Vec<u8>, RatchetError>)
    requires
        plaintext@.len() + 16 <= isize::MAX,
    ensures
        match r {
            Ok(c) => {
                &&& aead_plaintext_fits(plaintext@.len())
                &&& c@ == chacha_seal(key.0@, message_nonce(sequence_number), ad@, plaintext@)
                &&& chacha_open(key.0@, message_nonce(sequence_number), ad@, c@) == Some(plaintext@)
            },
            Err(e) => e == RatchetError::DecryptionFailed && !aead_plaintext_fits(plaintext@.len()),
        },
{
    let nonce = nonce_for(sequence_number);
    match chacha20poly1305_seal(&key.0, &nonce, plaintext, ad) {
        Some(c) => Ok(c),
        None => Err(RatchetError::DecryptionFailed),
    }
}

fn aead_decrypt(key: &[u8; 32], ciphertext: &[u8], ad: &[u8], sequence_number: u32) -> (r: Result<Vec<u8>, RatchetError>)
    ensures
        match chacha_open(key@, message_nonce(sequence_number), ad@, ciphertext@) {
            Some(p) => r matches Ok(v) && v@ == p,
            None => r == Err::<Vec<u8>, RatchetError>(RatchetError::DecryptionFailed),
        },
{
    let nonce = nonce_for(sequence_number);
    match chacha20poly1305_open(key, &nonce, ciphertext, ad) {
        Some(p) => Ok(p),
        None => Err(RatchetError::DecryptionFailed),
    }
}

impl DoubleRatchet {
    /// Every session is well formed (see `inv`).
    #[verifier::type_invariant]
    closed spec fn well_formed(self) -> bool {
        self.inv()
    }

    /// Well-formedness: the skipped store holds at most `MAX_SKIPPED_KEYS`
    /// keys and no two for the same sender key and number.
    pub open spec fn inv(&self) -> bool {
        &&& self@.skipped.len() <= MAX_SKIPPED_KEYS
        &&& skipped_distinct(self@.skipped)
    }

    /// Session of the side that sends first, with `dh_secret` as its first
    /// ratchet secret.
    pub fn new_ventie_with_secret(shared_key: [u8; 32], anek_dh_pub: [u8; 32], dh_secret: [u8; 32]) -> (r: Self)
        ensures
            r.inv(),
            r@ == ventie_initial(shared_key@, anek_dh_pub@, dh_secret@),
            dh_agrees(dh_secret@, anek_dh_pub@),
    {
        let dh_out = x25519_diffie_hellman(&dh_secret, &anek_dh_pub);
        let (rk, cks) = kdf_rk(&shared_key, &dh_out);
        let r = DoubleRatchet {
            dhs: dh_secret,
            dhr: Some(anek_dh_pub),
            rk,
            cks: Some(cks),
            ckr: None,
            ns: 0,
            nr: 0,
            pn: 0,
            mkskipped: Vec::new(),
        };
        assert(r@.skipped =~= seq![]);
        r
    }

    /// Session of the side that sends first, with a fresh random ratchet secret.
    pub fn new_ventie(shared_key: [u8; 32], anek_dh_pub: [u8; 32]) -> (r: Self)
        ensures
            r.inv(),
            exists|secret: Seq<u8>|
                secret.len() == 32 && r@ == ventie_initial(shared_key@, anek_dh_pub@, secret)
                    && dh_agrees(secret, anek_dh_pub@),
    {
        let secret = random_secret();
        Self::new_ventie_with_secret(shared_key, anek_dh_pub, secret)
    }

    /// Session of the side that receives first, holding its initial ratchet secret.
    pub fn new_anek(shared_key: [u8; 32], anek_dh: [u8; 32]) -> (r: Self)
        ensures
            r.inv(),
            r@ == anek_initial(shared_key@, anek_dh@),
    {
        let r = DoubleRatchet {
            dhs: anek_dh,
            dhr: None,
            rk: shared_key,
            cks: None,
            ckr: None,
            ns: 0,
            nr: 0,
            pn: 0,
            mkskipped: Vec::new(),
        };
        assert(r@.skipped =~= seq![]);
        r
    }

    /// Encrypts `plaintext` with associated data `ad` under the next sending key.
    pub fn encrypt(&mut self, plaintext: &[u8], ad: &[u8]) -> (r: Result<EncryptedMessage, RatchetError>)
        requires
            old(self)@.cks is None || old(self)@.ns < u32::MAX,
            plaintext@.len() + 16 <= isize::MAX,
        ensures
            final(self).inv(),
            encrypt_spec(old(self)@, plaintext@, ad@, final(self)@, message_result_view(r)),
    {
        proof {
            use_type_invariant(&*self);
        }
        let ck = match self.cks {
            Some(ck) => ck,
            None => return Err(RatchetError::DecryptionFailed),
        };
        let (next_cks, mk) = kdf_ck(&ck);
        self.cks = Some(next_cks);
        let dh_pub = x25519_public_key(&self.dhs);
        let header = Header { dh_pub, pn: self.pn, n: self.ns };
        self.ns = self.ns + 1;
        let ad_bytes = header_ad(&header, ad);
        match aead_encrypt(&mk, plaintext, &ad_bytes, header.n) {
            Ok(ciphertext) => Ok(EncryptedMessage { header, ciphertext }),
            Err(e) => Err(e),
        }
    }
}


/// With distinct keys, the position found for a key is the only one.
proof fn lemma_skipped_position_unique(sk: Seq<(Seq<u8>, u32, Seq<u8>)>, i: int)
    requires
        skipped_distinct(sk),
        0 <= i < sk.len(),
    ensures
        has_skipped(sk, sk[i].0, sk[i].1),
        skipped_position(sk, sk[i].0, sk[i].1) == i,
{
    let dh = sk[i].0;
    let n = sk[i].1;
    assert(has_skipped(sk, dh, n));
    let j = skipped_position(sk, dh, n);
    if j != i {
        assert(sk[j].0 == dh && sk[j].1 == n);
    }
}

/// Inserting into a store with distinct keys keeps them distinct.
proof fn lemma_skipped_insert_distinct(sk: Seq<(Seq<u8>, u32, Seq<u8>)>, dh: Seq<u8>, n: u32, mk: Seq<u8>)
    requires
        skipped_distinct(sk),
    ensures
        skipped_distinct(skipped_insert(sk, dh, n, mk)),
        skipped_insert(sk, dh, n, mk).len() == if has_skipped(sk, dh, n) {
            sk.len()
        } else {
            sk.len() + 1
        },
{
    let r = skipped_insert(sk, dh, n, mk);
    if has_skipped(sk, dh, n) {
        let p = skipped_position(sk, dh, n);
        assert forall|i: int, j: int|
            0 <= i < r.len() && 0 <= j < r.len() && i != j implies (#[trigger] r[i]).0 != (#[trigger] r[j]).0
                || r[i].1 != r[j].1 by {
            if i != p && j != p {
                assert(r[i] == sk[i] && r[j] == sk[j]);
            } else if i == p {
                assert(r[j] == sk[j]);
                assert(sk[p].0 == dh && sk[p].1 == n);
            } else {
                assert(r[i] == sk[i]);
                assert(sk[p].0 == dh && sk[p].1 == n);
            }
        }
    } else {
        assert forall|i: int, j: int|
            0 <= i < r.len() && 0 <= j < r.len() && i != j implies (#[trigger] r[i]).0 != (#[trigger] r[j]).0
                || r[i].1 != r[j].1 by {
            if i < sk.len() && j < sk.len() {
                assert(r[i] == sk[i] && r[j] == sk[j]);
            } else if i < sk.len() {
                assert(r[i] == sk[i]);
                if sk[i].0 == dh && sk[i].1 == n {
                    assert(has_skipped(sk, dh, n));
                }
            } else {
                assert(r[j] == sk[j]);
                if sk[j].0 == dh && sk[j].1 == n {
                    assert(has_skipped(sk, dh, n));
                }
            }
        }
    }
}

/// Removing a key keeps the rest distinct.
proof fn lemma_skipped_remove_distinct(sk: Seq<(Seq<u8>, u32, Seq<u8>)>, p: int)
    requires
        skipped_distinct(sk),
        0 <= p < sk.len(),
    ensures
        skipped_distinct(sk.remove(p)),
{
    let r = sk.remove(p);
    assert forall|i: int, j: int|
        0 <= i < r.len() && 0 <= j < r.len() && i != j implies (#[trigger] r[i]).0 != (#[trigger] r[j]).0
            || r[i].1 != r[j].1 by {
        let ii = if i < p { i } else { i + 1 };
        let jj = if j < p { j } else { j + 1 };
        assert(r[i] == sk[ii] && r[j] == sk[jj]);
    }
}

impl DoubleRatchet {
    /// Position of the stored key for (`dh_pub`, `n`), if any.
    fn find_skipped(&self, dh_pub: &[u8; 32], n: u32) -> (r: Option<usize>)
        ensures
            match r {
                Some(i) => i < self@.skipped.len() && self@.skipped[i as int].0 == dh_pub@
                    && self@.skipped[i as int].1 == n,
                None => !has_skipped(self@.skipped, dh_pub@, n),
            },
    {
        let len = self.mkskipped.len();
        let mut i: usize = 0;
        while i < len
            invariant
                0 <= i <= len,
                len == self.mkskipped@.len(),
                forall|j: int|
                    0 <= j < i ==> !((#[trigger] self@.skipped[j]).0 == dh_pub@ && self@.skipped[j].1
                        == n),
            decreases len - i,
        {
            let entry = &self.mkskipped[i];
            assert(self@.skipped[i as int] == skipped_entry_view(*entry));
            if entry.n == n && bytes_equal(&entry.dh_pub, dh_pub) {
                return Some(i);
            }
            i = i + 1;
        }
        None
    }

    /// Stores `mk` for (`dh_pub`, `n`).
    fn insert_skipped(&mut self, dh_pub: [u8; 32], n: u32, mk: [u8; 32])
        requires
            old(self).inv(),
            old(self).mkskipped@.len() < MAX_SKIPPED_KEYS,
        ensures
            final(self).inv(),
            final(self)@ == (RatchetView {
                skipped: skipped_insert(old(self)@.skipped, dh_pub@, n, mk@),
                ..old(self)@
            }),
    {
        let ghost old_sk = self@.skipped;
        proof {
            lemma_skipped_insert_distinct(old_sk, dh_pub@, n, mk@);
        }
        match self.find_skipped(&dh_pub, n) {
            Some(i) => {
                proof {
                    lemma_skipped_position_unique(old_sk, i as int);
                }
                let mut sk: Vec<SkippedKey> = Vec::new();
                std::mem::swap(&mut sk, &mut self.mkskipped);
                sk.set(i, SkippedKey { dh_pub, n, mk });
                assert(sk@.map_values(|e: SkippedKey| skipped_entry_view(e)) =~= skipped_insert(old_sk, dh_pub@, n, mk@));
                self.mkskipped = sk;
            },
            None => {
                let mut sk: Vec<SkippedKey> = Vec::new();
                std::mem::swap(&mut sk, &mut self.mkskipped);
                sk.push(SkippedKey { dh_pub, n, mk });
                assert(sk@.map_values(|e: SkippedKey| skipped_entry_view(e)) =~= skipped_insert(old_sk, dh_pub@, n, mk@));
                self.mkskipped = sk;
            },
        }
    }

    /// Steps the receiving chain up to message number `until_n`, storing the
    /// skipped message keys.
    fn skip_message_keys_current_chain(&mut self, until_n: u32) -> (r: Result<(), RatchetError>)
        requires
            old(self).inv(),
            old(self)@.ckr is None || old(self)@.nr + MAX_SKIPPED_KEYS <= u32::MAX,
        ensures
            final(self).inv(),
            (final(self)@, r) == skip_chain(old(self)@, until_n),
    {
        if self.ckr.is_none() {
            return Ok(());
        }
        if self.nr + (MAX_SKIPPED_KEYS as u32) < until_n {
            return Err(RatchetError::TooManySkippedKeys);
        }
        while self.nr < until_n
            invariant
                self.inv(),
                self.ckr is Some,
                skip_loop(self@, until_n) == skip_loop(old(self)@, until_n),
                skip_chain(old(self)@, until_n) == skip_loop(old(self)@, until_n),
            decreases until_n - self.nr,
        {
            let ghost prev = self@;
            let ck = match self.ckr {
                Some(c) => c,
                None => return Ok(()),
            };
            let (next_ckr, mk) = kdf_ck(&ck);
            self.ckr = Some(next_ckr);
            match self.dhr {
                Some(dhr) => {
                    if self.mkskipped.len() >= MAX_SKIPPED_KEYS {
                        assert(self@ =~= RatchetView { ckr: Some(chain_next(ck@)), ..prev });
                        return Err(RatchetError::TooManySkippedKeys);
                    }
                    let nr = self.nr;
                    self.insert_skipped(dhr, nr, mk.0);
                },
                None => {},
            }
            self.nr = self.nr + 1;
            assert(self@ =~= match prev.dhr {
                Some(d) => RatchetView {
                    skipped: skipped_insert(prev.skipped, d, prev.nr, chain_message_key(ck@)),
                    nr: (prev.nr + 1) as u32,
                    ckr: Some(chain_next(ck@)),
                    ..prev
                },
                None => RatchetView { nr: (prev.nr + 1) as u32, ckr: Some(chain_next(ck@)), ..prev },
            });
        }
        Ok(())
    }

    /// Whether the peer's current ratchet key is `dh_pub`.
    fn remote_key_is(&self, dh_pub: &[u8; 32]) -> (r: bool)
        ensures
            r == (self@.dhr == Some(dh_pub@)),
    {
        match &self.dhr {
            Some(d) => bytes_equal(d, dh_pub),
            None => false,
        }
    }

    /// The Diffie-Hellman ratchet step on the peer's new key `remote_dh_pub`,
    /// with `fresh_secret` as our next ratchet secret.
    fn dh_ratchet(&mut self, remote_dh_pub: [u8; 32], fresh_secret: [u8; 32])
        requires
            old(self).inv(),
        ensures
            final(self).inv(),
            final(self)@ == dh_ratchet_step(old(self)@, remote_dh_pub@, fresh_secret@),
            dh_agrees(old(self)@.dhs, remote_dh_pub@),
            dh_agrees(fresh_secret@, remote_dh_pub@),
    {
        self.pn = self.ns;
        self.ns = 0;
        self.nr = 0;
        self.dhr = Some(remote_dh_pub);
        let dh_out = x25519_diffie_hellman(&self.dhs, &remote_dh_pub);
        let (next_rk, ckr) = kdf_rk(&self.rk, &dh_out);
        self.rk = next_rk;
        self.ckr = Some(ckr);
        self.dhs = fresh_secret;
        let dh_out_new = x25519_diffie_hellman(&self.dhs, &remote_dh_pub);
        let (next_rk2, cks) = kdf_rk(&self.rk, &dh_out_new);
        self.rk = next_rk2;
        self.cks = Some(cks);
        assert(self@ =~= dh_ratchet_step(old(self)@, remote_dh_pub@, fresh_secret@));
    }
}

/// Catching up the receiving chain never changes the peer key or the root and
/// sending state; when it succeeds with a receiving chain, the chain is at
/// message number `max(nr, until)`.
proof fn lemma_skip_loop_effect(s: RatchetView, until: u32)
    ensures
        ({
            let (t, r) = skip_loop(s, until);
            &&& t.dhr == s.dhr
            &&& t.dhs == s.dhs
            &&& t.rk == s.rk
            &&& t.cks == s.cks
            &&& t.ns == s.ns
            &&& t.pn == s.pn
            &&& (t.ckr is Some <==> s.ckr is Some)
            &&& (r is Ok && s.ckr is Some ==> t.nr == if s.nr >= until { s.nr } else { until })
            &&& (s.ckr is None ==> t == s && r is Ok)
        }),
    decreases until - s.nr,
{
    if s.nr >= until || s.ckr is None {
    } else {
        let ck = s.ckr.unwrap();
        let stepped = RatchetView { ckr: Some(chain_next(ck)), ..s };
        match s.dhr {
            Some(d) => {
                if s.skipped.len() >= MAX_SKIPPED_KEYS {
                } else {
                    lemma_skip_loop_effect(
                        RatchetView {
                            skipped: skipped_insert(s.skipped, d, s.nr, chain_message_key(ck)),
                            nr: (s.nr + 1) as u32,
                            ..stepped
                        },
                        until,
                    );
                }
            },
            None => {
                lemma_skip_loop_effect(RatchetView { nr: (s.nr + 1) as u32, ..stepped }, until);
            },
        }
    }
}

/// Whether decrypting a message with header `h` in state `s` performs a
/// Diffie-Hellman ratchet step.
pub open spec fn decrypt_ratchets(s: RatchetView, h: HeaderView) -> bool {
    &&& !has_skipped(s.skipped, h.dh_pub, h.n)
    &&& s.dhr != Some(h.dh_pub)
    &&& skip_chain(s, h.pn).1 is Ok
}

impl DoubleRatchet {
    /// Catches up the current receiving chain to `until_n` when `remote_dh_pub`
    /// is the peer's current ratchet key.
    fn skip_message_keys(&mut self, remote_dh_pub: &[u8; 32], until_n: u32) -> (r: Result<(), RatchetError>)
        requires
            old(self).inv(),
            old(self)@.ckr is None || old(self)@.nr + MAX_SKIPPED_KEYS <= u32::MAX,
        ensures
            final(self).inv(),
            (final(self)@, r) == if old(self)@.dhr == Some(remote_dh_pub@) {
                skip_chain(old(self)@, until_n)
            } else {
                (old(self)@, Ok(()))
            },
    {
        if !self.remote_key_is(remote_dh_pub) {
            return Ok(());
        }
        self.skip_message_keys_current_chain(until_n)
    }

    /// A copy of this session.
    fn duplicate(&self) -> (c: Self)
        requires
            self.inv(),
        ensures
            c@ == self@,
            c.inv(),
    {
        let mut skipped: Vec<SkippedKey> = Vec::new();
        let mut i: usize = 0;
        while i < self.mkskipped.len()
            invariant
                i <= self.mkskipped.len(),
                skipped@.len() == i,
                forall|j: int| 0 <= j < i ==> skipped_entry_view(#[trigger] skipped@[j]) == skipped_entry_view(
                    self.mkskipped@[j],
                ),
            decreases self.mkskipped.len() - i,
        {
            let e = &self.mkskipped[i];
            skipped.push(SkippedKey { dh_pub: e.dh_pub, n: e.n, mk: e.mk });
            i = i + 1;
        }
        assert(skipped@.map_values(|e: SkippedKey| skipped_entry_view(e)) =~= self@.skipped);
        let c = DoubleRatchet {
            dhs: self.dhs,
            dhr: self.dhr,
            rk: self.rk,
            cks: self.cks,
            ckr: self.ckr,
            ns: self.ns,
            nr: self.nr,
            pn: self.pn,
            mkskipped: skipped,
        };
        assert(c@.skipped =~= self@.skipped);
        c
    }

    /// Decrypts `msg` with associated data `ad`, using `fresh_secret` as the next
    /// ratchet secret if the message starts a new ratchet step. The session
    /// changes only when decryption succeeds.
    pub fn decrypt_with_secret(&mut self, msg: &EncryptedMessage, ad: &[u8], fresh_secret: [u8; 32]) -> (r: Result<Vec<u8>, RatchetError>)
        requires
            decrypt_counters_fit(old(self)@, msg.header@),
        ensures
            final(self).inv(),
            (final(self)@, bytes_result_view(r)) == decrypt_outcome(
                old(self)@,
                msg.header@,
                msg.ciphertext@,
                ad@,
                fresh_secret@,
            ),
            decrypt_ratchets(old(self)@, msg.header@) ==> dh_agrees(old(self)@.dhs, msg.header.dh_pub@)
                && dh_agrees(fresh_secret@, msg.header.dh_pub@),
    {
        proof {
            use_type_invariant(&*self);
        }
        let mut work = self.duplicate();
        let r = work.decrypt_attempt(msg, ad, fresh_secret);
        if r.is_ok() {
            *self = work;
        }
        r
    }

    /// One decryption attempt on this session (see `decrypt_spec`), which
    /// changes the session even when it fails.
    fn decrypt_attempt(&mut self, msg: &EncryptedMessage, ad: &[u8], fresh_secret: [u8; 32]) -> (r: Result<Vec<u8>, RatchetError>)
        requires
            old(self).inv(),
            decrypt_counters_fit(old(self)@, msg.header@),
        ensures
            final(self).inv(),
            (final(self)@, bytes_result_view(r)) == decrypt_spec(
                old(self)@,
                msg.header@,
                msg.ciphertext@,
                ad@,
                fresh_secret@,
            ),
            decrypt_ratchets(old(self)@, msg.header@) ==> dh_agrees(old(self)@.dhs, msg.header.dh_pub@)
                && dh_agrees(fresh_secret@, msg.header.dh_pub@),
    {
        let ghost s0 = self@;
        let ghost h = msg.header@;
        let header_bytes = header_ad(&msg.header, ad);
        match self.find_skipped(&msg.header.dh_pub, msg.header.n) {
            Some(i) => {
                proof {
                    lemma_skipped_position_unique(s0.skipped, i as int);
                    lemma_skipped_remove_distinct(s0.skipped, i as int);
                }
                let mut sk: Vec<SkippedKey> = Vec::new();
                std::mem::swap(&mut sk, &mut self.mkskipped);
                let entry = sk.remove(i);
                assert(sk@.map_values(|e: SkippedKey| skipped_entry_view(e)) =~= s0.skipped.remove(i as int));
                self.mkskipped = sk;
                assert(self@.skipped =~= s0.skipped.remove(i as int));
                assert(self@ == RatchetView { skipped: s0.skipped.remove(i as int), ..s0 });
                return aead_decrypt(&entry.mk, &msg.ciphertext, &header_bytes, msg.header.n);
            },
            None => {},
        }
        proof {
            lemma_skip_loop_effect(s0, h.n);
        }
        match self.skip_message_keys(&msg.header.dh_pub, msg.header.n) {
            Ok(()) => {},
            Err(e) => return Err(e),
        }
        let ghost s1 = self@;
        if !self.remote_key_is(&msg.header.dh_pub) {
            assert(s1 == s0);
            proof {
                lemma_skip_loop_effect(s0, h.pn);
            }
            match self.skip_message_keys_current_chain(msg.header.pn) {
                Ok(()) => {},
                Err(e) => return Err(e),
            }
            self.dh_ratchet(msg.header.dh_pub, fresh_secret);
        }
        let ghost s2 = self@;
        proof {
            lemma_skip_loop_effect(s2, h.n);
        }
        match self.skip_message_keys_current_chain(msg.header.n) {
            Ok(()) => {},
            Err(e) => return Err(e),
        }
        let ck = match self.ckr {
            Some(ck) => ck,
            None => return Err(RatchetError::DecryptionFailed),
        };
        let (next_ckr, mk) = kdf_ck(&ck);
        self.ckr = Some(next_ckr);
        self.nr = self.nr + 1;
        aead_decrypt(&mk.0, &msg.ciphertext, &header_bytes, msg.header.n)
    }

    /// Decrypts `msg` with associated data `ad`, drawing a fresh ratchet secret
    /// from the operating system's generator for a new ratchet step. The
    /// session changes only when decryption succeeds.
    pub fn decrypt(&mut self, msg: &EncryptedMessage, ad: &[u8]) -> (r: Result<Vec<u8>, RatchetError>)
        requires
            decrypt_counters_fit(old(self)@, msg.header@),
        ensures
            final(self).inv(),
            exists|fresh: Seq<u8>|
                {
                    &&& fresh.len() == 32
                    &&& (final(self)@, bytes_result_view(r)) == decrypt_outcome(
                        old(self)@,
                        msg.header@,
                        msg.ciphertext@,
                        ad@,
                        fresh,
                    )
                    &&& decrypt_ratchets(old(self)@, msg.header@) ==> dh_agrees(
                        old(self)@.dhs,
                        msg.header.dh_pub@,
                    ) && dh_agrees(fresh, msg.header.dh_pub@)
                },
    {
        proof {
            use_type_invariant(&*self);
        }
        let fresh = random_secret();
        self.decrypt_with_secret(msg, ad, fresh)
    }
}

/// Law: a message encrypted on a sending chain is decrypted by a receiver
/// whose receiving chain holds the same chain key at the same message number
/// and that already knows the sender's ratchet key; afterwards the receiving
/// chain again matches the sender's sending chain.
pub proof fn lemma_in_chain_round_trip(
    sender: RatchetView,
    sender_after: RatchetView,
    msg: MessageView,
    pt: Seq<u8>,
    ad: Seq<u8>,
    receiver: RatchetView,
    fresh: Seq<u8>,
)
    requires
        encrypt_spec(sender, pt, ad, sender_after, Ok(msg)),
        receiver.ckr == sender.cks,
        receiver.nr == sender.ns,
        receiver.dhr == Some(x25519_base(sender.dhs)),
        !has_skipped(receiver.skipped, x25519_base(sender.dhs), sender.ns),
    ensures
        ({
            let (t, r) = decrypt_spec(receiver, msg.header, msg.ciphertext, ad, fresh);
            &&& r == Ok::<Seq<u8>, RatchetError>(pt)
            &&& t.ckr == sender_after.cks
            &&& t.nr == sender_after.ns
            &&& t.skipped == receiver.skipped
        }),
{
    let h = msg.header;
    assert(skip_chain(receiver, h.n) == (receiver, Ok::<(), RatchetError>(())));
    assert(decrypt_prepare(receiver, h, fresh) == (receiver, Ok::<(), RatchetError>(())));
}

/// Law: the first message of the side that sends first is decrypted by the
/// side holding the matching initial ratchet secret.
pub proof fn lemma_first_message_delivered(
    shared: Seq<u8>,
    anek_secret: Seq<u8>,
    ventie_secret: Seq<u8>,
    ventie_after: RatchetView,
    msg: MessageView,
    pt: Seq<u8>,
    ad: Seq<u8>,
    fresh: Seq<u8>,
)
    requires
        anek_secret.len() == 32,
        dh_agrees(ventie_secret, x25519_base(anek_secret)),
        encrypt_spec(
            ventie_initial(shared, x25519_base(anek_secret), ventie_secret),
            pt,
            ad,
            ventie_after,
            Ok(msg),
        ),
    ensures
        decrypt_spec(anek_initial(shared, anek_secret), msg.header, msg.ciphertext, ad, fresh).1
            == Ok::<Seq<u8>, RatchetError>(pt),
{
    let anek = anek_initial(shared, anek_secret);
    let h = msg.header;
    assert(x25519(ventie_secret, x25519_base(anek_secret)) == x25519(
        anek_secret,
        x25519_base(ventie_secret),
    ));
    assert(!has_skipped(anek.skipped, h.dh_pub, h.n));
    let s2 = dh_ratchet_step(anek, h.dh_pub, fresh);
    assert(skip_chain(anek, h.pn) == (anek, Ok::<(), RatchetError>(())));
    assert(skip_chain(s2, h.n) == (s2, Ok::<(), RatchetError>(())));
    assert(decrypt_prepare(anek, h, fresh) == (s2, Ok::<(), RatchetError>(())));
}

/// Law: after the receiving side has decrypted the first message (drawing
/// `anek_fresh` as its next ratchet secret), its reply is decrypted by the
/// first sender. It needs the new ratchet key to differ from the initial one.
pub proof fn lemma_reply_delivered(
    shared: Seq<u8>,
    anek_secret: Seq<u8>,
    ventie_secret: Seq<u8>,
    anek_fresh: Seq<u8>,
    ventie_fresh: Seq<u8>,
    ventie_after: RatchetView,
    first: MessageView,
    first_pt: Seq<u8>,
    first_ad: Seq<u8>,
    anek_after: RatchetView,
    reply: MessageView,
    reply_pt: Seq<u8>,
    reply_ad: Seq<u8>,
)
    requires
        anek_secret.len() == 32,
        ventie_secret.len() == 32,
        dh_agrees(ventie_secret, x25519_base(anek_secret)),
        encrypt_spec(
            ventie_initial(shared, x25519_base(anek_secret), ventie_secret),
            first_pt,
            first_ad,
            ventie_after,
            Ok(first),
        ),
        dh_agrees(anek_fresh, first.header.dh_pub),
        encrypt_spec(
            decrypt_spec(
                anek_initial(shared, anek_secret),
                first.header,
                first.ciphertext,
                first_ad,
                anek_fresh,
            ).0,
            reply_pt,
            reply_ad,
            anek_after,
            Ok(reply),
        ),
        x25519_base(anek_fresh) != x25519_base(anek_secret),
    ensures
        decrypt_spec(ventie_after, reply.header, reply.ciphertext, reply_ad, ventie_fresh).1
            == Ok::<Seq<u8>, RatchetError>(reply_pt),
{
    let v0 = ventie_initial(shared, x25519_base(anek_secret), ventie_secret);
    let anek0 = anek_initial(shared, anek_secret);
    let h1 = first.header;
    assert(x25519(ventie_secret, x25519_base(anek_secret)) == x25519(
        anek_secret,
        x25519_base(ventie_secret),
    ));
    assert(!has_skipped(anek0.skipped, h1.dh_pub, h1.n));
    let a2 = dh_ratchet_step(anek0, h1.dh_pub, anek_fresh);
    assert(skip_chain(anek0, h1.pn) == (anek0, Ok::<(), RatchetError>(())));
    assert(skip_chain(a2, h1.n) == (a2, Ok::<(), RatchetError>(())));
    assert(decrypt_prepare(anek0, h1, anek_fresh) == (a2, Ok::<(), RatchetError>(())));
    let anek1 = decrypt_spec(anek0, h1, first.ciphertext, first_ad, anek_fresh).0;
    assert(anek1.dhs == anek_fresh);
    assert(anek1.skipped == anek0.skipped);
    let h2 = reply.header;
    assert(h2.dh_pub == x25519_base(anek_fresh));
    // the first sender takes the reply's new ratchet key
    assert(x25519(anek_fresh, x25519_base(ventie_secret)) == x25519(
        ventie_secret,
        x25519_base(anek_fresh),
    ));
    assert(!has_skipped(ventie_after.skipped, h2.dh_pub, h2.n));
    assert(ventie_after.dhr != Some(h2.dh_pub));
    let w2 = dh_ratchet_step(ventie_after, h2.dh_pub, ventie_fresh);
    assert(skip_chain(ventie_after, h2.pn) == (ventie_after, Ok::<(), RatchetError>(())));
    assert(skip_chain(w2, h2.n) == (w2, Ok::<(), RatchetError>(())));
    assert(decrypt_prepare(ventie_after, h2, ventie_fresh) == (w2, Ok::<(), RatchetError>(())));
    assert(w2.ckr == anek1.cks);
}

/// Law: of two messages sent in a row on the first sending chain, the second
/// is decrypted first and the first afterwards, from its stored skipped key.
pub proof fn lemma_out_of_order_delivery(
    shared: Seq<u8>,
    anek_secret: Seq<u8>,
    ventie_secret: Seq<u8>,
    anek_fresh: Seq<u8>,
    anek_fresh2: Seq<u8>,
    ventie_mid: RatchetView,
    ventie_after: RatchetView,
    first: MessageView,
    first_pt: Seq<u8>,
    second: MessageView,
    second_pt: Seq<u8>,
    ad: Seq<u8>,
)
    requires
        anek_secret.len() == 32,
        dh_agrees(ventie_secret, x25519_base(anek_secret)),
        encrypt_spec(
            ventie_initial(shared, x25519_base(anek_secret), ventie_secret),
            first_pt,
            ad,
            ventie_mid,
            Ok(first),
        ),
        encrypt_spec(ventie_mid, second_pt, ad, ventie_after, Ok(second)),
    ensures
        ({
            let (anek1, r2) = decrypt_spec(
                anek_initial(shared, anek_secret),
                second.header,
                second.ciphertext,
                ad,
                anek_fresh,
            );
            let (_, r1) = decrypt_spec(anek1, first.header, first.ciphertext, ad, anek_fresh2);
            r2 == Ok::<Seq<u8>, RatchetError>(second_pt) && r1 == Ok::<Seq<u8>, RatchetError>(
                first_pt,
            )
        }),
{
    let v0 = ventie_initial(shared, x25519_base(anek_secret), ventie_secret);
    let anek0 = anek_initial(shared, anek_secret);
    let h1 = first.header;
    let h2 = second.header;
    assert(x25519(ventie_secret, x25519_base(anek_secret)) == x25519(
        anek_secret,
        x25519_base(ventie_secret),
    ));
    let ck0 = v0.cks.unwrap();
    assert(!has_skipped(anek0.skipped, h2.dh_pub, h2.n));
    let a2 = dh_ratchet_step(anek0, h2.dh_pub, anek_fresh);
    assert(a2.ckr == Some(ck0));
    assert(skip_chain(anek0, h2.pn) == (anek0, Ok::<(), RatchetError>(())));
    assert(!has_skipped(a2.skipped, h2.dh_pub, 0));
    let a3 = RatchetView {
        skipped: seq![(h2.dh_pub, 0u32, chain_message_key(ck0))],
        nr: 1,
        ckr: Some(chain_next(ck0)),
        ..a2
    };
    assert(skipped_insert(a2.skipped, h2.dh_pub, 0, chain_message_key(ck0)) =~= a3.skipped);
    assert(skip_loop(a3, 1) == (a3, Ok::<(), RatchetError>(())));
    assert(skip_loop(a2, 1) == (a3, Ok::<(), RatchetError>(())));
    assert(skip_chain(a2, h2.n) == (a3, Ok::<(), RatchetError>(())));
    assert(decrypt_prepare(anek0, h2, anek_fresh) == (a3, Ok::<(), RatchetError>(())));
    let anek1 = decrypt_spec(anek0, h2, second.ciphertext, ad, anek_fresh).0;
    assert(anek1.skipped == a3.skipped);
    assert(anek1.skipped[0].0 == h1.dh_pub && anek1.skipped[0].1 == h1.n);
    assert(has_skipped(anek1.skipped, h1.dh_pub, h1.n));
    assert(skipped_position(anek1.skipped, h1.dh_pub, h1.n) == 0);
}

// ---------------------------------------------------------------------------
// Delivery on a receiving chain, in any order

/// Chain key `n` steps along the chain that starts at `ck0`.
pub open spec fn chain_key_at(ck0: Seq<u8>, n: nat) -> Seq<u8>
    decreases n,
{
    if n == 0 {
        ck0
    } else {
        chain_next(chain_key_at(ck0, (n - 1) as nat))
    }
}

/// Message key of message `n` of the chain that starts at `ck0`.
pub open spec fn chain_message_key_at(ck0: Seq<u8>, n: nat) -> Seq<u8> {
    chain_message_key(chain_key_at(ck0, n))
}

/// Whether the skipped store holds exactly `mk` for (`dh`, `n`).
pub open spec fn stored_key(sk: Seq<(Seq<u8>, u32, Seq<u8>)>, dh: Seq<u8>, n: u32, mk: Seq<u8>) -> bool {
    exists|i: int| 0 <= i < sk.len() && #[trigger] sk[i] == (dh, n, mk)
}

/// Whether `m` is message number `m.header.n` of the chain with ratchet key
/// `k` that starts at `ck0`, encrypting `pt` with associated data `ad`.
pub open spec fn chain_message(k: Seq<u8>, ck0: Seq<u8>, m: MessageView, pt: Seq<u8>, ad: Seq<u8>) -> bool {
    &&& m.header.dh_pub == k
    &&& open_with(chain_message_key_at(ck0, m.header.n as nat), m.header, m.ciphertext, ad) == Ok::<
        Seq<u8>,
        RatchetError,
    >(pt)
}

/// Whether `r` receives on the chain with peer key `k` that starts at `ck0`,
/// having delivered the messages numbered in `delivered`: its receiving chain
/// stands at message `r.nr`, every earlier message not delivered has its key
/// stored, and no key is stored for a delivered message or a later one.
pub open spec fn receiving_chain(r: RatchetView, k: Seq<u8>, ck0: Seq<u8>, delivered: Set<u32>) -> bool {
    &&& r.dhr == Some(k)
    &&& r.ckr == Some(chain_key_at(ck0, r.nr as nat))
    &&& skipped_distinct(r.skipped)
    &&& forall|n: u32|
        n < r.nr && !delivered.contains(n) ==> #[trigger] stored_key(
            r.skipped,
            k,
            n,
            chain_message_key_at(ck0, n as nat),
        )
    &&& forall|n: u32| #[trigger] delivered.contains(n) ==> n < r.nr && !has_skipped(r.skipped, k, n)
    &&& forall|n: u32| n >= r.nr ==> !#[trigger] has_skipped(r.skipped, k, n)
}

/// Stepping the receiving chain from `s.nr` to `until` stores the message keys
/// of the numbers passed, for the peer's key, and nothing else.
proof fn lemma_skip_loop_chain(s: RatchetView, k: Seq<u8>, ck0: Seq<u8>, until: u32)
    requires
        s.dhr == Some(k),
        s.ckr == Some(chain_key_at(ck0, s.nr as nat)),
        s.nr <= until,
        s.skipped.len() + (until - s.nr) <= MAX_SKIPPED_KEYS,
        skipped_distinct(s.skipped),
        forall|j: u32| j >= s.nr ==> !#[trigger] has_skipped(s.skipped, k, j),
    ensures
        ({
            let (t, r) = skip_loop(s, until);
            &&& r == Ok::<(), RatchetError>(())
            &&& t == RatchetView { ckr: Some(chain_key_at(ck0, until as nat)), nr: until, skipped: t.skipped, ..s }
            &&& t.skipped.len() == s.skipped.len() + (until - s.nr)
            &&& skipped_distinct(t.skipped)
            &&& forall|d: Seq<u8>, j: u32, mk: Seq<u8>|
                #[trigger] stored_key(s.skipped, d, j, mk) ==> stored_key(t.skipped, d, j, mk)
            &&& forall|j: u32|
                s.nr <= j < until ==> #[trigger] stored_key(
                    t.skipped,
                    k,
                    j,
                    chain_message_key_at(ck0, j as nat),
                )
            &&& forall|d: Seq<u8>, j: u32|
                #[trigger] has_skipped(t.skipped, d, j) ==> has_skipped(s.skipped, d, j) || (d == k
                    && s.nr <= j < until)
        }),
    decreases until - s.nr,
{
    if s.nr >= until {
        assert(skip_loop(s, until) == (s, Ok::<(), RatchetError>(())));
    } else {
        let ck = s.ckr.unwrap();
        let mk = chain_message_key(ck);
        assert(!has_skipped(s.skipped, k, s.nr));
        let sk2 = s.skipped.push((k, s.nr, mk));
        assert(skipped_insert(s.skipped, k, s.nr, mk) == sk2);
        let s2 = RatchetView { skipped: sk2, nr: (s.nr + 1) as u32, ckr: Some(chain_next(ck)), ..s };
        assert(chain_key_at(ck0, (s.nr + 1) as nat) == chain_next(chain_key_at(ck0, s.nr as nat)));
        assert(skipped_distinct(sk2)) by {
            assert forall|a: int, b: int|
                0 <= a < sk2.len() && 0 <= b < sk2.len() && a != b implies (#[trigger] sk2[a]).0
                != (#[trigger] sk2[b]).0 || sk2[a].1 != sk2[b].1 by {
                if a == s.skipped.len() as int && sk2[b].0 == k && sk2[b].1 == s.nr {
                    assert(s.skipped[b] == sk2[b]);
                }
                if b == s.skipped.len() as int && sk2[a].0 == k && sk2[a].1 == s.nr {
                    assert(s.skipped[a] == sk2[a]);
                }
            }
        }
        assert forall|j: u32| j >= s2.nr implies !#[trigger] has_skipped(s2.skipped, k, j) by {
            if has_skipped(s2.skipped, k, j) {
                let w = choose|w: int| 0 <= w < sk2.len() && (#[trigger] sk2[w]).0 == k && sk2[w].1 == j;
                if w < s.skipped.len() {
                    assert(s.skipped[w] == sk2[w]);
                    assert(has_skipped(s.skipped, k, j));
                    assert(false);
                } else {
                    assert(sk2[w] == (k, s.nr, mk));
                }
            }
        }
        lemma_skip_loop_chain(s2, k, ck0, until);
        assert(skip_loop(s, until) == skip_loop(s2, until));
        let (t, r) = skip_loop(s, until);
        assert forall|d: Seq<u8>, j: u32, m2: Seq<u8>|
            #[trigger] stored_key(s.skipped, d, j, m2) implies stored_key(t.skipped, d, j, m2) by {
            let w = choose|w: int| 0 <= w < s.skipped.len() && #[trigger] s.skipped[w] == (d, j, m2);
            assert(sk2[w] == (d, j, m2));
            assert(stored_key(sk2, d, j, m2));
        }
        assert(sk2[s.skipped.len() as int] == (k, s.nr, mk));
        assert(stored_key(sk2, k, s.nr, chain_message_key_at(ck0, s.nr as nat)));
        assert forall|d: Seq<u8>, j: u32|
            #[trigger] has_skipped(t.skipped, d, j) implies has_skipped(s.skipped, d, j) || (d == k
                && s.nr <= j < until) by {
            if has_skipped(sk2, d, j) && !(d == k && j == s.nr) {
                let w = choose|w: int| 0 <= w < sk2.len() && (#[trigger] sk2[w]).0 == d && sk2[w].1 == j;
                assert(w < s.skipped.len());
                assert(s.skipped[w] == sk2[w]);
            }
        }
    }
}

/// The stored key for (`dh`, `n`) in a store without repeats is the one at
/// its position.
proof fn lemma_stored_position(sk: Seq<(Seq<u8>, u32, Seq<u8>)>, dh: Seq<u8>, n: u32, mk: Seq<u8>)
    requires
        skipped_distinct(sk),
        stored_key(sk, dh, n, mk),
    ensures
        has_skipped(sk, dh, n),
        sk[skipped_position(sk, dh, n)] == (dh, n, mk),
{
    let w = choose|w: int| 0 <= w < sk.len() && #[trigger] sk[w] == (dh, n, mk);
    assert(sk[w].0 == dh && sk[w].1 == n);
    let p = skipped_position(sk, dh, n);
    assert(p == w);
}

/// Removing one key from a store without repeats keeps the others and no
/// repeats.
proof fn lemma_skipped_remove(sk: Seq<(Seq<u8>, u32, Seq<u8>)>, i: int)
    requires
        skipped_distinct(sk),
        0 <= i < sk.len(),
    ensures
        skipped_distinct(sk.remove(i)),
        forall|d: Seq<u8>, j: u32, mk: Seq<u8>|
            #[trigger] stored_key(sk, d, j, mk) && !(d == sk[i].0 && j == sk[i].1) ==> stored_key(
                sk.remove(i),
                d,
                j,
                mk,
            ),
        forall|d: Seq<u8>, j: u32|
            #[trigger] has_skipped(sk.remove(i), d, j) ==> has_skipped(sk, d, j) && !(d == sk[i].0 && j
                == sk[i].1),
{
    let rm = sk.remove(i);
    assert forall|a: int, b: int|
        0 <= a < rm.len() && 0 <= b < rm.len() && a != b implies (#[trigger] rm[a]).0 != (
        #[trigger] rm[b]).0 || rm[a].1 != rm[b].1 by {
        let a2 = if a < i { a } else { a + 1 };
        let b2 = if b < i { b } else { b + 1 };
        assert(rm[a] == sk[a2] && rm[b] == sk[b2]);
    }
    assert forall|d: Seq<u8>, j: u32, mk: Seq<u8>|
        #[trigger] stored_key(sk, d, j, mk) && !(d == sk[i].0 && j == sk[i].1) implies stored_key(
        rm,
        d,
        j,
        mk,
    ) by {
        let w = choose|w: int| 0 <= w < sk.len() && #[trigger] sk[w] == (d, j, mk);
        let w2 = if w < i { w } else { w - 1 };
        assert(w != i);
        assert(rm[w2] == sk[w]);
    }
    assert forall|d: Seq<u8>, j: u32|
        #[trigger] has_skipped(rm, d, j) implies has_skipped(sk, d, j) && !(d == sk[i].0 && j
        == sk[i].1) by {
        let w = choose|w: int| 0 <= w < rm.len() && (#[trigger] rm[w]).0 == d && rm[w].1 == j;
        let w2 = if w < i { w } else { w + 1 };
        assert(rm[w] == sk[w2]);
        assert(w2 != i);
    }
}

/// Whether the store `t` keeps every key `s` stores for a sender key other
/// than `k1` and `k2`, and holds no other keys for such sender keys.
pub open spec fn keys_of_others_kept(
    s: Seq<(Seq<u8>, u32, Seq<u8>)>,
    t: Seq<(Seq<u8>, u32, Seq<u8>)>,
    k1: Seq<u8>,
    k2: Seq<u8>,
) -> bool {
    &&& forall|d: Seq<u8>, j: u32, mk: Seq<u8>|
        d != k1 && d != k2 && #[trigger] stored_key(s, d, j, mk) ==> stored_key(t, d, j, mk)
    &&& forall|d: Seq<u8>, j: u32|
        d != k1 && d != k2 && #[trigger] has_skipped(t, d, j) ==> has_skipped(s, d, j)
}

/// Whether the chain with peer key `k` that starts at `ck0` is closed after
/// `len` messages, with the messages in `delivered` delivered: every other
/// message of it has its key stored, and no other key is stored for it.
pub open spec fn closed_chain(r: RatchetView, k: Seq<u8>, ck0: Seq<u8>, delivered: Set<u32>, len: u32) -> bool {
    &&& skipped_distinct(r.skipped)
    &&& forall|n: u32|
        n < len && !delivered.contains(n) ==> #[trigger] stored_key(
            r.skipped,
            k,
            n,
            chain_message_key_at(ck0, n as nat),
        )
    &&& forall|n: u32| #[trigger] has_skipped(r.skipped, k, n) ==> n < len && !delivered.contains(n)
}

/// Law: on a receiving chain, every message of that chain not yet delivered
/// decrypts to its plaintext, whatever order the messages arrive in, as long
/// as the store has room for the keys passed over; afterwards the receiver
/// still receives on that chain, with that message delivered, and its sending
/// side and root key are untouched.
pub proof fn lemma_chain_delivery(
    r: RatchetView,
    k: Seq<u8>,
    ck0: Seq<u8>,
    delivered: Set<u32>,
    m: MessageView,
    pt: Seq<u8>,
    ad: Seq<u8>,
    fresh: Seq<u8>,
)
    requires
        receiving_chain(r, k, ck0, delivered),
        chain_message(k, ck0, m, pt, ad),
        !delivered.contains(m.header.n),
        m.header.n < u32::MAX,
        m.header.n < r.nr || r.skipped.len() + (m.header.n - r.nr) <= MAX_SKIPPED_KEYS,
    ensures
        ({
            let (t, res) = decrypt_spec(r, m.header, m.ciphertext, ad, fresh);
            &&& res == Ok::<Seq<u8>, RatchetError>(pt)
            &&& receiving_chain(t, k, ck0, delivered.insert(m.header.n))
            &&& t.dhs == r.dhs && t.rk == r.rk && t.cks == r.cks && t.ns == r.ns && t.pn == r.pn
            &&& t.skipped.len() <= r.skipped.len() + (if m.header.n >= r.nr {
                m.header.n - r.nr
            } else {
                0
            })
            &&& keys_of_others_kept(r.skipped, t.skipped, k, k)
            &&& t.nr == (if m.header.n < r.nr {
                r.nr
            } else {
                (m.header.n + 1) as u32
            })
        }),
{
    let h = m.header;
    let n = h.n;
    let d2 = delivered.insert(n);
    if n < r.nr {
        let mk = chain_message_key_at(ck0, n as nat);
        assert(stored_key(r.skipped, k, n, mk));
        lemma_stored_position(r.skipped, k, n, mk);
        let i = skipped_position(r.skipped, k, n);
        lemma_skipped_remove(r.skipped, i);
        let t = RatchetView { skipped: r.skipped.remove(i), ..r };
        assert(decrypt_spec(r, h, m.ciphertext, ad, fresh) == (t, open_with(mk, h, m.ciphertext, ad)));
        assert forall|j: u32| j < t.nr && !d2.contains(j) implies #[trigger] stored_key(
            t.skipped,
            k,
            j,
            chain_message_key_at(ck0, j as nat),
        ) by {
            assert(stored_key(r.skipped, k, j, chain_message_key_at(ck0, j as nat)));
        }
        assert forall|j: u32| #[trigger] d2.contains(j) implies j < t.nr && !has_skipped(t.skipped, k, j) by {
            if j != n {
                assert(delivered.contains(j));
            }
        }
        assert forall|j: u32| j >= t.nr implies !#[trigger] has_skipped(t.skipped, k, j) by {
            if has_skipped(t.skipped, k, j) {
                assert(has_skipped(r.skipped, k, j));
            }
        }
    } else {
        assert(!has_skipped(r.skipped, k, n));
        lemma_skip_loop_chain(r, k, ck0, n);
        let (s1, r1) = skip_loop(r, n);
        assert(skip_chain(r, n) == (s1, r1));
        assert(skip_loop(s1, n) == (s1, Ok::<(), RatchetError>(())));
        assert(skip_chain(s1, n) == (s1, Ok::<(), RatchetError>(())));
        assert(decrypt_prepare(r, h, fresh) == (s1, Ok::<(), RatchetError>(())));
        let ck = chain_key_at(ck0, n as nat);
        let t = RatchetView { ckr: Some(chain_next(ck)), nr: (n + 1) as u32, ..s1 };
        assert(decrypt_spec(r, h, m.ciphertext, ad, fresh) == (
            t,
            open_with(chain_message_key(ck), h, m.ciphertext, ad),
        ));
        assert(chain_key_at(ck0, (n + 1) as nat) == chain_next(ck));
        assert forall|j: u32| j < t.nr && !d2.contains(j) implies #[trigger] stored_key(
            t.skipped,
            k,
            j,
            chain_message_key_at(ck0, j as nat),
        ) by {
            if j < r.nr {
                assert(stored_key(r.skipped, k, j, chain_message_key_at(ck0, j as nat)));
            }
        }
        assert forall|j: u32| #[trigger] d2.contains(j) implies j < t.nr && !has_skipped(t.skipped, k, j) by {
            if j != n {
                assert(delivered.contains(j));
                assert(!has_skipped(r.skipped, k, j));
            } else {
                assert(!has_skipped(r.skipped, k, j));
            }
        }
        assert forall|j: u32| j >= t.nr implies !#[trigger] has_skipped(t.skipped, k, j) by {
            assert(!has_skipped(r.skipped, k, j));
        }
    }
}

/// Law: a message of a closed chain that has not been delivered decrypts to
/// its plaintext from its stored key, at any later time; the chain stays
/// closed with that message delivered, and nothing else changes but the store.
pub proof fn lemma_closed_chain_delivery(
    r: RatchetView,
    k: Seq<u8>,
    ck0: Seq<u8>,
    delivered: Set<u32>,
    len: u32,
    m: MessageView,
    pt: Seq<u8>,
    ad: Seq<u8>,
    fresh: Seq<u8>,
)
    requires
        closed_chain(r, k, ck0, delivered, len),
        chain_message(k, ck0, m, pt, ad),
        m.header.n < len,
        !delivered.contains(m.header.n),
    ensures
        ({
            let (t, res) = decrypt_spec(r, m.header, m.ciphertext, ad, fresh);
            &&& res == Ok::<Seq<u8>, RatchetError>(pt)
            &&& closed_chain(t, k, ck0, delivered.insert(m.header.n), len)
            &&& t == RatchetView { skipped: t.skipped, ..r }
            &&& t.skipped.len() < r.skipped.len()
            &&& keys_of_others_kept(r.skipped, t.skipped, k, k)
        }),
{
    let h = m.header;
    let n = h.n;
    let mk = chain_message_key_at(ck0, n as nat);
    lemma_stored_position(r.skipped, k, n, mk);
    let i = skipped_position(r.skipped, k, n);
    lemma_skipped_remove(r.skipped, i);
    let t = RatchetView { skipped: r.skipped.remove(i), ..r };
    assert(decrypt_spec(r, h, m.ciphertext, ad, fresh) == (t, open_with(mk, h, m.ciphertext, ad)));
    let d2 = delivered.insert(n);
    assert forall|j: u32| j < len && !d2.contains(j) implies #[trigger] stored_key(
        t.skipped,
        k,
        j,
        chain_message_key_at(ck0, j as nat),
    ) by {
        assert(stored_key(r.skipped, k, j, chain_message_key_at(ck0, j as nat)));
    }
    assert forall|j: u32| #[trigger] has_skipped(t.skipped, k, j) implies j < len && !d2.contains(j) by {
        assert(has_skipped(r.skipped, k, j));
    }
}

/// Law: a closed chain stays closed while the store keeps its keys: any
/// change that keeps the keys stored for other sender keys than `k1` and `k2`,
/// with `k` neither of them, leaves the chain's undelivered messages
/// deliverable.
pub proof fn lemma_closed_chain_kept(
    r: RatchetView,
    t: RatchetView,
    k: Seq<u8>,
    ck0: Seq<u8>,
    delivered: Set<u32>,
    len: u32,
    k1: Seq<u8>,
    k2: Seq<u8>,
)
    requires
        closed_chain(r, k, ck0, delivered, len),
        skipped_distinct(t.skipped),
        keys_of_others_kept(r.skipped, t.skipped, k1, k2),
        k != k1,
        k != k2,
    ensures
        closed_chain(t, k, ck0, delivered, len),
{
    assert forall|j: u32| j < len && !delivered.contains(j) implies #[trigger] stored_key(
        t.skipped,
        k,
        j,
        chain_message_key_at(ck0, j as nat),
    ) by {
        assert(stored_key(r.skipped, k, j, chain_message_key_at(ck0, j as nat)));
    }
    assert forall|j: u32| #[trigger] has_skipped(t.skipped, k, j) implies j < len && !delivered.contains(j) by {
        assert(has_skipped(r.skipped, k, j));
    }
}

/// Law: the first message to arrive on the peer's next chain, which starts
/// from our root key and our agreement with the peer's new ratchet key `k`,
/// decrypts to its plaintext, whichever of its messages it is. The receiver
/// closes its old receiving chain after the `pn` messages the header announces
/// (storing the keys of those not delivered), takes a ratchet step with `fresh`
/// as its next ratchet secret, and then receives on the new chain.
pub proof fn lemma_new_chain_delivery(
    r: RatchetView,
    ko: Seq<u8>,
    cko: Seq<u8>,
    delivered: Set<u32>,
    k: Seq<u8>,
    m: MessageView,
    pt: Seq<u8>,
    ad: Seq<u8>,
    fresh: Seq<u8>,
)
    requires
        receiving_chain(r, ko, cko, delivered),
        k != ko,
        forall|j: u32| !#[trigger] has_skipped(r.skipped, k, j),
        chain_message(k, root_chain(r.rk, x25519(r.dhs, k)), m, pt, ad),
        r.nr <= m.header.pn,
        m.header.n < u32::MAX,
        r.skipped.len() + (m.header.pn - r.nr) + m.header.n <= MAX_SKIPPED_KEYS,
    ensures
        ({
            let (t, res) = decrypt_spec(r, m.header, m.ciphertext, ad, fresh);
            let rk_mid = root_next(r.rk, x25519(r.dhs, k));
            &&& res == Ok::<Seq<u8>, RatchetError>(pt)
            &&& receiving_chain(t, k, root_chain(r.rk, x25519(r.dhs, k)), set![m.header.n])
            &&& closed_chain(t, ko, cko, delivered, m.header.pn)
            &&& t.dhs == fresh
            &&& t.rk == root_next(rk_mid, x25519(fresh, k))
            &&& t.cks == Some(root_chain(rk_mid, x25519(fresh, k)))
            &&& t.ns == 0
            &&& t.pn == r.ns
            &&& t.skipped.len() == r.skipped.len() + (m.header.pn - r.nr) + m.header.n
            &&& keys_of_others_kept(r.skipped, t.skipped, ko, k)
            &&& t.nr == m.header.n + 1
        }),
{
    let h = m.header;
    let n = h.n;
    let p = h.pn;
    let ck0 = root_chain(r.rk, x25519(r.dhs, k));
    assert(!has_skipped(r.skipped, k, n));
    lemma_skip_loop_chain(r, ko, cko, p);
    let (sa, ra) = skip_loop(r, p);
    assert(skip_chain(r, p) == (sa, ra));
    let s2 = dh_ratchet_step(sa, k, fresh);
    assert(s2.ckr == Some(chain_key_at(ck0, 0)));
    assert forall|j: u32| j >= s2.nr implies !#[trigger] has_skipped(s2.skipped, k, j) by {
        assert(!has_skipped(r.skipped, k, j));
    }
    lemma_skip_loop_chain(s2, k, ck0, n);
    let (s3, r3) = skip_loop(s2, n);
    assert(skip_chain(s2, n) == (s3, r3));
    assert(ra is Ok && r3 is Ok);
    assert(h.dh_pub == k);
    assert(r.dhr != Some(h.dh_pub));
    assert(r3 == Ok::<(), RatchetError>(()));
    assert(decrypt_prepare(r, h, fresh) == (s3, Ok::<(), RatchetError>(())));
    let ck = chain_key_at(ck0, n as nat);
    let t = RatchetView { ckr: Some(chain_next(ck)), nr: (n + 1) as u32, ..s3 };
    assert(decrypt_spec(r, h, m.ciphertext, ad, fresh) == (
        t,
        open_with(chain_message_key(ck), h, m.ciphertext, ad),
    ));
    assert(chain_key_at(ck0, (n + 1) as nat) == chain_next(ck));
    let dn = set![n];
    // the new receiving chain
    assert forall|j: u32| j < t.nr && !dn.contains(j) implies #[trigger] stored_key(
        t.skipped,
        k,
        j,
        chain_message_key_at(ck0, j as nat),
    ) by {}
    assert forall|j: u32| #[trigger] dn.contains(j) implies j < t.nr && !has_skipped(t.skipped, k, j) by {
        assert(j == n);
        if has_skipped(t.skipped, k, j) {
            assert(has_skipped(sa.skipped, k, j));
            assert(has_skipped(r.skipped, k, j));
        }
    }
    assert forall|j: u32| j >= t.nr implies !#[trigger] has_skipped(t.skipped, k, j) by {
        if has_skipped(t.skipped, k, j) {
            assert(has_skipped(sa.skipped, k, j));
            assert(has_skipped(r.skipped, k, j));
        }
    }
    // the old chain, closed
    assert forall|j: u32| j < p && !delivered.contains(j) implies #[trigger] stored_key(
        t.skipped,
        ko,
        j,
        chain_message_key_at(cko, j as nat),
    ) by {
        if j < r.nr {
            assert(stored_key(r.skipped, ko, j, chain_message_key_at(cko, j as nat)));
        }
        assert(stored_key(sa.skipped, ko, j, chain_message_key_at(cko, j as nat)));
    }
    assert forall|j: u32| #[trigger] has_skipped(t.skipped, ko, j) implies j < p && !delivered.contains(j) by {
        assert(has_skipped(sa.skipped, ko, j));
        if has_skipped(r.skipped, ko, j) {
            assert(j < r.nr);
            if delivered.contains(j) {
                assert(!has_skipped(r.skipped, ko, j));
            }
        } else {
            assert(r.nr <= j);
            if delivered.contains(j) {
                assert(j < r.nr);
            }
        }
    }
    assert forall|d: Seq<u8>, j: u32, mk: Seq<u8>|
        d != ko && d != k && #[trigger] stored_key(r.skipped, d, j, mk) implies stored_key(
        t.skipped,
        d,
        j,
        mk,
    ) by {
        assert(stored_key(sa.skipped, d, j, mk));
    }
    assert forall|d: Seq<u8>, j: u32|
        d != ko && d != k && #[trigger] has_skipped(t.skipped, d, j) implies has_skipped(r.skipped, d, j) by {
        assert(has_skipped(sa.skipped, d, j));
    }
}

/// Law: the first message to arrive on the peer's first chain (before any
/// receiving chain exists) decrypts to its plaintext, whichever of its
/// messages it is; the receiver takes a ratchet step with `fresh` as its next
/// ratchet secret and then receives on that chain.
pub proof fn lemma_first_chain_delivery(r: RatchetView, k: Seq<u8>, m: MessageView, pt: Seq<u8>, ad: Seq<u8>, fresh: Seq<u8>)
    requires
        r.ckr is None,
        r.dhr != Some(k),
        r.skipped.len() == 0,
        chain_message(k, root_chain(r.rk, x25519(r.dhs, k)), m, pt, ad),
        m.header.n < u32::MAX,
        m.header.n <= MAX_SKIPPED_KEYS,
    ensures
        ({
            let (t, res) = decrypt_spec(r, m.header, m.ciphertext, ad, fresh);
            let rk_mid = root_next(r.rk, x25519(r.dhs, k));
            &&& res == Ok::<Seq<u8>, RatchetError>(pt)
            &&& receiving_chain(t, k, root_chain(r.rk, x25519(r.dhs, k)), set![m.header.n])
            &&& t.dhs == fresh
            &&& t.rk == root_next(rk_mid, x25519(fresh, k))
            &&& t.cks == Some(root_chain(rk_mid, x25519(fresh, k)))
            &&& t.ns == 0
            &&& t.pn == r.ns
            &&& t.skipped.len() == m.header.n
            &&& forall|d: Seq<u8>, j: u32| #[trigger] has_skipped(t.skipped, d, j) ==> d == k
            &&& t.nr == m.header.n + 1
        }),
{
    let h = m.header;
    let n = h.n;
    let ck0 = root_chain(r.rk, x25519(r.dhs, k));
    assert(skip_chain(r, h.pn) == (r, Ok::<(), RatchetError>(())));
    let s2 = dh_ratchet_step(r, k, fresh);
    assert(s2.ckr == Some(chain_key_at(ck0, 0)));
    assert(skipped_distinct(s2.skipped));
    assert forall|j: u32| j >= s2.nr implies !#[trigger] has_skipped(s2.skipped, k, j) by {}
    lemma_skip_loop_chain(s2, k, ck0, n);
    let (s3, r3) = skip_loop(s2, n);
    assert(skip_chain(s2, n) == (s3, r3));
    assert(h.dh_pub == k);
    assert(decrypt_prepare(r, h, fresh) == (s3, Ok::<(), RatchetError>(())));
    let ck = chain_key_at(ck0, n as nat);
    let t = RatchetView { ckr: Some(chain_next(ck)), nr: (n + 1) as u32, ..s3 };
    assert(!has_skipped(r.skipped, k, n));
    assert(decrypt_spec(r, h, m.ciphertext, ad, fresh) == (
        t,
        open_with(chain_message_key(ck), h, m.ciphertext, ad),
    ));
    assert(chain_key_at(ck0, (n + 1) as nat) == chain_next(ck));
    let dn = set![n];
    assert forall|j: u32| j < t.nr && !dn.contains(j) implies #[trigger] stored_key(
        t.skipped,
        k,
        j,
        chain_message_key_at(ck0, j as nat),
    ) by {}
    assert forall|j: u32| #[trigger] dn.contains(j) implies j < t.nr && !has_skipped(t.skipped, k, j) by {}
    assert forall|j: u32| j >= t.nr implies !#[trigger] has_skipped(t.skipped, k, j) by {}
    assert forall|d: Seq<u8>, j: u32| #[trigger] has_skipped(t.skipped, d, j) implies d == k by {
        if d != k {
            assert(has_skipped(r.skipped, d, j));
        }
    }
}

/// A receiving chain stays as it is while the store keeps the keys of other
/// sender keys than `k1` and `k2`, with its own key neither of them, and
/// nothing else but the store changes.
proof fn lemma_receiving_chain_kept(
    r: RatchetView,
    t: RatchetView,
    k: Seq<u8>,
    ck0: Seq<u8>,
    delivered: Set<u32>,
    k1: Seq<u8>,
    k2: Seq<u8>,
)
    requires
        receiving_chain(r, k, ck0, delivered),
        t == (RatchetView { skipped: t.skipped, ..r }),
        skipped_distinct(t.skipped),
        keys_of_others_kept(r.skipped, t.skipped, k1, k2),
        k != k1,
        k != k2,
    ensures
        receiving_chain(t, k, ck0, delivered),
{
    assert forall|n: u32| n < t.nr && !delivered.contains(n) implies #[trigger] stored_key(
        t.skipped,
        k,
        n,
        chain_message_key_at(ck0, n as nat),
    ) by {
        assert(stored_key(r.skipped, k, n, chain_message_key_at(ck0, n as nat)));
    }
    assert forall|n: u32| #[trigger] delivered.contains(n) implies n < t.nr && !has_skipped(t.skipped, k, n) by {
        if has_skipped(t.skipped, k, n) {
            assert(has_skipped(r.skipped, k, n));
        }
    }
    assert forall|n: u32| n >= t.nr implies !#[trigger] has_skipped(t.skipped, k, n) by {
        if has_skipped(t.skipped, k, n) {
            assert(has_skipped(r.skipped, k, n));
        }
    }
}

/// Law: a failed decryption (a forged or corrupted message, other
/// associated data, or too many keys to skip) leaves the session exactly as it
/// was, so the genuine messages still decrypt afterwards.
pub proof fn lemma_failed_decrypt_keeps_session(
    s: RatchetView,
    h: HeaderView,
    ct: Seq<u8>,
    ad: Seq<u8>,
    fresh: Seq<u8>,
)
    ensures
        decrypt_outcome(s, h, ct, ad, fresh).1 is Err ==> decrypt_outcome(s, h, ct, ad, fresh).0 == s,
        decrypt_outcome(s, h, ct, ad, fresh).1 is Ok ==> decrypt_outcome(s, h, ct, ad, fresh)
            == decrypt_spec(s, h, ct, ad, fresh),
{
}

/// Law: each message key is used at most once. Once message `n` of a
/// receiving chain has been delivered, its key is no longer stored and the
/// chain has moved past it, so decrypting that message again tries the key
/// of the chain's next position instead.
pub proof fn lemma_delivered_key_not_reused(
    r: RatchetView,
    k: Seq<u8>,
    ck0: Seq<u8>,
    delivered: Set<u32>,
    h: HeaderView,
    ct: Seq<u8>,
    ad: Seq<u8>,
    fresh: Seq<u8>,
)
    requires
        receiving_chain(r, k, ck0, delivered),
        delivered.contains(h.n),
        h.dh_pub == k,
    ensures
        !has_skipped(r.skipped, k, h.n),
        h.n < r.nr,
        decrypt_spec(r, h, ct, ad, fresh).1 == open_with(chain_message_key_at(ck0, r.nr as nat), h, ct, ad),
{
    assert(skip_loop(r, h.n) == (r, Ok::<(), RatchetError>(())));
    assert(skip_chain(r, h.n) == (r, Ok::<(), RatchetError>(())));
    assert(decrypt_prepare(r, h, fresh) == (r, Ok::<(), RatchetError>(())));
}

/// Law: sending leaves receiving untouched: encryption keeps a receiver on
/// its receiving chain, so sends and deliveries may interleave freely.
pub proof fn lemma_send_keeps_receiving(
    r: RatchetView,
    pt: Seq<u8>,
    ad: Seq<u8>,
    t: RatchetView,
    res: Result<MessageView, RatchetError>,
    k: Seq<u8>,
    ck0: Seq<u8>,
    delivered: Set<u32>,
)
    requires
        encrypt_spec(r, pt, ad, t, res),
        receiving_chain(r, k, ck0, delivered),
    ensures
        receiving_chain(t, k, ck0, delivered),
        t.skipped == r.skipped,
{
}

/// Law: the messages a sender encrypts on a sending chain are the messages of
/// that chain, numbered in order.
pub proof fn lemma_sent_on_chain(
    s: RatchetView,
    ck0: Seq<u8>,
    pt: Seq<u8>,
    ad: Seq<u8>,
    t: RatchetView,
    m: MessageView,
)
    requires
        s.cks == Some(chain_key_at(ck0, s.ns as nat)),
        s.ns < u32::MAX,
        encrypt_spec(s, pt, ad, t, Ok(m)),
    ensures
        chain_message(x25519_base(s.dhs), ck0, m, pt, ad),
        m.header.n == s.ns,
        t.ns == s.ns + 1,
        t.cks == Some(chain_key_at(ck0, t.ns as nat)),
        t.dhs == s.dhs,
{
    assert(chain_key_at(ck0, (s.ns + 1) as nat) == chain_next(chain_key_at(ck0, s.ns as nat)));
}

// ---------------------------------------------------------------------------
// A whole conversation

/// A conversation between the side that sends first and the side that
/// receives first, as far as it has gone: the ratchet secrets in the order
/// they came into use (the receiving side's initial secret, then alternately
/// one of the sending side's and one of the receiving side's), and for each
/// chain the number of messages sent on it and the numbers of those delivered.
/// Chain `i` (from 1) is sent with secret `keys[i]` to the public key of
/// `keys[i - 1]`; there is no chain 0.
pub struct Conversation {
    pub shared: Seq<u8>,
    pub keys: Seq<Seq<u8>>,
    pub sent: Seq<u32>,
    pub delivered: Seq<Set<u32>>,
}

/// Public ratchet key of secret `i`.
pub open spec fn conv_pub(keys: Seq<Seq<u8>>, i: int) -> Seq<u8> {
    x25519_base(keys[i])
}

/// Diffie-Hellman output that starts chain `i`, as its sender computes it.
pub open spec fn conv_dh(keys: Seq<Seq<u8>>, i: int) -> Seq<u8> {
    x25519(keys[i], x25519_base(keys[i - 1]))
}

/// Root key after chain `i` has been started.
pub open spec fn conv_rk(shared: Seq<u8>, keys: Seq<Seq<u8>>, i: int) -> Seq<u8>
    decreases i,
{
    if i <= 0 {
        shared
    } else {
        root_next(conv_rk(shared, keys, i - 1), conv_dh(keys, i))
    }
}

/// First chain key of chain `i`.
pub open spec fn conv_ck0(shared: Seq<u8>, keys: Seq<Seq<u8>>, i: int) -> Seq<u8> {
    root_chain(conv_rk(shared, keys, i - 1), conv_dh(keys, i))
}

/// Length of the chain its sender sent before chain `i` (0 for the first
/// two chains).
pub open spec fn prev_len(sent: Seq<u32>, i: int) -> u32 {
    if i >= 2 {
        sent[i - 2]
    } else {
        0
    }
}

/// Whether `p` is the session of the side whose current ratchet secret is
/// secret `i` of the conversation: it sends on chain `i`, receives on chain
/// `i - 1`, holds every chain of its peer before that closed, and stores keys
/// of its peer's chains only.
pub open spec fn party_inv(cv: Conversation, p: RatchetView, i: int) -> bool {
    &&& 0 <= i < cv.keys.len()
    &&& p.dhs == cv.keys[i]
    &&& skipped_distinct(p.skipped)
    &&& p.skipped.len() <= MAX_SKIPPED_KEYS
    &&& if i == 0 {
        p == anek_initial(cv.shared, cv.keys[0])
    } else {
        &&& p.dhr == Some(conv_pub(cv.keys, i - 1))
        &&& p.rk == conv_rk(cv.shared, cv.keys, i)
        &&& p.cks == Some(chain_key_at(conv_ck0(cv.shared, cv.keys, i), cv.sent[i] as nat))
        &&& p.ns == cv.sent[i]
        &&& p.pn == prev_len(cv.sent, i)
        &&& if i == 1 {
            p.ckr is None && p.nr == 0 && p.skipped.len() == 0
        } else {
            &&& receiving_chain(
                p,
                conv_pub(cv.keys, i - 1),
                conv_ck0(cv.shared, cv.keys, i - 1),
                cv.delivered[i - 1],
            )
            &&& p.nr <= cv.sent[i - 1]
        }
        &&& forall|j: int|
            1 <= j < i - 1 && (i - 1 - j) % 2 == 0 ==> #[trigger] closed_chain(
                p,
                conv_pub(cv.keys, j),
                conv_ck0(cv.shared, cv.keys, j),
                cv.delivered[j],
                cv.sent[j],
            )
        &&& forall|d: Seq<u8>, n: u32|
            #[trigger] has_skipped(p.skipped, d, n) ==> exists|j: int|
                1 <= j <= i - 1 && (i - 1 - j) % 2 == 0 && d == #[trigger] conv_pub(cv.keys, j)
    }
}

/// No two ratchet secrets of a conversation have the same public key.
pub open spec fn pubs_distinct(keys: Seq<Seq<u8>>) -> bool {
    forall|a: int, b: int|
        0 <= a < keys.len() && 0 <= b < keys.len() && a != b ==> #[trigger] conv_pub(keys, a)
            != #[trigger] conv_pub(keys, b)
}

/// Whether the receiver `r` has room to store the message keys it passes over
/// when it decrypts a message with header `h` (at most `MAX_SKIPPED_KEYS`
/// keys held at any time), and its counters do not overflow.
pub open spec fn delivery_fits(r: RatchetView, h: HeaderView) -> bool {
    &&& h.n < u32::MAX
    &&& {
        ||| has_skipped(r.skipped, h.dh_pub, h.n)
        ||| (r.dhr == Some(h.dh_pub) && (h.n < r.nr || r.skipped.len() + (h.n - r.nr) <= MAX_SKIPPED_KEYS))
        ||| (r.dhr != Some(h.dh_pub) && r.ckr is None && r.skipped.len() + h.n <= MAX_SKIPPED_KEYS)
        ||| (r.dhr != Some(h.dh_pub) && r.ckr is Some && r.nr <= h.pn && r.skipped.len() + (h.pn - r.nr)
            + h.n <= MAX_SKIPPED_KEYS)
    }
}

/// Whether `top` and `other` are the two sessions of conversation `cv`:
/// `top` is the side that took the last ratchet step (its secret is the last
/// one) and `other` the side before it, which has not yet received any message
/// of `top`'s current chain.
pub open spec fn conv_inv(cv: Conversation, top: RatchetView, other: RatchetView) -> bool {
    &&& cv.keys.len() >= 2
    &&& cv.sent.len() == cv.keys.len()
    &&& cv.delivered.len() == cv.keys.len()
    &&& forall|i: int| 0 <= i < cv.keys.len() ==> (#[trigger] cv.keys[i]).len() == 32
    &&& pubs_distinct(cv.keys)
    &&& forall|i: int|
        1 <= i < cv.keys.len() ==> dh_agrees(cv.keys[i - 1], #[trigger] conv_pub(cv.keys, i))
    &&& cv.sent[0] == 0
    &&& cv.delivered[cv.keys.len() - 1] == Set::<u32>::empty()
    &&& party_inv(cv, top, cv.keys.len() - 1)
    &&& party_inv(cv, other, cv.keys.len() - 2)
}

/// Whether `m` is message `m.header.n` of chain `i` of conversation `cv`,
/// encrypting `pt` with associated data `ad`.
pub open spec fn conv_message(cv: Conversation, m: MessageView, pt: Seq<u8>, ad: Seq<u8>, i: int) -> bool {
    &&& 1 <= i < cv.keys.len()
    &&& m.header.n < cv.sent[i]
    &&& m.header.pn == prev_len(cv.sent, i)
    &&& chain_message(conv_pub(cv.keys, i), conv_ck0(cv.shared, cv.keys, i), m, pt, ad)
}

/// Root keys, chain starts and public keys depend only on the secrets so far.
proof fn lemma_conv_prefix(shared: Seq<u8>, keys: Seq<Seq<u8>>, keys2: Seq<Seq<u8>>, i: int)
    requires
        0 <= i < keys.len() <= keys2.len(),
        forall|j: int| 0 <= j < keys.len() ==> keys2[j] == keys[j],
    ensures
        conv_rk(shared, keys2, i) == conv_rk(shared, keys, i),
        conv_pub(keys2, i) == conv_pub(keys, i),
        i >= 1 ==> conv_ck0(shared, keys2, i) == conv_ck0(shared, keys, i),
    decreases i,
{
    if i > 0 {
        lemma_conv_prefix(shared, keys, keys2, i - 1);
        assert(keys2[i - 1] == keys[i - 1]);
        assert(conv_dh(keys2, i) == conv_dh(keys, i));
    }
}

/// A session's standing in a conversation survives changes of what it does
/// not depend on: later secrets, the count of its peer's current chain
/// growing, and deliveries on its own chains.
proof fn lemma_party_frame(cv: Conversation, cv2: Conversation, p: RatchetView, i: int)
    requires
        party_inv(cv, p, i),
        cv.sent.len() == cv.keys.len(),
        cv.delivered.len() == cv.keys.len(),
        cv2.shared == cv.shared,
        cv.keys.len() <= cv2.keys.len(),
        cv2.sent.len() == cv2.keys.len(),
        cv2.delivered.len() == cv2.keys.len(),
        forall|j: int| 0 <= j < cv.keys.len() ==> cv2.keys[j] == cv.keys[j],
        forall|j: int| 0 <= j <= i && j != i - 1 ==> cv2.sent[j] == cv.sent[j],
        i >= 1 ==> cv2.sent[i - 1] >= cv.sent[i - 1],
        forall|j: int| 0 <= j <= i && (i - j) % 2 == 1 ==> cv2.delivered[j] == cv.delivered[j],
    ensures
        party_inv(cv2, p, i),
{
    if i > 0 {
        lemma_conv_prefix(cv.shared, cv.keys, cv2.keys, i);
        lemma_conv_prefix(cv.shared, cv.keys, cv2.keys, i - 1);
        assert(prev_len(cv2.sent, i) == prev_len(cv.sent, i));
        assert forall|j: int|
            1 <= j < i - 1 && (i - 1 - j) % 2 == 0 implies #[trigger] closed_chain(
            p,
            conv_pub(cv2.keys, j),
            conv_ck0(cv2.shared, cv2.keys, j),
            cv2.delivered[j],
            cv2.sent[j],
        ) by {
            lemma_conv_prefix(cv.shared, cv.keys, cv2.keys, j);
            assert(closed_chain(
                p,
                conv_pub(cv.keys, j),
                conv_ck0(cv.shared, cv.keys, j),
                cv.delivered[j],
                cv.sent[j],
            ));
        }
        assert forall|d: Seq<u8>, n: u32| #[trigger] has_skipped(p.skipped, d, n) implies exists|j: int|
            1 <= j <= i - 1 && (i - 1 - j) % 2 == 0 && d == #[trigger] conv_pub(cv2.keys, j) by {
            let j = choose|j: int| 1 <= j <= i - 1 && (i - 1 - j) % 2 == 0 && d == #[trigger] conv_pub(cv.keys, j);
            lemma_conv_prefix(cv.shared, cv.keys, cv2.keys, j);
        }
    }
}

/// Law: a conversation starts with the first sender's session and the first
/// receiver's session on a shared key, the receiver's initial ratchet key
/// known to the sender.
pub proof fn lemma_conversation_start(shared: Seq<u8>, anek_secret: Seq<u8>, ventie_secret: Seq<u8>)
    requires
        anek_secret.len() == 32,
        ventie_secret.len() == 32,
        x25519_base(anek_secret) != x25519_base(ventie_secret),
        dh_agrees(anek_secret, x25519_base(ventie_secret)),
    ensures
        conv_inv(
            Conversation {
                shared,
                keys: seq![anek_secret, ventie_secret],
                sent: seq![0u32, 0u32],
                delivered: seq![Set::<u32>::empty(), Set::<u32>::empty()],
            },
            ventie_initial(shared, x25519_base(anek_secret), ventie_secret),
            anek_initial(shared, anek_secret),
        ),
{
    let cv = Conversation {
        shared,
        keys: seq![anek_secret, ventie_secret],
        sent: seq![0u32, 0u32],
        delivered: seq![Set::<u32>::empty(), Set::<u32>::empty()],
    };
    let top = ventie_initial(shared, x25519_base(anek_secret), ventie_secret);
    assert(conv_rk(shared, cv.keys, 0) == shared);
    assert(conv_rk(shared, cv.keys, 1) == top.rk);
    assert(chain_key_at(conv_ck0(shared, cv.keys, 1), 0) == conv_ck0(shared, cv.keys, 1));
    assert(skipped_distinct(top.skipped));
    assert(skipped_distinct(anek_initial(shared, anek_secret).skipped));
    assert(pubs_distinct(cv.keys));
    assert(party_inv(cv, top, 1));
}

/// Law: a session of a conversation that sends a message sends message
/// number `sent[i]` of its current chain `i`, and the conversation goes on
/// with that message counted as sent.
pub proof fn lemma_conversation_send(
    cv: Conversation,
    top: RatchetView,
    other: RatchetView,
    sender_is_top: bool,
    pt: Seq<u8>,
    ad: Seq<u8>,
    t: RatchetView,
    m: MessageView,
)
    requires
        conv_inv(cv, top, other),
        encrypt_spec(if sender_is_top { top } else { other }, pt, ad, t, Ok(m)),
        (if sender_is_top { top } else { other }).ns < u32::MAX,
    ensures
        ({
            let i = if sender_is_top { cv.keys.len() - 1 } else { cv.keys.len() - 2 };
            let cv2 = Conversation { sent: cv.sent.update(i, (cv.sent[i] + 1) as u32), ..cv };
            &&& conv_message(cv2, m, pt, ad, i)
            &&& m.header.n == cv.sent[i]
            &&& if sender_is_top {
                conv_inv(cv2, t, other)
            } else {
                conv_inv(cv2, top, t)
            }
        }),
{
    let c = cv.keys.len() - 1;
    let i = if sender_is_top { c } else { c - 1 };
    let s = if sender_is_top { top } else { other };
    let cv2 = Conversation { sent: cv.sent.update(i, (cv.sent[i] + 1) as u32), ..cv };
    assert(i >= 1);
    let ck0 = conv_ck0(cv.shared, cv.keys, i);
    lemma_sent_on_chain(s, ck0, pt, ad, t, m);
    assert(prev_len(cv2.sent, i) == prev_len(cv.sent, i));
    // the sender
    assert(party_inv(cv2, t, i)) by {
        if i >= 2 {
            lemma_send_keeps_receiving(
                s,
                pt,
                ad,
                t,
                Ok(m),
                conv_pub(cv.keys, i - 1),
                conv_ck0(cv.shared, cv.keys, i - 1),
                cv.delivered[i - 1],
            );
        }
        assert forall|j: int|
            1 <= j < i - 1 && (i - 1 - j) % 2 == 0 implies #[trigger] closed_chain(
            t,
            conv_pub(cv2.keys, j),
            conv_ck0(cv2.shared, cv2.keys, j),
            cv2.delivered[j],
            cv2.sent[j],
        ) by {
            assert(closed_chain(
                s,
                conv_pub(cv.keys, j),
                conv_ck0(cv.shared, cv.keys, j),
                cv.delivered[j],
                cv.sent[j],
            ));
        }
        assert forall|d: Seq<u8>, n: u32| #[trigger] has_skipped(t.skipped, d, n) implies exists|j: int|
            1 <= j <= i - 1 && (i - 1 - j) % 2 == 0 && d == #[trigger] conv_pub(cv2.keys, j) by {
            assert(has_skipped(s.skipped, d, n));
            let j = choose|j: int| 1 <= j <= i - 1 && (i - 1 - j) % 2 == 0 && d == #[trigger] conv_pub(cv.keys, j);
            assert(conv_pub(cv2.keys, j) == conv_pub(cv.keys, j));
        }
    }
    // the peer
    let q = if sender_is_top { other } else { top };
    let qi = if sender_is_top { c - 1 } else { c };
    lemma_party_frame(cv, cv2, q, qi);
    assert(cv2.delivered[cv2.keys.len() - 1] == Set::<u32>::empty());
}

/// A session of a conversation delivers an undelivered message of the chain
/// it currently receives on.
proof fn lemma_party_deliver_current(
    cv: Conversation,
    p: RatchetView,
    ri: int,
    m: MessageView,
    pt: Seq<u8>,
    ad: Seq<u8>,
    fresh: Seq<u8>,
)
    requires
        party_inv(cv, p, ri),
        cv.sent.len() == cv.keys.len(),
        cv.delivered.len() == cv.keys.len(),
        pubs_distinct(cv.keys),
        ri >= 2,
        conv_message(cv, m, pt, ad, ri - 1),
        !cv.delivered[ri - 1].contains(m.header.n),
        delivery_fits(p, m.header),
    ensures
        ({
            let (t, res) = decrypt_spec(p, m.header, m.ciphertext, ad, fresh);
            let cv2 = Conversation {
                delivered: cv.delivered.update(ri - 1, cv.delivered[ri - 1].insert(m.header.n)),
                ..cv
            };
            &&& res == Ok::<Seq<u8>, RatchetError>(pt)
            &&& party_inv(cv2, t, ri)
        }),
{
    let k = conv_pub(cv.keys, ri - 1);
    let ck0 = conv_ck0(cv.shared, cv.keys, ri - 1);
    let n = m.header.n;
    let cv2 = Conversation { delivered: cv.delivered.update(ri - 1, cv.delivered[ri - 1].insert(n)), ..cv };
    lemma_chain_delivery(p, k, ck0, cv.delivered[ri - 1], m, pt, ad, fresh);
    let (t, res) = decrypt_spec(p, m.header, m.ciphertext, ad, fresh);
    assert(t.skipped.len() <= MAX_SKIPPED_KEYS);
    assert(prev_len(cv2.sent, ri) == prev_len(cv.sent, ri));
    assert forall|j: int|
        1 <= j < ri - 1 && (ri - 1 - j) % 2 == 0 implies #[trigger] closed_chain(
        t,
        conv_pub(cv2.keys, j),
        conv_ck0(cv2.shared, cv2.keys, j),
        cv2.delivered[j],
        cv2.sent[j],
    ) by {
        assert(closed_chain(p, conv_pub(cv.keys, j), conv_ck0(cv.shared, cv.keys, j), cv.delivered[j], cv.sent[j]));
        assert(conv_pub(cv.keys, j) != k);
        lemma_closed_chain_kept(p, t, conv_pub(cv.keys, j), conv_ck0(cv.shared, cv.keys, j), cv.delivered[j], cv.sent[j], k, k);
    }
    assert forall|d: Seq<u8>, j: u32| #[trigger] has_skipped(t.skipped, d, j) implies exists|w: int|
        1 <= w <= ri - 1 && (ri - 1 - w) % 2 == 0 && d == #[trigger] conv_pub(cv2.keys, w) by {
        if d != k {
            assert(has_skipped(p.skipped, d, j));
            let w = choose|w: int| 1 <= w <= ri - 1 && (ri - 1 - w) % 2 == 0 && d == #[trigger] conv_pub(cv.keys, w);
            assert(conv_pub(cv2.keys, w) == d);
        } else {
            assert(conv_pub(cv2.keys, ri - 1) == d);
        }
    }
}

/// A session of a conversation delivers an undelivered message of a chain of
/// its peer that it has closed.
proof fn lemma_party_deliver_closed(
    cv: Conversation,
    p: RatchetView,
    ri: int,
    i: int,
    m: MessageView,
    pt: Seq<u8>,
    ad: Seq<u8>,
    fresh: Seq<u8>,
)
    requires
        party_inv(cv, p, ri),
        cv.sent.len() == cv.keys.len(),
        cv.delivered.len() == cv.keys.len(),
        pubs_distinct(cv.keys),
        1 <= i < ri - 1,
        (ri - 1 - i) % 2 == 0,
        conv_message(cv, m, pt, ad, i),
        !cv.delivered[i].contains(m.header.n),
    ensures
        ({
            let (t, res) = decrypt_spec(p, m.header, m.ciphertext, ad, fresh);
            let cv2 = Conversation { delivered: cv.delivered.update(i, cv.delivered[i].insert(m.header.n)), ..cv };
            &&& res == Ok::<Seq<u8>, RatchetError>(pt)
            &&& party_inv(cv2, t, ri)
        }),
{
    let k = conv_pub(cv.keys, i);
    let ck0 = conv_ck0(cv.shared, cv.keys, i);
    let n = m.header.n;
    let cv2 = Conversation { delivered: cv.delivered.update(i, cv.delivered[i].insert(n)), ..cv };
    assert(closed_chain(p, k, ck0, cv.delivered[i], cv.sent[i]));
    lemma_closed_chain_delivery(p, k, ck0, cv.delivered[i], cv.sent[i], m, pt, ad, fresh);
    let (t, res) = decrypt_spec(p, m.header, m.ciphertext, ad, fresh);
    assert(prev_len(cv2.sent, ri) == prev_len(cv.sent, ri));
    let kr = conv_pub(cv.keys, ri - 1);
    assert(kr != k);
    lemma_receiving_chain_kept(p, t, kr, conv_ck0(cv.shared, cv.keys, ri - 1), cv.delivered[ri - 1], k, k);
    assert forall|j: int|
        1 <= j < ri - 1 && (ri - 1 - j) % 2 == 0 implies #[trigger] closed_chain(
        t,
        conv_pub(cv2.keys, j),
        conv_ck0(cv2.shared, cv2.keys, j),
        cv2.delivered[j],
        cv2.sent[j],
    ) by {
        if j != i {
            assert(closed_chain(p, conv_pub(cv.keys, j), conv_ck0(cv.shared, cv.keys, j), cv.delivered[j], cv.sent[j]));
            assert(conv_pub(cv.keys, j) != k);
            lemma_closed_chain_kept(p, t, conv_pub(cv.keys, j), conv_ck0(cv.shared, cv.keys, j), cv.delivered[j], cv.sent[j], k, k);
        }
    }
    assert forall|d: Seq<u8>, j: u32| #[trigger] has_skipped(t.skipped, d, j) implies exists|w: int|
        1 <= w <= ri - 1 && (ri - 1 - w) % 2 == 0 && d == #[trigger] conv_pub(cv2.keys, w) by {
        if d != k {
            assert(has_skipped(p.skipped, d, j));
            let w = choose|w: int| 1 <= w <= ri - 1 && (ri - 1 - w) % 2 == 0 && d == #[trigger] conv_pub(cv.keys, w);
            assert(conv_pub(cv2.keys, w) == d);
        } else {
            assert(conv_pub(cv2.keys, i) == d);
        }
    }
}

/// The conversation after the first message of its newest chain `c` was
/// delivered (message `n`), and the receiver took a ratchet step with `fresh`.
pub open spec fn conv_after_step(cv: Conversation, n: u32, fresh: Seq<u8>) -> Conversation {
    Conversation {
        shared: cv.shared,
        keys: cv.keys.push(fresh),
        sent: cv.sent.push(0u32),
        delivered: cv.delivered.update(cv.keys.len() - 1, set![n]).push(Set::<u32>::empty()),
    }
}

/// A session of a conversation delivers the first message to arrive of its
/// peer's newest chain, taking a ratchet step.
proof fn lemma_party_deliver_new(
    cv: Conversation,
    p: RatchetView,
    ri: int,
    m: MessageView,
    pt: Seq<u8>,
    ad: Seq<u8>,
    fresh: Seq<u8>,
)
    requires
        party_inv(cv, p, ri),
        cv.sent.len() == cv.keys.len(),
        cv.delivered.len() == cv.keys.len(),
        pubs_distinct(cv.keys),
        cv.sent[0] == 0,
        ri + 2 == cv.keys.len(),
        cv.keys[ri + 1].len() == 32,
        dh_agrees(cv.keys[ri], conv_pub(cv.keys, ri + 1)),
        conv_message(cv, m, pt, ad, ri + 1),
        delivery_fits(p, m.header),
    ensures
        ({
            let (t, res) = decrypt_spec(p, m.header, m.ciphertext, ad, fresh);
            &&& res == Ok::<Seq<u8>, RatchetError>(pt)
            &&& party_inv(conv_after_step(cv, m.header.n, fresh), t, ri + 2)
        }),
{
    let cv3 = conv_after_step(cv, m.header.n, fresh);
    let n = m.header.n;
    let k = conv_pub(cv.keys, ri + 1);
    let ck0 = conv_ck0(cv.shared, cv.keys, ri + 1);
    assert(x25519(p.dhs, k) == conv_dh(cv.keys, ri + 1));
    assert(conv_rk(cv.shared, cv.keys, ri) == p.rk);
    assert(root_chain(p.rk, x25519(p.dhs, k)) == ck0);
    assert forall|j: u32| !#[trigger] has_skipped(p.skipped, k, j) by {
        if has_skipped(p.skipped, k, j) {
            let w = choose|w: int| 1 <= w <= ri - 1 && (ri - 1 - w) % 2 == 0 && k == #[trigger] conv_pub(cv.keys, w);
            assert(conv_pub(cv.keys, w) != conv_pub(cv.keys, ri + 1));
        }
    }
    // keys, root keys and chain starts of the longer conversation
    assert forall|j: int| 0 <= j < cv.keys.len() implies cv3.keys[j] == cv.keys[j] by {}
    lemma_conv_prefix(cv.shared, cv.keys, cv3.keys, ri + 1);
    lemma_conv_prefix(cv.shared, cv.keys, cv3.keys, ri);
    let rk_mid = root_next(p.rk, x25519(p.dhs, k));
    assert(conv_rk(cv.shared, cv3.keys, ri + 1) == rk_mid);
    assert(conv_dh(cv3.keys, ri + 2) == x25519(fresh, k));
    assert(prev_len(cv3.sent, ri + 2) == cv.sent[ri]);
    let (t, res) = decrypt_spec(p, m.header, m.ciphertext, ad, fresh);
    if ri >= 2 {
        let ko = conv_pub(cv.keys, ri - 1);
        let cko = conv_ck0(cv.shared, cv.keys, ri - 1);
        assert(ko != k);
        assert(!has_skipped(p.skipped, m.header.dh_pub, n));
        lemma_new_chain_delivery(p, ko, cko, cv.delivered[ri - 1], k, m, pt, ad, fresh);
        assert forall|j: int|
            1 <= j < ri + 1 && (ri + 1 - j) % 2 == 0 implies #[trigger] closed_chain(
            t,
            conv_pub(cv3.keys, j),
            conv_ck0(cv3.shared, cv3.keys, j),
            cv3.delivered[j],
            cv3.sent[j],
        ) by {
            lemma_conv_prefix(cv.shared, cv.keys, cv3.keys, j);
            if j < ri - 1 {
                assert(closed_chain(p, conv_pub(cv.keys, j), conv_ck0(cv.shared, cv.keys, j), cv.delivered[j], cv.sent[j]));
                assert(conv_pub(cv.keys, j) != ko);
                assert(conv_pub(cv.keys, j) != k);
                lemma_closed_chain_kept(p, t, conv_pub(cv.keys, j), conv_ck0(cv.shared, cv.keys, j), cv.delivered[j], cv.sent[j], ko, k);
            }
        }
        assert forall|d: Seq<u8>, j: u32| #[trigger] has_skipped(t.skipped, d, j) implies exists|w: int|
            1 <= w <= ri + 1 && (ri + 1 - w) % 2 == 0 && d == #[trigger] conv_pub(cv3.keys, w) by {
            if d == k {
                assert(conv_pub(cv3.keys, ri + 1) == d);
            } else if d == ko {
                assert(conv_pub(cv3.keys, ri - 1) == d);
            } else {
                assert(has_skipped(p.skipped, d, j));
                let w = choose|w: int| 1 <= w <= ri - 1 && (ri - 1 - w) % 2 == 0 && d == #[trigger] conv_pub(cv.keys, w);
                lemma_conv_prefix(cv.shared, cv.keys, cv3.keys, w);
                assert(conv_pub(cv3.keys, w) == d);
            }
        }
    } else {
        lemma_first_chain_delivery(p, k, m, pt, ad, fresh);
        assert forall|d: Seq<u8>, j: u32| #[trigger] has_skipped(t.skipped, d, j) implies exists|w: int|
            1 <= w <= ri + 1 && (ri + 1 - w) % 2 == 0 && d == #[trigger] conv_pub(cv3.keys, w) by {
            assert(conv_pub(cv3.keys, ri + 1) == d);
        }
    }
    assert(cv3.delivered[ri + 1] == set![n]);
    assert(cv3.sent[ri + 1] == cv.sent[ri + 1]);
    assert(cv3.sent[ri + 2] == 0);
    assert(chain_key_at(conv_ck0(cv3.shared, cv3.keys, ri + 2), 0) == conv_ck0(cv3.shared, cv3.keys, ri + 2));
}

/// The session that receives the messages of chain `i`: the peer of the
/// chain's sender.
pub open spec fn conv_receiver(cv: Conversation, top: RatchetView, other: RatchetView, i: int) -> RatchetView {
    if (cv.keys.len() - 1 - i) % 2 == 0 {
        other
    } else {
        top
    }
}

/// Law: in a conversation, every message sent is delivered to its plaintext,
/// whatever the order in which messages arrive and however the sends and
/// deliveries of the two sides interleave, as long as each message is
/// delivered once, the receiver has room for the message keys it passes over
/// (`delivery_fits`), and each fresh ratchet key drawn is new and agrees with
/// its peer's. Together with `lemma_conversation_start` and
/// `lemma_conversation_send`, it shows by induction that every delivery in any
/// run of a conversation succeeds: after the delivery the two sessions are
/// again those of the conversation with the message delivered (and, when it
/// opened the newest chain, a ratchet step taken with `fresh`).
pub proof fn lemma_conversation_delivery(
    cv: Conversation,
    top: RatchetView,
    other: RatchetView,
    i: int,
    m: MessageView,
    pt: Seq<u8>,
    ad: Seq<u8>,
    fresh: Seq<u8>,
)
    requires
        conv_inv(cv, top, other),
        conv_message(cv, m, pt, ad, i),
        !cv.delivered[i].contains(m.header.n),
        delivery_fits(conv_receiver(cv, top, other, i), m.header),
        i == cv.keys.len() - 1 ==> {
            &&& fresh.len() == 32
            &&& forall|j: int| 0 <= j < cv.keys.len() ==> x25519_base(fresh) != #[trigger] conv_pub(cv.keys, j)
            &&& dh_agrees(cv.keys[cv.keys.len() - 1], x25519_base(fresh))
        },
    ensures
        ({
            let c = cv.keys.len() - 1;
            let (t, res) = decrypt_spec(conv_receiver(cv, top, other, i), m.header, m.ciphertext, ad, fresh);
            let cv2 = Conversation { delivered: cv.delivered.update(i, cv.delivered[i].insert(m.header.n)), ..cv };
            &&& res == Ok::<Seq<u8>, RatchetError>(pt)
            &&& if i == c {
                conv_inv(conv_after_step(cv, m.header.n, fresh), t, top)
            } else if (c - i) % 2 == 0 {
                conv_inv(cv2, top, t)
            } else {
                conv_inv(cv2, t, other)
            }
        }),
{
    let c = cv.keys.len() - 1;
    let n = m.header.n;
    let cv2 = Conversation { delivered: cv.delivered.update(i, cv.delivered[i].insert(n)), ..cv };
    if i == c {
        let cv3 = conv_after_step(cv, n, fresh);
        assert(dh_agrees(cv.keys[c - 1], conv_pub(cv.keys, c)));
        lemma_party_deliver_new(cv, other, c - 1, m, pt, ad, fresh);
        assert forall|j: int| 0 <= j < cv.keys.len() implies cv3.keys[j] == cv.keys[j] by {}
        lemma_party_frame(cv, cv3, top, c);
        assert forall|j: int| 0 <= j < cv3.keys.len() implies (#[trigger] cv3.keys[j]).len() == 32 by {
            if j < cv.keys.len() {
                assert(cv.keys[j].len() == 32);
            }
        }
        assert forall|j: int| 0 <= j < cv.keys.len() implies conv_pub(cv3.keys, j) == conv_pub(cv.keys, j) by {
            lemma_conv_prefix(cv.shared, cv.keys, cv3.keys, j);
        }
        assert(conv_pub(cv3.keys, c + 1) == x25519_base(fresh));
        assert(pubs_distinct(cv3.keys)) by {
            assert forall|a: int, b: int|
                0 <= a < cv3.keys.len() && 0 <= b < cv3.keys.len() && a != b implies #[trigger] conv_pub(
                cv3.keys,
                a,
            ) != #[trigger] conv_pub(cv3.keys, b) by {
                if a == c + 1 {
                    assert(x25519_base(fresh) != conv_pub(cv.keys, b));
                } else if b == c + 1 {
                    assert(x25519_base(fresh) != conv_pub(cv.keys, a));
                } else {
                    assert(conv_pub(cv.keys, a) != conv_pub(cv.keys, b));
                }
            }
        }
        assert forall|j: int| 1 <= j < cv3.keys.len() implies dh_agrees(
            cv3.keys[j - 1],
            #[trigger] conv_pub(cv3.keys, j),
        ) by {
            if j <= c {
                assert(dh_agrees(cv.keys[j - 1], conv_pub(cv.keys, j)));
            }
        }
        assert(cv3.sent[0] == 0);
        assert(cv3.delivered[cv3.keys.len() - 1] == Set::<u32>::empty());
    } else if (c - i) % 2 == 0 {
        if i == c - 2 {
            lemma_party_deliver_current(cv, other, c - 1, m, pt, ad, fresh);
        } else {
            lemma_party_deliver_closed(cv, other, c - 1, i, m, pt, ad, fresh);
        }
        lemma_party_frame(cv, cv2, top, c);
        assert(cv2.delivered[c] == Set::<u32>::empty());
    } else {
        if i == c - 1 {
            lemma_party_deliver_current(cv, top, c, m, pt, ad, fresh);
        } else {
            lemma_party_deliver_closed(cv, top, c, i, m, pt, ad, fresh);
        }
        lemma_party_frame(cv, cv2, other, c - 1);
        assert(cv2.delivered[c] == Set::<u32>::empty());
    }
}

/// A fresh 32-byte ratchet secret from the operating system's generator.
fn random_secret() -> (secret: [u8; 32])
    ensures
        secret@.len() == 32,
{
    let bytes = os_random_bytes(32);
    copy_array::<32>(bytes.as_slice(), 0)
}

} // verus!
