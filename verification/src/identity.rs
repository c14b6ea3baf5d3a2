//! Long-term Ed25519 identities and their password-encrypted vaults.

use vstd::prelude::*;
use crate::bytes::copy_array;
use crate::primitives::{
    argon2id_hash, argon2id_key, chacha20poly1305_open, chacha20poly1305_seal, chacha_open,
    chacha_seal, ed25519_public, ed25519_signing_key, ed25519_signing_seed, ed25519_verifying_key, hex_encode, hex_lower,
    os_random_bytes, wipe_array,
};

verus! {

/// Argon2id memory cost (KiB) of the vault key.
pub const VAULT_M_COST: u32 = 65536;

/// Argon2id iteration count of the vault key.
pub const VAULT_T_COST: u32 = 3;

/// Argon2id parallelism of the vault key.
pub const VAULT_P_COST: u32 = 1;

#[derive(Debug, Clone, Copy, PartialEq, Eq, Structural)]
pub enum CryptoError {
    KeyGenError,
    DerivationError,
    EncryptionError,
    DecryptionError,
    InvalidKey,
}

impl CryptoError {
    /// Human-readable description of the error.
    pub fn message(&self) -> (text: &'static str)
        ensures
            text@ == match self {
                CryptoError::KeyGenError => "Failed to generate keypair"@,
                CryptoError::DerivationError => "Key derivation failed"@,
                CryptoError::EncryptionError => "Encryption failed"@,
                CryptoError::DecryptionError => "Decryption failed or invalid password"@,
                CryptoError::InvalidKey => "Invalid key length or format"@,
            },
    {
        match self {
            CryptoError::KeyGenError => "Failed to generate keypair",
            CryptoError::DerivationError => "Key derivation failed",
            CryptoError::EncryptionError => "Encryption failed",
            CryptoError::DecryptionError => "Decryption failed or invalid password",
            CryptoError::InvalidKey => "Invalid key length or format",
        }
    }
}

/// An identity: the 32-byte seed of an Ed25519 signing key.
pub struct Identity {
    secret: [u8; 32],
}

/// An identity seed encrypted under a password-derived key.
#[derive(Clone, Debug, PartialEq, Eq)]
pub struct EncryptedVault {
    pub salt: [u8; 16],
    pub nonce: [u8; 12],
    pub ciphertext: Vec<u8>,
}

impl View for Identity {
    type V = Seq<u8>;

    closed spec fn view(&self) -> Seq<u8> {
        self.secret@
    }
}

/// Abstract value of a vault.
pub struct VaultView {
    pub salt: Seq<u8>,
    pub nonce: Seq<u8>,
    pub ciphertext: Seq<u8>,
}

impl View for EncryptedVault {
    type V = VaultView;

    open spec fn view(&self) -> VaultView {
        VaultView { salt: self.salt@, nonce: self.nonce@, ciphertext: self.ciphertext@ }
    }
}

/// Key that encrypts a vault: Argon2id of the password and the vault's salt.
pub open spec fn vault_key(password: Seq<u8>, salt: Seq<u8>) -> Seq<u8> {
    argon2id_key(password, salt, VAULT_M_COST, VAULT_T_COST, VAULT_P_COST)
}

/// `v` is the encryption of `secret` under `password`: ChaCha20-Poly1305 of
/// the seed with the vault key and the vault's nonce (no associated data),
/// which opens again to the seed.
pub open spec fn vault_seals(v: VaultView, secret: Seq<u8>, password: Seq<u8>) -> bool {
    &&& password.len() <= u32::MAX
    &&& v.ciphertext == chacha_seal(vault_key(password, v.salt), v.nonce, seq![], secret)
    &&& chacha_open(vault_key(password, v.salt), v.nonce, seq![], v.ciphertext) == Some(secret)
}

/// What opening vault `v` with `password` gives: the seed, or the error.
pub open spec fn vault_open(v: VaultView, password: Seq<u8>) -> Result<Seq<u8>, CryptoError> {
    if password.len() > u32::MAX {
        Err(CryptoError::DerivationError)
    } else {
        match chacha_open(vault_key(password, v.salt), v.nonce, seq![], v.ciphertext) {
            None => Err(CryptoError::DecryptionError),
            Some(p) => if p.len() != 32 {
                Err(CryptoError::InvalidKey)
            } else {
                Ok(p)
            },
        }
    }
}

/// Law: a vault's key is Argon2id (64 MiB of memory, 3 passes, one lane) of
/// the whole password and the vault's salt. A vault is sealed with that key,
/// and opening it with any password decides by ChaCha20-Poly1305 under the
/// Argon2id key of that whole password: every byte of the password reaches
/// the key derivation.
pub proof fn lemma_vault_key_whole_password(v: VaultView, secret: Seq<u8>, sealed_with: Seq<u8>, password: Seq<u8>)
    ensures
        vault_key(password, v.salt) == argon2id_key(password, v.salt, 65536u32, 3u32, 1u32),
        vault_seals(v, secret, sealed_with) ==> v.ciphertext == chacha_seal(
            argon2id_key(sealed_with, v.salt, 65536u32, 3u32, 1u32),
            v.nonce,
            seq![],
            secret,
        ),
        password.len() <= u32::MAX ==> match chacha_open(
            argon2id_key(password, v.salt, 65536u32, 3u32, 1u32),
            v.nonce,
            seq![],
            v.ciphertext,
        ) {
            None => vault_open(v, password) == Err::<Seq<u8>, CryptoError>(
                CryptoError::DecryptionError,
            ),
            Some(p) => p.len() == 32 ==> vault_open(v, password) == Ok::<Seq<u8>, CryptoError>(p),
        },
{
}

impl Identity {
    /// A fresh identity with a random seed.
    pub fn generate() -> (id: Self)
        ensures
            id@.len() == 32,
    {
        let bytes = os_random_bytes(32);
        Identity { secret: copy_array::<32>(bytes.as_slice(), 0) }
    }

    pub fn from_bytes(bytes: &[u8; 32]) -> (id: Self)
        ensures
            id@ == bytes@,
    {
        Identity { secret: *bytes }
    }

    pub fn secret_bytes(&self) -> (bytes: [u8; 32])
        ensures
            bytes@ == self@,
    {
        self.secret
    }

    /// The Ed25519 signing key of this identity, made from its seed.
    pub fn signing_key(&self) -> (key: ed25519_dalek::SigningKey)
        ensures
            ed25519_signing_seed(key) == self@,
    {
        ed25519_signing_key(&self.secret)
    }

    /// The Ed25519 public key of this identity.
    pub fn verifying_key(&self) -> (public: [u8; 32])
        ensures
            public@ == ed25519_public(self@),
    {
        ed25519_verifying_key(&self.secret)
    }

    /// The public key as lower-case hexadecimal.
    pub fn public_hex(&self) -> (text: String)
        ensures
            text@ == hex_lower(ed25519_public(self@)),
    {
        let public = self.verifying_key();
        hex_encode(&public)
    }

    /// Encrypts the seed under `password` with the given salt and nonce.
    pub fn seal_with(&self, password: &[u8], salt: [u8; 16], nonce: [u8; 12]) -> (r: Result<EncryptedVault, CryptoError>)
        ensures
            password@.len() > u32::MAX ==> r == Err::<EncryptedVault, CryptoError>(
                CryptoError::DerivationError,
            ),
            password@.len() <= u32::MAX ==> (r matches Ok(v) && v.salt == salt && v.nonce == nonce
                && vault_seals(v@, self@, password@) && v.ciphertext@.len() == 48),
    {
        let mut derived_key = match argon2id_hash(password, &salt, VAULT_M_COST, VAULT_T_COST, VAULT_P_COST) {
            Some(k) => k,
            None => return Err(CryptoError::DerivationError),
        };
        let empty: [u8; 0] = [];
        let sealed = chacha20poly1305_seal(&derived_key, &nonce, &self.secret, &empty);
        wipe_array(&mut derived_key);
        match sealed {
            Some(ciphertext) => {
                assert(empty@ =~= seq![]);
                Ok(EncryptedVault { salt, nonce, ciphertext })
            },
            None => Err(CryptoError::EncryptionError),
        }
    }

    /// Encrypts the seed under `password` with a random salt and nonce.
    pub fn export_encrypted(&self, password: &[u8]) -> (r: Result<EncryptedVault, CryptoError>)
        ensures
            password@.len() > u32::MAX ==> r == Err::<EncryptedVault, CryptoError>(
                CryptoError::DerivationError,
            ),
            password@.len() <= u32::MAX ==> (r matches Ok(v) && vault_seals(v@, self@, password@)
                && v.ciphertext@.len() == 48),
    {
        let salt_bytes = os_random_bytes(16);
        let nonce_bytes = os_random_bytes(12);
        let salt = copy_array::<16>(salt_bytes.as_slice(), 0);
        let nonce = copy_array::<12>(nonce_bytes.as_slice(), 0);
        self.seal_with(password, salt, nonce)
    }

    /// Opens `vault` with `password`: fails with `DerivationError` for a
    /// password Argon2 refuses, `DecryptionError` when the ciphertext does not
    /// authenticate (a wrong password), and `InvalidKey` when the plaintext is
    /// not 32 bytes.
    pub fn import_encrypted(vault: &EncryptedVault, password: &[u8]) -> (r: Result<Self, CryptoError>)
        ensures
            match vault_open(vault@, password@) {
                Ok(s) => r matches Ok(id) && id@ == s,
                Err(e) => r matches Err(e2) && e2 == e,
            },
    {
        let mut derived_key = match argon2id_hash(password, &vault.salt, VAULT_M_COST, VAULT_T_COST, VAULT_P_COST) {
            Some(k) => k,
            None => return Err(CryptoError::DerivationError),
        };
        let empty: [u8; 0] = [];
        assert(empty@ =~= seq![]);
        let opened = chacha20poly1305_open(&derived_key, &vault.nonce, vault.ciphertext.as_slice(), &empty);
        wipe_array(&mut derived_key);
        let plaintext = match opened {
            Some(p) => p,
            None => return Err(CryptoError::DecryptionError),
        };
        if plaintext.len() != 32 {
            return Err(CryptoError::InvalidKey);
        }
        let mut key_bytes = copy_array::<32>(plaintext.as_slice(), 0);
        assert(key_bytes@ =~= plaintext@);
        let identity = Self::from_bytes(&key_bytes);
        wipe_array(&mut key_bytes);
        Ok(identity)
    }
}

/// Law: a vault made from an identity's seed under a password opens with that
/// password to the same seed.
pub proof fn lemma_vault_round_trip(v: VaultView, secret: Seq<u8>, password: Seq<u8>)
    requires
        secret.len() == 32,
        vault_seals(v, secret, password),
    ensures
        vault_open(v, password) == Ok::<Seq<u8>, CryptoError>(secret),
{
}

} // verus!
