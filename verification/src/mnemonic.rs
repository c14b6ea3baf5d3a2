//! BIP-39 recovery phrases for identities.

use vstd::prelude::*;
use crate::bytes::copy_array;
use crate::identity::{CryptoError, Identity};
use crate::primitives::{
    bip39_phrase, bip39_phrase_of, bip39_seed, bip39_seed_of, os_random_bytes, spaced_lower_words, wipe_array, wipe_vec,
    word_count,
};

verus! {

pub struct MnemonicKey;

/// The passphrase used for seed derivation: the given one, or the empty one.
pub open spec fn passphrase_or_empty(p: Option<&str>) -> Seq<char> {
    match p {
        Some(s) => s@,
        None => seq![],
    }
}

/// What deriving an identity from a phrase gives: the first 32 bytes of the
/// BIP-39 seed, or `InvalidKey` when the phrase is not a valid English mnemonic.
pub open spec fn derived_identity(phrase: Seq<char>, passphrase: Seq<char>) -> Result<Seq<u8>, CryptoError> {
    match bip39_seed(phrase, passphrase) {
        Some(seed) => Ok(seed.take(32)),
        None => Err(CryptoError::InvalidKey),
    }
}

impl MnemonicKey {
    /// The English phrase of the given entropy (16 or 32 bytes).
    pub fn phrase_from_entropy(entropy: &[u8]) -> (phrase: String)
        requires
            entropy@.len() == 16 || entropy@.len() == 32,
        ensures
            phrase@ == bip39_phrase(entropy@),
            word_count(phrase@) == entropy@.len() * 3 / 4,
            spaced_lower_words(phrase@),
            forall|passphrase: Seq<char>| #[trigger] derived_identity(phrase@, passphrase) is Ok,
    {
        bip39_phrase_of(entropy)
    }

    /// A 12-word phrase of 16 random bytes.
    pub fn generate_phrase_12() -> (phrase: String)
        ensures
            exists|entropy: Seq<u8>| entropy.len() == 16 && phrase@ == bip39_phrase(entropy),
            word_count(phrase@) == 12,
            spaced_lower_words(phrase@),
            forall|passphrase: Seq<char>| #[trigger] derived_identity(phrase@, passphrase) is Ok,
    {
        let mut entropy = os_random_bytes(16);
        let phrase = Self::phrase_from_entropy(entropy.as_slice());
        wipe_vec(&mut entropy);
        phrase
    }

    /// A 24-word phrase of 32 random bytes.
    pub fn generate_phrase_24() -> (phrase: String)
        ensures
            exists|entropy: Seq<u8>| entropy.len() == 32 && phrase@ == bip39_phrase(entropy),
            word_count(phrase@) == 24,
            spaced_lower_words(phrase@),
            forall|passphrase: Seq<char>| #[trigger] derived_identity(phrase@, passphrase) is Ok,
    {
        let mut entropy = os_random_bytes(32);
        let phrase = Self::phrase_from_entropy(entropy.as_slice());
        wipe_vec(&mut entropy);
        phrase
    }

    /// The identity whose seed is the first 32 bytes of the phrase's BIP-39
    /// seed under `passphrase` (empty when absent).
    pub fn derive_identity(phrase: &str, passphrase: Option<&str>) -> (r: Result<Identity, CryptoError>)
        ensures
            match derived_identity(phrase@, passphrase_or_empty(passphrase)) {
                Ok(s) => r matches Ok(id) && id@ == s,
                Err(e) => r matches Err(e2) && e2 == e,
            },
    {
        let pass = match passphrase {
            Some(p) => p,
            None => "",
        };
        proof {
            reveal_strlit("");
        }
        assert(pass@ == passphrase_or_empty(passphrase));
        let seed = match bip39_seed_of(phrase, pass) {
            Some(s) => s,
            None => return Err(CryptoError::InvalidKey),
        };
        let mut key_bytes = copy_array::<32>(&seed, 0);
        assert(key_bytes@ =~= seed@.take(32));
        let identity = Identity::from_bytes(&key_bytes);
        wipe_array(&mut key_bytes);
        Ok(identity)
    }
}

/// Law: the identity recovered from a phrase has as its seed exactly the
/// first 32 bytes of the phrase's BIP-39 seed under the passphrase, byte for
/// byte; a phrase without a BIP-39 seed recovers nothing (`InvalidKey`).
pub proof fn lemma_identity_is_seed_prefix(phrase: Seq<char>, passphrase: Seq<char>)
    ensures
        match bip39_seed(phrase, passphrase) {
            None => derived_identity(phrase, passphrase) == Err::<Seq<u8>, CryptoError>(
                CryptoError::InvalidKey,
            ),
            Some(seed) => seed.len() >= 32 ==> {
                &&& derived_identity(phrase, passphrase) matches Ok(id)
                &&& id.len() == 32
                &&& forall|i: int| 0 <= i < 32 ==> #[trigger] id[i] == seed[i]
            },
        },
{
}

/// Law: deriving without a passphrase is deriving with the empty passphrase.
pub proof fn lemma_no_passphrase_is_empty(phrase: Seq<char>)
    ensures
        derived_identity(phrase, passphrase_or_empty(None)) == derived_identity(
            phrase,
            passphrase_or_empty(Some("")),
        ),
{
    reveal_strlit("");
    assert(passphrase_or_empty(Some("")) =~= passphrase_or_empty(None));
}

} // verus!
