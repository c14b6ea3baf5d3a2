//! What the desktop client computes around its commands: the file an identity
//! is saved to, the record of a message it sends, and the form in which stored
//! messages are shown.

use vstd::prelude::*;
use vstd::string::{StrSliceExecFns, StringExecFns, StringSliceAdditionalSpecFns};
use vstd::slice::slice_to_vec;
use crate::primitives::{hex_encode, hex_lower};
use crate::storage::{MessageDirection, StoredMessage};
use vstd::utf8::{decode_utf8, encode_utf8, encode_utf8_decode_utf8, is_char_boundary};

verus! {

/// An error as the text its `Display` writes, as commands report errors.
pub fn map_err_str<E: core::fmt::Display>(err: E) -> (text: String)
    ensures
        vstd::string::to_string_from_display_ensures::<E>(&err, text),
{
    err.to_string()
}

/// Whether `c` has the Unicode `White_Space` property.
pub open spec fn white_space(c: char) -> bool {
    let u = c as u32;
    ||| 0x09 <= u <= 0x0d
    ||| u == 0x20
    ||| u == 0x85
    ||| u == 0xa0
    ||| u == 0x1680
    ||| 0x2000 <= u <= 0x200a
    ||| u == 0x2028
    ||| u == 0x2029
    ||| u == 0x202f
    ||| u == 0x205f
    ||| u == 0x3000
}

/// `s` without its leading white space.
pub open spec fn trim_start(s: Seq<char>) -> Seq<char>
    decreases s.len(),
{
    if s.len() > 0 && white_space(s[0]) {
        trim_start(s.drop_first())
    } else {
        s
    }
}

/// `s` without its trailing white space.
pub open spec fn trim_end(s: Seq<char>) -> Seq<char>
    decreases s.len(),
{
    if s.len() > 0 && white_space(s.last()) {
        trim_end(s.drop_last())
    } else {
        s
    }
}

/// `s` without its leading and trailing white space.
pub open spec fn trimmed(s: Seq<char>) -> Seq<char> {
    trim_end(trim_start(s))
}

pub fn is_white_space(c: char) -> (b: bool)
    ensures
        b == white_space(c),
{
    let u = c as u32;
    (0x09 <= u && u <= 0x0d) || u == 0x20 || u == 0x85 || u == 0xa0 || u == 0x1680 || (0x2000 <= u
        && u <= 0x200a) || u == 0x2028 || u == 0x2029 || u == 0x202f || u == 0x205f || u == 0x3000
}

/// `s` without its leading and trailing white space.
pub fn trim(s: &str) -> (t: &str)
    ensures
        t@ == trimmed(s@),
{
    let n = s.unicode_len();
    let mut i: usize = 0;
    assert(s@.subrange(0, n as int) =~= s@);
    while i < n && is_white_space(s.get_char(i))
        invariant
            i <= n,
            n == s@.len(),
            trim_start(s@) == trim_start(s@.subrange(i as int, n as int)),
        decreases n - i,
    {
        assert(s@.subrange(i as int, n as int).drop_first() =~= s@.subrange(i + 1, n as int));
        i = i + 1;
    }
    assert(trim_start(s@) == s@.subrange(i as int, n as int));
    let mut j: usize = n;
    while j > i && is_white_space(s.get_char(j - 1))
        invariant
            i <= j <= n,
            n == s@.len(),
            trimmed(s@) == trim_end(s@.subrange(i as int, j as int)),
        decreases j - i,
    {
        assert(s@.subrange(i as int, j as int).drop_last() =~= s@.subrange(i as int, j - 1));
        j = j - 1;
    }
    s.substring_char(i, j)
}

/// The file-name ending of a saved identity.
pub open spec fn key_suffix() -> Seq<char> {
    seq!['.', 'k', 'e', 'y']
}

/// The start of the file name of an identity saved without an alias.
pub open spec fn identity_prefix() -> Seq<char> {
    seq!['i', 'd', 'e', 'n', 't', 'i', 't', 'y', '_']
}

/// The file a new identity's vault is saved to: its alias without the
/// surrounding white space, then `.key`; or, where no alias is given or it is
/// blank, `identity_`, the text of the first eight bytes of the public key's
/// hex form, and `.key`.
pub open spec fn identity_file_name_of(alias: Option<Seq<char>>, pubkey_hex: Seq<char>) -> Seq<char> {
    if alias is Some && trimmed(alias->0).len() > 0 {
        trimmed(alias->0) + key_suffix()
    } else {
        identity_prefix() + decode_utf8(encode_utf8(pubkey_hex).subrange(0, 8)) + key_suffix()
    }
}

/// The file a new identity's vault is saved to (see `identity_file_name_of`).
pub fn identity_file_name(alias: Option<&str>, pubkey_hex: &str) -> (name: String)
    requires
        is_char_boundary(pubkey_hex.spec_bytes(), 8),
    ensures
        name@ == identity_file_name_of(
            match alias {
                Some(a) => Some(a@),
                None => None,
            },
            pubkey_hex@,
        ),
{
    let (short, _) = pubkey_hex.split_at(8);
    proof {
        encode_utf8_decode_utf8(short@);
        reveal_strlit(".key");
        reveal_strlit("identity_");
        assert(".key"@ =~= key_suffix());
        assert("identity_"@ =~= identity_prefix());
    }
    let alias_name = match alias {
        Some(a) => {
            let t = trim(a);
            if t.unicode_len() > 0 {
                Some(t)
            } else {
                None
            }
        },
        None => None,
    };
    match alias_name {
        Some(t) => {
            let mut name = String::from_str(t);
            name.append(".key");
            name
        },
        None => {
            let mut name = String::from_str("identity_");
            name.append(short);
            name.append(".key");
            name
        },
    }
}

/// Whether a file name's extension, the part after its last dot where that
/// dot is not its first character, is `key`: the files listed as saved
/// identities.
pub open spec fn is_key_file_name(name: Seq<char>) -> bool {
    name.len() > 4 && name.subrange(name.len() - 4, name.len() as int) == key_suffix()
}

pub fn has_key_extension(file_name: &str) -> (b: bool)
    ensures
        b == is_key_file_name(file_name@),
{
    let n = file_name.unicode_len();
    if n <= 4 {
        return false;
    }
    let b = file_name.get_char(n - 4) == '.' && file_name.get_char(n - 3) == 'k'
        && file_name.get_char(n - 2) == 'e' && file_name.get_char(n - 1) == 'y';
    assert(b == (file_name@.subrange(n - 4, n as int) =~= key_suffix()));
    b
}

/// Law: the file a new identity is saved to is one the client lists as a
/// saved identity.
pub proof fn lemma_saved_identity_listed(alias: Option<Seq<char>>, pubkey_hex: Seq<char>)
    ensures
        is_key_file_name(identity_file_name_of(alias, pubkey_hex)),
{
    let name = identity_file_name_of(alias, pubkey_hex);
    let stem = if alias is Some && trimmed(alias->0).len() > 0 {
        trimmed(alias->0)
    } else {
        identity_prefix() + decode_utf8(encode_utf8(pubkey_hex).subrange(0, 8))
    };
    assert(name == stem + key_suffix());
    assert(stem.len() > 0);
    assert(name.subrange(name.len() - 4, name.len() as int) =~= key_suffix());
}

/// The record of a message the user sends: the UTF-8 bytes of its text, from
/// this identity, outbound, at time `now`, with sequence number 0.
pub fn outbound_message(session_id: String, sender_pubkey_hex: String, text: &str, now: i64) -> (m: StoredMessage)
    ensures
        m.session_id == session_id,
        m.sender_pubkey_hex == sender_pubkey_hex,
        m.ciphertext@ == encode_utf8(text@),
        m.timestamp == now,
        m.direction == MessageDirection::Outbound,
        m.sequence_number == 0,
{
    StoredMessage {
        session_id,
        sender_pubkey_hex,
        ciphertext: slice_to_vec(text.as_bytes()),
        timestamp: now,
        direction: MessageDirection::Outbound,
        sequence_number: 0,
    }
}

/// A stored message as the client shows it, its payload in hexadecimal.
#[derive(Clone, Debug, PartialEq, Eq)]
pub struct DecryptedMessage {
    pub session_id: String,
    pub sender_pubkey_hex: String,
    pub payload_hex: String,
    pub timestamp: i64,
    pub direction: MessageDirection,
    pub sequence_number: u64,
}

/// Whether `d` shows the stored message `m`: the same fields, with the
/// payload as lower-case hexadecimal.
pub open spec fn shows(d: DecryptedMessage, m: StoredMessage) -> bool {
    &&& d.session_id@ == m.session_id@
    &&& d.sender_pubkey_hex@ == m.sender_pubkey_hex@
    &&& d.payload_hex@ == hex_lower(m.ciphertext@)
    &&& d.timestamp == m.timestamp
    &&& d.direction == m.direction
    &&& d.sequence_number == m.sequence_number
}

impl DecryptedMessage {
    /// How the stored message `m` is shown.
    pub fn from_stored(m: &StoredMessage) -> (d: Self)
        ensures
            shows(d, *m),
    {
        DecryptedMessage {
            session_id: m.session_id.clone(),
            sender_pubkey_hex: m.sender_pubkey_hex.clone(),
            payload_hex: hex_encode(m.ciphertext.as_slice()),
            timestamp: m.timestamp,
            direction: m.direction,
            sequence_number: m.sequence_number,
        }
    }
}

/// How the messages of a session are shown, in their order.
pub fn show_messages(messages: &Vec<StoredMessage>) -> (shown: Vec<DecryptedMessage>)
    ensures
        shown.len() == messages.len(),
        forall|i: int| 0 <= i < messages.len() ==> shows(#[trigger] shown[i], messages[i]),
{
    let mut shown: Vec<DecryptedMessage> = Vec::new();
    let mut i: usize = 0;
    while i < messages.len()
        invariant
            i <= messages.len(),
            shown.len() == i,
            forall|k: int| 0 <= k < i ==> shows(#[trigger] shown[k], messages[k]),
        decreases messages.len() - i,
    {
        shown.push(DecryptedMessage::from_stored(&messages[i]));
        i = i + 1;
    }
    shown
}

/// Law: the message shown for one just sent is outbound, numbered 0, and
/// carries the hexadecimal form of the UTF-8 bytes of its text.
pub proof fn lemma_sent_message_shown(d: DecryptedMessage, m: StoredMessage, text: Seq<char>)
    requires
        m.ciphertext@ == encode_utf8(text),
        m.direction == MessageDirection::Outbound,
        m.sequence_number == 0,
        shows(d, m),
    ensures
        d.payload_hex@ == hex_lower(encode_utf8(text)),
        d.direction == MessageDirection::Outbound,
        d.sequence_number == 0,
{
}

} // verus!
