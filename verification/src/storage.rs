//! Records kept on disk and the layout of their keys.
//!
//! Messages are stored under `"{session id}/{sequence number as 16 hex
//! digits}"`, so the messages of a session form one key range and come back
//! in sequence order.

use vstd::prelude::*;
use crate::bytes::copy_array;
use crate::primitives::{hex_digit, hex_encode, hex_lower, os_random_bytes};
use crate::text::digit_str;

verus! {

#[derive(Clone, Debug, PartialEq, Eq)]
pub struct Contact {
    pub pubkey_hex: String,
    pub alias: String,
    pub added_at: i64,
}

#[derive(Clone, Debug, PartialEq, Eq)]
pub struct Session {
    pub id: String,
    pub peer_pubkey_hex: String,
    pub created_at: i64,
    pub last_activity: i64,
}

#[derive(Clone, Copy, Debug, PartialEq, Eq, Structural)]
pub enum MessageDirection {
    Inbound,
    Outbound,
}

#[derive(Clone, Debug, PartialEq, Eq)]
pub struct StoredMessage {
    pub session_id: String,
    pub sender_pubkey_hex: String,
    pub ciphertext: Vec<u8>,
    pub timestamp: i64,
    pub direction: MessageDirection,
    pub sequence_number: u64,
}

/// Hexadecimal digit `i` (0 is the most significant) of the 16-digit form of `x`.
pub open spec fn nibble(x: u64, i: int) -> u8 {
    ((x >> ((60 - 4 * i) as u64)) & 0xf) as u8
}

/// `x` as 16 lower-case hexadecimal digits, most significant first.
pub open spec fn hex16(x: u64) -> Seq<char> {
    Seq::new(16, |i: int| hex_digit(nibble(x, i)))
}

/// The storage key of message `n` of session `session`.
pub open spec fn message_key_of(session: Seq<char>, n: u64) -> Seq<char> {
    session + seq!['/'] + hex16(n)
}

/// Strict lexicographic order on texts, by code point (the byte order of their
/// UTF-8 encodings).
pub open spec fn text_lt(a: Seq<char>, b: Seq<char>) -> bool
    decreases a.len(),
{
    if a.len() == 0 {
        b.len() > 0
    } else if b.len() == 0 {
        false
    } else if a[0] != b[0] {
        a[0] < b[0]
    } else {
        text_lt(a.drop_first(), b.drop_first())
    }
}

/// Whether `k` lies in the half-open key range from `lo` to `hi`.
pub open spec fn in_key_range(k: Seq<char>, lo: Seq<char>, hi: Seq<char>) -> bool {
    !text_lt(k, lo) && text_lt(k, hi)
}

/// Whether a text holds no `/`.
pub open spec fn no_slash(s: Seq<char>) -> bool {
    forall|i: int| 0 <= i < s.len() ==> s[i] != '/'
}

/// The storage key of message `sequence_number` of session `session_id`.
pub fn message_key(session_id: &str, sequence_number: u64) -> (key: String)
    ensures
        key@ == message_key_of(session_id@, sequence_number),
{
    let mut key = session_id.to_owned();
    proof {
        reveal_strlit("/");
    }
    key.append("/");
    let mut i: u64 = 0;
    while i < 16
        invariant
            0 <= i <= 16,
            key@ == session_id@ + seq!['/'] + hex16(sequence_number).take(i as int),
        decreases 16 - i,
    {
        let shift: u64 = 60 - 4 * i;
        let d = (sequence_number >> shift) & 0xf;
        assert(d < 16) by (bit_vector)
            requires
                d == (sequence_number >> shift) & 0xf,
        ;
        let digit = digit_str(d);
        key.append(digit);
        assert(d as u8 == nibble(sequence_number, i as int));
        assert(hex16(sequence_number).take(i + 1) =~= hex16(sequence_number).take(i as int) + seq![
            hex_digit(d as u8),
        ]);
        i = i + 1;
    }
    assert(hex16(sequence_number).take(16) =~= hex16(sequence_number));
    key
}

/// The key range holding the messages of session `session_id`: from
/// `"{session_id}/"` up to (not including) `"{session_id}0"`, `'0'` being the
/// character after `'/'`.
pub fn message_key_range(session_id: &str) -> (range: (String, String))
    ensures
        range.0@ == session_id@ + seq!['/'],
        range.1@ == session_id@ + seq!['0'],
{
    proof {
        reveal_strlit("/");
        reveal_strlit("0");
    }
    let mut lo = session_id.to_owned();
    lo.append("/");
    let mut hi = session_id.to_owned();
    hi.append("0");
    (lo, hi)
}

/// A fresh session id: 16 random bytes in lower-case hexadecimal.
pub fn new_session_id() -> (id: String)
    ensures
        exists|bytes: Seq<u8>| bytes.len() == 16 && id@ == hex_lower(bytes),
{
    let bytes = os_random_bytes(16);
    let id_bytes = copy_array::<16>(bytes.as_slice(), 0);
    hex_encode(&id_bytes)
}

impl Session {
    /// A new session with `peer_pubkey_hex`, created and last active at `now`.
    pub fn new(id: String, peer_pubkey_hex: &str, now: i64) -> (s: Self)
        ensures
            s.id@ == id@,
            s.peer_pubkey_hex@ == peer_pubkey_hex@,
            s.created_at == now,
            s.last_activity == now,
    {
        Session { id, peer_pubkey_hex: peer_pubkey_hex.to_owned(), created_at: now, last_activity: now }
    }

    /// Records activity at `timestamp`.
    pub fn touch(&mut self, timestamp: i64)
        ensures
            final(self).id == old(self).id,
            final(self).peer_pubkey_hex == old(self).peer_pubkey_hex,
            final(self).created_at == old(self).created_at,
            final(self).last_activity == timestamp,
    {
        self.last_activity = timestamp;
    }
}

impl StoredMessage {
    /// The key this message is stored under.
    pub fn storage_key(&self) -> (key: String)
        ensures
            key@ == message_key_of(self.session_id@, self.sequence_number),
    {
        message_key(self.session_id.as_str(), self.sequence_number)
    }
}

/// Keys of the form `t/h` fall in the key range of session `s` exactly when
/// `t` is `s`, for ids without `/`.
proof fn lemma_key_in_range(s: Seq<char>, t: Seq<char>, h: Seq<char>)
    requires
        no_slash(s),
        no_slash(t),
    ensures
        in_key_range(t + seq!['/'] + h, s + seq!['/'], s + seq!['0']) <==> t == s,
    decreases s.len(),
{
    let k = t + seq!['/'] + h;
    let lo = s + seq!['/'];
    let hi = s + seq!['0'];
    assert(k[0] == if t.len() > 0 { t[0] } else { '/' });
    assert(lo[0] == if s.len() > 0 { s[0] } else { '/' });
    assert(hi[0] == if s.len() > 0 { s[0] } else { '0' });
    if s.len() == 0 && t.len() == 0 {
        assert(k.drop_first() =~= h);
        assert(lo.drop_first() =~= Seq::<char>::empty());
        assert(!text_lt(k.drop_first(), lo.drop_first()));
        assert(t =~= s);
        assert(in_key_range(k, lo, hi) <==> t == s);
    } else if s.len() == 0 {
        assert(t[0] != '/');
        if t[0] == '0' {
            assert(hi.drop_first() =~= Seq::<char>::empty());
            assert(!text_lt(k.drop_first(), hi.drop_first()));
            assert(!text_lt(k, hi));
        } else if '/' > t[0] {
            assert(text_lt(k, lo));
        } else {
            assert(t[0] > '0');
            assert(!text_lt(k, hi));
        }
        assert(t != s);
        assert(in_key_range(k, lo, hi) <==> t == s);
    } else if t.len() == 0 {
        assert(s[0] != '/');
        assert(t != s);
        assert(in_key_range(k, lo, hi) <==> t == s);
    } else if s[0] != t[0] {
        assert(t != s);
        assert(in_key_range(k, lo, hi) <==> t == s);
    } else {
        assert(k.drop_first() =~= t.drop_first() + seq!['/'] + h);
        assert(lo.drop_first() =~= s.drop_first() + seq!['/']);
        assert(hi.drop_first() =~= s.drop_first() + seq!['0']);
        lemma_key_in_range(s.drop_first(), t.drop_first(), h);
        if t.drop_first() == s.drop_first() {
            assert(t =~= seq![t[0]] + t.drop_first());
            assert(s =~= seq![s[0]] + s.drop_first());
        }
    }
}

/// Law: for session ids without `/`, a message key lies in a session's key
/// range exactly when the message belongs to that session, so sessions never
/// see each other's messages.
pub proof fn lemma_messages_isolated_by_session(session: Seq<char>, other: Seq<char>, n: u64)
    requires
        no_slash(session),
        no_slash(other),
    ensures
        in_key_range(message_key_of(other, n), session + seq!['/'], session + seq!['0'])
            <==> other == session,
{
    lemma_key_in_range(session, other, hex16(n));
}

/// The number formed by the first `i` hexadecimal digits of `x`.
pub open spec fn hex_prefix_value(x: u64, i: int) -> u64 {
    if i <= 0 {
        0
    } else {
        x >> ((64 - 4 * i) as u64)
    }
}

proof fn lemma_hex_prefix_step(x: u64, i: int)
    requires
        0 <= i < 16,
    ensures
        hex_prefix_value(x, i + 1) == hex_prefix_value(x, i) * 16 + nibble(x, i),
        nibble(x, i) < 16,
{
    let s = (60 - 4 * i) as u64;
    assert(((x >> s) & 0xf) < 16) by (bit_vector);
    if i == 0 {
        assert(s == 60);
        assert((x >> 60u64) == (x >> 60u64) & 0xf) by (bit_vector);
    } else {
        assert(s <= 56);
        assert((x >> s) == (x >> (s + 4)) * 16 + ((x >> s) & 0xf)) by (bit_vector)
            requires
                s <= 56,
        ;
        assert((64 - 4 * (i + 1)) as u64 == s);
        assert((64 - 4 * i) as u64 == s + 4);
    }
}

proof fn lemma_shift_monotone(a: u64, b: u64, s: u64)
    requires
        a <= b,
        s < 64,
    ensures
        (a >> s) <= (b >> s),
{
    assert((a >> s) <= (b >> s)) by (bit_vector)
        requires
            a <= b,
    ;
}

proof fn lemma_hex_digit_monotone(a: u8, b: u8)
    requires
        a < b < 16,
    ensures
        hex_digit(a) < hex_digit(b),
{
}

/// The 16-digit hexadecimal forms compare as the numbers do, from digit `i` on,
/// when the first `i` digits agree.
proof fn lemma_hex16_lt_from(n1: u64, n2: u64, i: int)
    requires
        n1 < n2,
        0 <= i < 16,
        hex_prefix_value(n1, i) == hex_prefix_value(n2, i),
    ensures
        text_lt(hex16(n1).skip(i), hex16(n2).skip(i)),
    decreases 16 - i,
{
    lemma_hex_prefix_step(n1, i);
    lemma_hex_prefix_step(n2, i);
    let a = hex16(n1).skip(i);
    let b = hex16(n2).skip(i);
    assert(a[0] == hex_digit(nibble(n1, i)));
    assert(b[0] == hex_digit(nibble(n2, i)));
    if nibble(n1, i) == nibble(n2, i) {
        if i + 1 == 16 {
            assert(hex_prefix_value(n1, 16) == n1 >> 0u64);
            assert((n1 >> 0u64) == n1) by (bit_vector);
            assert((n2 >> 0u64) == n2) by (bit_vector);
        } else {
            lemma_hex16_lt_from(n1, n2, i + 1);
            assert(a.drop_first() =~= hex16(n1).skip(i + 1));
            assert(b.drop_first() =~= hex16(n2).skip(i + 1));
        }
    } else {
        lemma_shift_monotone(n1, n2, (64 - 4 * (i + 1)) as u64);
        if i + 1 == 16 {
            assert((n1 >> 0u64) == n1) by (bit_vector);
            assert((n2 >> 0u64) == n2) by (bit_vector);
        }
        assert(nibble(n1, i) < nibble(n2, i));
        lemma_hex_digit_monotone(nibble(n1, i), nibble(n2, i));
    }
}

/// A common prefix does not change how two texts compare.
proof fn lemma_text_lt_common_prefix(p: Seq<char>, a: Seq<char>, b: Seq<char>)
    ensures
        text_lt(p + a, p + b) == text_lt(a, b),
    decreases p.len(),
{
    if p.len() > 0 {
        assert((p + a).drop_first() =~= p.drop_first() + a);
        assert((p + b).drop_first() =~= p.drop_first() + b);
        lemma_text_lt_common_prefix(p.drop_first(), a, b);
    } else {
        assert(p + a =~= a);
        assert(p + b =~= b);
    }
}

/// Law: the keys of one session sort by sequence number, so a session's
/// messages come back in the order they were numbered.
pub proof fn lemma_message_keys_ordered(session: Seq<char>, n1: u64, n2: u64)
    requires
        n1 < n2,
    ensures
        text_lt(message_key_of(session, n1), message_key_of(session, n2)),
{
    lemma_hex16_lt_from(n1, n2, 0);
    assert(hex16(n1).skip(0) =~= hex16(n1));
    assert(hex16(n2).skip(0) =~= hex16(n2));
    lemma_text_lt_common_prefix(session + seq!['/'], hex16(n1), hex16(n2));
}

} // verus!
