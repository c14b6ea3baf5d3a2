//! Byte-level helpers shared by the wire formats.

use vstd::prelude::*;

verus! {

/// Little-endian encoding of a `u32`.
pub open spec fn u32_le(x: u32) -> Seq<u8> {
    seq![
        (x & 0xff) as u8,
        ((x >> 8u32) & 0xff) as u8,
        ((x >> 16u32) & 0xff) as u8,
        ((x >> 24u32) & 0xff) as u8,
    ]
}

/// Big-endian encoding of a `u32`.
pub open spec fn u32_be(x: u32) -> Seq<u8> {
    seq![
        ((x >> 24u32) & 0xff) as u8,
        ((x >> 16u32) & 0xff) as u8,
        ((x >> 8u32) & 0xff) as u8,
        (x & 0xff) as u8,
    ]
}

/// Little-endian encoding of a `u64`.
pub open spec fn u64_le(x: u64) -> Seq<u8> {
    seq![
        (x & 0xff) as u8,
        ((x >> 8u64) & 0xff) as u8,
        ((x >> 16u64) & 0xff) as u8,
        ((x >> 24u64) & 0xff) as u8,
        ((x >> 32u64) & 0xff) as u8,
        ((x >> 40u64) & 0xff) as u8,
        ((x >> 48u64) & 0xff) as u8,
        ((x >> 56u64) & 0xff) as u8,
    ]
}

/// The `u32` whose little-endian encoding starts `s` (which must hold four bytes).
pub open spec fn le_u32(s: Seq<u8>) -> u32
    recommends
        s.len() >= 4,
{
    (s[0] as u32) | ((s[1] as u32) << 8u32) | ((s[2] as u32) << 16u32) | ((s[3] as u32) << 24u32)
}

/// The `u32` whose big-endian encoding starts `s` (which must hold four bytes).
pub open spec fn be_u32(s: Seq<u8>) -> u32
    recommends
        s.len() >= 4,
{
    ((s[0] as u32) << 24u32) | ((s[1] as u32) << 16u32) | ((s[2] as u32) << 8u32) | (s[3] as u32)
}

/// The `u64` whose little-endian encoding starts `s` (which must hold eight bytes).
pub open spec fn le_u64(s: Seq<u8>) -> u64
    recommends
        s.len() >= 8,
{
    (s[0] as u64) | ((s[1] as u64) << 8u64) | ((s[2] as u64) << 16u64) | ((s[3] as u64) << 24u64)
        | ((s[4] as u64) << 32u64) | ((s[5] as u64) << 40u64) | ((s[6] as u64) << 48u64) | ((
    s[7] as u64) << 56u64)
}

/// Decoding a little-endian `u32` gives back the encoded value.
pub proof fn lemma_u32_le_round_trip(x: u32)
    ensures
        le_u32(u32_le(x)) == x,
        u32_le(x).len() == 4,
{
    let b0 = (x & 0xff) as u8;
    let b1 = ((x >> 8u32) & 0xff) as u8;
    let b2 = ((x >> 16u32) & 0xff) as u8;
    let b3 = ((x >> 24u32) & 0xff) as u8;
    assert(((b0 as u32) | ((b1 as u32) << 8u32) | ((b2 as u32) << 16u32) | ((b3 as u32) << 24u32))
        == x) by (bit_vector)
        requires
            b0 == (x & 0xff) as u8,
            b1 == ((x >> 8u32) & 0xff) as u8,
            b2 == ((x >> 16u32) & 0xff) as u8,
            b3 == ((x >> 24u32) & 0xff) as u8,
    ;
}

/// Decoding a big-endian `u32` gives back the encoded value.
pub proof fn lemma_u32_be_round_trip(x: u32)
    ensures
        be_u32(u32_be(x)) == x,
        u32_be(x).len() == 4,
{
    let b0 = ((x >> 24u32) & 0xff) as u8;
    let b1 = ((x >> 16u32) & 0xff) as u8;
    let b2 = ((x >> 8u32) & 0xff) as u8;
    let b3 = (x & 0xff) as u8;
    assert((((b0 as u32) << 24u32) | ((b1 as u32) << 16u32) | ((b2 as u32) << 8u32) | (b3 as u32))
        == x) by (bit_vector)
        requires
            b0 == ((x >> 24u32) & 0xff) as u8,
            b1 == ((x >> 16u32) & 0xff) as u8,
            b2 == ((x >> 8u32) & 0xff) as u8,
            b3 == (x & 0xff) as u8,
    ;
}

/// Decoding a little-endian `u64` gives back the encoded value.
pub proof fn lemma_u64_le_round_trip(x: u64)
    ensures
        le_u64(u64_le(x)) == x,
        u64_le(x).len() == 8,
{
    let b0 = (x & 0xff) as u8;
    let b1 = ((x >> 8u64) & 0xff) as u8;
    let b2 = ((x >> 16u64) & 0xff) as u8;
    let b3 = ((x >> 24u64) & 0xff) as u8;
    let b4 = ((x >> 32u64) & 0xff) as u8;
    let b5 = ((x >> 40u64) & 0xff) as u8;
    let b6 = ((x >> 48u64) & 0xff) as u8;
    let b7 = ((x >> 56u64) & 0xff) as u8;
    assert(((b0 as u64) | ((b1 as u64) << 8u64) | ((b2 as u64) << 16u64) | ((b3 as u64) << 24u64)
        | ((b4 as u64) << 32u64) | ((b5 as u64) << 40u64) | ((b6 as u64) << 48u64) | ((b7 as u64)
        << 56u64)) == x) by (bit_vector)
        requires
            b0 == (x & 0xff) as u8,
            b1 == ((x >> 8u64) & 0xff) as u8,
            b2 == ((x >> 16u64) & 0xff) as u8,
            b3 == ((x >> 24u64) & 0xff) as u8,
            b4 == ((x >> 32u64) & 0xff) as u8,
            b5 == ((x >> 40u64) & 0xff) as u8,
            b6 == ((x >> 48u64) & 0xff) as u8,
            b7 == ((x >> 56u64) & 0xff) as u8,
    ;
}

/// Encoding the `u32` read from four little-endian bytes gives those bytes.
pub proof fn lemma_le_u32_encodes(s: Seq<u8>)
    requires
        s.len() >= 4,
    ensures
        u32_le(le_u32(s)) == s.take(4),
{
    let (b0, b1, b2, b3) = (s[0], s[1], s[2], s[3]);
    let x = le_u32(s);
    assert((x & 0xff) as u8 == b0 && ((x >> 8u32) & 0xff) as u8 == b1 && ((x >> 16u32) & 0xff) as u8
        == b2 && ((x >> 24u32) & 0xff) as u8 == b3) by (bit_vector)
        requires
            x == (b0 as u32) | ((b1 as u32) << 8u32) | ((b2 as u32) << 16u32) | ((b3 as u32) << 24u32),
    ;
    assert(u32_le(x) =~= s.take(4));
}

/// Encoding the `u64` read from eight little-endian bytes gives those bytes.
pub proof fn lemma_le_u64_encodes(s: Seq<u8>)
    requires
        s.len() >= 8,
    ensures
        u64_le(le_u64(s)) == s.take(8),
{
    let (b0, b1, b2, b3, b4, b5, b6, b7) = (s[0], s[1], s[2], s[3], s[4], s[5], s[6], s[7]);
    let x = le_u64(s);
    assert((x & 0xff) as u8 == b0 && ((x >> 8u64) & 0xff) as u8 == b1 && ((x >> 16u64) & 0xff) as u8
        == b2 && ((x >> 24u64) & 0xff) as u8 == b3 && ((x >> 32u64) & 0xff) as u8 == b4 && ((x
        >> 40u64) & 0xff) as u8 == b5 && ((x >> 48u64) & 0xff) as u8 == b6 && ((x >> 56u64) & 0xff)
        as u8 == b7) by (bit_vector)
        requires
            x == (b0 as u64) | ((b1 as u64) << 8u64) | ((b2 as u64) << 16u64) | ((b3 as u64) << 24u64)
                | ((b4 as u64) << 32u64) | ((b5 as u64) << 40u64) | ((b6 as u64) << 48u64) | ((
            b7 as u64) << 56u64),
    ;
    assert(u64_le(x) =~= s.take(8));
}

/// Law: the big-endian encoding of `x` holds its base-256 digits, most
/// significant first.
pub proof fn lemma_u32_be_digits(x: u32)
    ensures
        u32_be(x).len() == 4,
        u32_be(x)[0] == x / 0x100_0000,
        u32_be(x)[1] == (x / 0x1_0000) % 0x100,
        u32_be(x)[2] == (x / 0x100) % 0x100,
        u32_be(x)[3] == x % 0x100,
{
    let e = u32_be(x);
    let (b0, b1, b2, b3) = (e[0], e[1], e[2], e[3]);
    assert(b0 == x / 0x100_0000 && b1 == (x / 0x1_0000) % 0x100 && b2 == (x / 0x100) % 0x100 && b3
        == x % 0x100) by (bit_vector)
        requires
            b0 == ((x >> 24u32) & 0xff) as u8,
            b1 == ((x >> 16u32) & 0xff) as u8,
            b2 == ((x >> 8u32) & 0xff) as u8,
            b3 == (x & 0xff) as u8,
    ;
}

/// Law: the `u32` read from four big-endian bytes is their base-256 value,
/// the first byte the most significant.
pub proof fn lemma_be_u32_value(s: Seq<u8>)
    requires
        s.len() >= 4,
    ensures
        be_u32(s) == s[0] * 0x100_0000 + s[1] * 0x1_0000 + s[2] * 0x100 + s[3],
{
    let (b0, b1, b2, b3) = (s[0], s[1], s[2], s[3]);
    let x = be_u32(s);
    assert(x == b0 * 0x100_0000 + b1 * 0x1_0000 + b2 * 0x100 + b3) by (bit_vector)
        requires
            x == ((b0 as u32) << 24u32) | ((b1 as u32) << 16u32) | ((b2 as u32) << 8u32) | (b3 as u32),
    ;
}

/// Law: the little-endian encoding of `x` holds its base-256 digits, least
/// significant first.
pub proof fn lemma_u32_le_digits(x: u32)
    ensures
        u32_le(x).len() == 4,
        u32_le(x)[0] == x % 0x100,
        u32_le(x)[1] == (x / 0x100) % 0x100,
        u32_le(x)[2] == (x / 0x1_0000) % 0x100,
        u32_le(x)[3] == x / 0x100_0000,
{
    let e = u32_le(x);
    let (b0, b1, b2, b3) = (e[0], e[1], e[2], e[3]);
    assert(b0 == x % 0x100 && b1 == (x / 0x100) % 0x100 && b2 == (x / 0x1_0000) % 0x100 && b3 == x
        / 0x100_0000) by (bit_vector)
        requires
            b0 == (x & 0xff) as u8,
            b1 == ((x >> 8u32) & 0xff) as u8,
            b2 == ((x >> 16u32) & 0xff) as u8,
            b3 == ((x >> 24u32) & 0xff) as u8,
    ;
}

/// Law: the `u32` read from four little-endian bytes is their base-256
/// value, the first byte the least significant.
pub proof fn lemma_le_u32_value(s: Seq<u8>)
    requires
        s.len() >= 4,
    ensures
        le_u32(s) == s[0] + s[1] * 0x100 + s[2] * 0x1_0000 + s[3] * 0x100_0000,
{
    let (b0, b1, b2, b3) = (s[0], s[1], s[2], s[3]);
    let x = le_u32(s);
    assert(x == b0 + b1 * 0x100 + b2 * 0x1_0000 + b3 * 0x100_0000) by (bit_vector)
        requires
            x == (b0 as u32) | ((b1 as u32) << 8u32) | ((b2 as u32) << 16u32) | ((b3 as u32) << 24u32),
    ;
}

/// Law: the little-endian encoding of a `u64` holds its base-256 digits,
/// least significant first.
pub proof fn lemma_u64_le_digits(x: u64)
    ensures
        u64_le(x).len() == 8,
        u64_le(x)[0] == x % 0x100,
        u64_le(x)[1] == (x / 0x100) % 0x100,
        u64_le(x)[2] == (x / 0x1_0000) % 0x100,
        u64_le(x)[3] == (x / 0x100_0000) % 0x100,
        u64_le(x)[4] == (x / 0x1_0000_0000) % 0x100,
        u64_le(x)[5] == (x / 0x100_0000_0000) % 0x100,
        u64_le(x)[6] == (x / 0x1_0000_0000_0000) % 0x100,
        u64_le(x)[7] == x / 0x100_0000_0000_0000,
{
    let e = u64_le(x);
    let (b0, b1, b2, b3, b4, b5, b6, b7) = (e[0], e[1], e[2], e[3], e[4], e[5], e[6], e[7]);
    assert(b0 == x % 0x100 && b1 == (x / 0x100) % 0x100 && b2 == (x / 0x1_0000) % 0x100 && b3 == (x
        / 0x100_0000) % 0x100 && b4 == (x / 0x1_0000_0000) % 0x100 && b5 == (x / 0x100_0000_0000)
        % 0x100 && b6 == (x / 0x1_0000_0000_0000) % 0x100 && b7 == (x / 0x100_0000_0000_0000)
        % 0x100) by (bit_vector)
        requires
            b0 == (x & 0xff) as u8,
            b1 == ((x >> 8u64) & 0xff) as u8,
            b2 == ((x >> 16u64) & 0xff) as u8,
            b3 == ((x >> 24u64) & 0xff) as u8,
            b4 == ((x >> 32u64) & 0xff) as u8,
            b5 == ((x >> 40u64) & 0xff) as u8,
            b6 == ((x >> 48u64) & 0xff) as u8,
            b7 == ((x >> 56u64) & 0xff) as u8,
    ;
}

/// Law: the `u64` read from eight little-endian bytes is their base-256
/// value, the first byte the least significant.
pub proof fn lemma_le_u64_value(s: Seq<u8>)
    requires
        s.len() >= 8,
    ensures
        le_u64(s) == s[0] + s[1] * 0x100 + s[2] * 0x1_0000 + s[3] * 0x100_0000 + s[4] * 0x1_0000_0000
            + s[5] * 0x100_0000_0000 + s[6] * 0x1_0000_0000_0000 + s[7] * 0x100_0000_0000_0000,
{
    let (b0, b1, b2, b3, b4, b5, b6, b7) = (s[0], s[1], s[2], s[3], s[4], s[5], s[6], s[7]);
    let x = le_u64(s);
    assert(x == b0 + b1 * 0x100 + b2 * 0x1_0000 + b3 * 0x100_0000 + b4 * 0x1_0000_0000 + b5
        * 0x100_0000_0000 + b6 * 0x1_0000_0000_0000 + b7 * 0x100_0000_0000_0000) by (bit_vector)
        requires
            x == (b0 as u64) | ((b1 as u64) << 8u64) | ((b2 as u64) << 16u64) | ((b3 as u64) << 24u64)
                | ((b4 as u64) << 32u64) | ((b5 as u64) << 40u64) | ((b6 as u64) << 48u64) | ((
            b7 as u64) << 56u64),
    ;
}

/// The bytes of an ASCII text, one per character.
pub open spec fn ascii_bytes(text: Seq<char>) -> Seq<u8> {
    Seq::new(text.len(), |i: int| text[i] as u8)
}

/// Encodes `x` as four little-endian bytes.
pub fn u32_to_le(x: u32) -> (out: [u8; 4])
    ensures
        out@ == u32_le(x),
{
    let out: [u8; 4] = [
        (x & 0xff) as u8,
        ((x >> 8u32) & 0xff) as u8,
        ((x >> 16u32) & 0xff) as u8,
        ((x >> 24u32) & 0xff) as u8,
    ];
    assert(out@ =~= u32_le(x));
    out
}

/// Encodes `x` as four big-endian bytes.
pub fn u32_to_be(x: u32) -> (out: [u8; 4])
    ensures
        out@ == u32_be(x),
{
    let out: [u8; 4] = [
        ((x >> 24u32) & 0xff) as u8,
        ((x >> 16u32) & 0xff) as u8,
        ((x >> 8u32) & 0xff) as u8,
        (x & 0xff) as u8,
    ];
    assert(out@ =~= u32_be(x));
    out
}

/// Encodes `x` as eight little-endian bytes.
pub fn u64_to_le(x: u64) -> (out: [u8; 8])
    ensures
        out@ == u64_le(x),
{
    let out: [u8; 8] = [
        (x & 0xff) as u8,
        ((x >> 8u64) & 0xff) as u8,
        ((x >> 16u64) & 0xff) as u8,
        ((x >> 24u64) & 0xff) as u8,
        ((x >> 32u64) & 0xff) as u8,
        ((x >> 40u64) & 0xff) as u8,
        ((x >> 48u64) & 0xff) as u8,
        ((x >> 56u64) & 0xff) as u8,
    ];
    assert(out@ =~= u64_le(x));
    out
}

/// Reads a little-endian `u32` from the four bytes at `pos`.
pub fn read_u32_le(s: &[u8], pos: usize) -> (x: u32)
    requires
        pos + 4 <= s@.len(),
    ensures
        x == le_u32(s@.subrange(pos as int, s@.len() as int)),
{
    let ghost rest = s@.subrange(pos as int, s@.len() as int);
    assert(rest[0] == s@[pos as int] && rest[1] == s@[pos + 1] && rest[2] == s@[pos + 2] && rest[3]
        == s@[pos + 3]);
    (s[pos] as u32) | ((s[pos + 1] as u32) << 8u32) | ((s[pos + 2] as u32) << 16u32) | ((s[pos
        + 3] as u32) << 24u32)
}

/// Reads a big-endian `u32` from the first four bytes of `s`.
pub fn read_u32_be(s: &[u8; 4]) -> (x: u32)
    ensures
        x == be_u32(s@),
{
    ((s[0] as u32) << 24u32) | ((s[1] as u32) << 16u32) | ((s[2] as u32) << 8u32) | (s[3] as u32)
}

/// Reads a little-endian `u64` from the eight bytes at `pos`.
pub fn read_u64_le(s: &[u8], pos: usize) -> (x: u64)
    requires
        pos + 8 <= s@.len(),
    ensures
        x == le_u64(s@.subrange(pos as int, s@.len() as int)),
{
    let ghost rest = s@.subrange(pos as int, s@.len() as int);
    assert(rest[0] == s@[pos as int] && rest[1] == s@[pos + 1] && rest[2] == s@[pos + 2] && rest[3]
        == s@[pos + 3]);
    assert(rest[4] == s@[pos + 4] && rest[5] == s@[pos + 5] && rest[6] == s@[pos + 6] && rest[7]
        == s@[pos + 7]);
    (s[pos] as u64) | ((s[pos + 1] as u64) << 8u64) | ((s[pos + 2] as u64) << 16u64) | ((s[pos
        + 3] as u64) << 24u64) | ((s[pos + 4] as u64) << 32u64) | ((s[pos + 5] as u64) << 40u64)
        | ((s[pos + 6] as u64) << 48u64) | ((s[pos + 7] as u64) << 56u64)
}

/// Appends the bytes of `s` to `v`.
pub fn append_bytes(v: &mut Vec<u8>, s: &[u8])
    ensures
        final(v)@ == old(v)@ + s@,
{
    let mut i: usize = 0;
    while i < s.len()
        invariant
            0 <= i <= s@.len(),
            v@ == old(v)@ + s@.take(i as int),
        decreases s@.len() - i,
    {
        v.push(s[i]);
        i = i + 1;
        assert(s@.take(i as int) =~= s@.take(i - 1) + seq![s@[i - 1]]);
    }
    assert(s@.take(s@.len() as int) =~= s@);
}

/// Copies the bytes at `pos .. pos + n` of `s` into a new vector.
pub fn copy_range(s: &[u8], pos: usize, n: usize) -> (out: Vec<u8>)
    requires
        pos + n <= s@.len(),
    ensures
        out@ == s@.subrange(pos as int, pos + n),
{
    let slen = s.len();
    let mut out: Vec<u8> = Vec::with_capacity(n);
    let mut i: usize = 0;
    while i < n
        invariant
            0 <= i <= n,
            slen == s@.len(),
            pos + n <= s@.len(),
            out@ == s@.subrange(pos as int, pos + i),
        decreases n - i,
    {
        out.push(s[pos + i]);
        i = i + 1;
        assert(out@ =~= s@.subrange(pos as int, pos + i));
    }
    out
}

/// Copies the `N` bytes at `pos` of `s` into an array of that size.
pub fn copy_array<const N: usize>(s: &[u8], pos: usize) -> (out: [u8; N])
    requires
        pos + N <= s@.len(),
    ensures
        out@ == s@.subrange(pos as int, pos + N),
{
    let slen = s.len();
    let mut out: [u8; N] = [0u8; N];
    let mut i: usize = 0;
    while i < N
        invariant
            0 <= i <= N,
            slen == s@.len(),
            pos + N <= s@.len(),
            out@.len() == N,
            forall|j: int| 0 <= j < i ==> out@[j] == s@[pos + j],
        decreases N - i,
    {
        out[i] = s[pos + i];
        i = i + 1;
    }
    assert(out@ =~= s@.subrange(pos as int, pos + N));
    out
}

/// Whether two byte arrays hold the same bytes.
pub fn bytes_equal(a: &[u8], b: &[u8]) -> (eq: bool)
    ensures
        eq == (a@ == b@),
{
    if a.len() != b.len() {
        return false;
    }
    let mut i: usize = 0;
    while i < a.len()
        invariant
            0 <= i <= a@.len(),
            a@.len() == b@.len(),
            forall|j: int| 0 <= j < i ==> a@[j] == b@[j],
        decreases a@.len() - i,
    {
        if a[i] != b[i] {
            return false;
        }
        i = i + 1;
    }
    assert(a@ =~= b@);
    true
}

} // verus!
