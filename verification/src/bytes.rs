//! Little-endian integers and the byte-wise order of byte strings.

use vstd::prelude::*;
use vstd::utf8::{encode_utf8, valid_utf8};
use vstd::utf8::encode_utf8_decode_utf8;

verus! {

/// The four little-endian bytes of `x`.
#[verifier::opaque]
pub open spec fn u32_le(x: u32) -> Seq<u8> {
    seq![
        (x % 256) as u8,
        (x / 0x100 % 256) as u8,
        (x / 0x1_0000 % 256) as u8,
        (x / 0x100_0000 % 256) as u8,
    ]
}

/// The number whose little-endian bytes are the first four of `s`.
#[verifier::opaque]
pub open spec fn u32_of_le(s: Seq<u8>) -> u32
    recommends
        s.len() >= 4,
{
    (s[0] as int + 0x100 * (s[1] as int) + 0x1_0000 * (s[2] as int) + 0x100_0000 * (s[3] as int)) as u32
}

/// The eight little-endian bytes of `x`.
#[verifier::opaque]
pub open spec fn u64_le(x: u64) -> Seq<u8> {
    u32_le((x % 0x1_0000_0000) as u32) + u32_le((x / 0x1_0000_0000) as u32)
}

/// The number whose little-endian bytes are the first eight of `s`.
#[verifier::opaque]
pub open spec fn u64_of_le(s: Seq<u8>) -> u64
    recommends
        s.len() >= 8,
{
    (u32_of_le(s.subrange(0, 4)) as int + 0x1_0000_0000 * (u32_of_le(s.subrange(4, 8)) as int)) as u64
}

/// Decoding undoes encoding, for four bytes.
pub proof fn lemma_u32_le_roundtrip(x: u32)
    ensures
        u32_le(x).len() == 4,
        u32_of_le(u32_le(x)) == x,
{
    reveal(u32_le);
    reveal(u32_of_le);
}

/// Encoding undoes decoding, for four bytes.
pub proof fn lemma_u32_of_le_roundtrip(s: Seq<u8>)
    requires
        s.len() == 4,
    ensures
        u32_le(u32_of_le(s)) == s,
{
    reveal(u32_le);
    reveal(u32_of_le);
    let hi = s[1] as int + 0x100 * (s[2] as int) + 0x1_0000 * (s[3] as int);
    let x = u32_of_le(s);
    assert(x == s[0] as int + 0x100 * hi);
    assert(x % 256 == s[0] as int);
    assert(x / 0x100 == hi);
    let hi2 = s[2] as int + 0x100 * (s[3] as int);
    assert(hi == s[1] as int + 0x100 * hi2);
    assert(hi % 256 == s[1] as int);
    assert(hi / 0x100 == hi2);
    assert(x / 0x1_0000 == hi2);
    assert(hi2 % 256 == s[2] as int);
    assert(hi2 / 0x100 == s[3] as int);
    assert(x / 0x100_0000 == s[3] as int);
    assert(u32_le(x) =~= s);
}

/// Decoding undoes encoding, for eight bytes.
pub proof fn lemma_u64_le_roundtrip(x: u64)
    ensures
        u64_le(x).len() == 8,
        u64_of_le(u64_le(x)) == x,
{
    reveal(u64_le);
    reveal(u64_of_le);
    let lo = (x % 0x1_0000_0000) as u32;
    let hi = (x / 0x1_0000_0000) as u32;
    lemma_u32_le_roundtrip(lo);
    lemma_u32_le_roundtrip(hi);
    assert(u64_le(x).subrange(0, 4) =~= u32_le(lo));
    assert(u64_le(x).subrange(4, 8) =~= u32_le(hi));
}

/// Encoding undoes decoding, for eight bytes.
pub proof fn lemma_u64_of_le_roundtrip(s: Seq<u8>)
    requires
        s.len() == 8,
    ensures
        u64_le(u64_of_le(s)) == s,
{
    reveal(u64_le);
    reveal(u64_of_le);
    let lo = u32_of_le(s.subrange(0, 4));
    let hi = u32_of_le(s.subrange(4, 8));
    let x = u64_of_le(s);
    assert(x == lo as int + 0x1_0000_0000 * (hi as int));
    assert((x % 0x1_0000_0000) as u32 == lo);
    assert((x / 0x1_0000_0000) as u32 == hi);
    lemma_u32_of_le_roundtrip(s.subrange(0, 4));
    lemma_u32_of_le_roundtrip(s.subrange(4, 8));
    assert(s.subrange(0, 4) + s.subrange(4, 8) =~= s);
}

/// Encodes `x` in four little-endian bytes.
pub fn u32_to_le_bytes(x: u32) -> (bytes: [u8; 4])
    ensures
        bytes@ == u32_le(x),
{
    reveal(u32_le);
    let bytes = [
        (x % 256) as u8,
        (x / 0x100 % 256) as u8,
        (x / 0x1_0000 % 256) as u8,
        (x / 0x100_0000 % 256) as u8,
    ];
    assert(bytes@ =~= u32_le(x));
    bytes
}

/// Decodes four little-endian bytes.
pub fn u32_from_le_bytes(bytes: &[u8; 4]) -> (x: u32)
    ensures
        x == u32_of_le(bytes@),
{
    reveal(u32_of_le);
    bytes[0] as u32 + 0x100 * (bytes[1] as u32) + 0x1_0000 * (bytes[2] as u32) + 0x100_0000 * (
    bytes[3] as u32)
}

/// Encodes `x` in eight little-endian bytes.
pub fn u64_to_le_bytes(x: u64) -> (bytes: [u8; 8])
    ensures
        bytes@ == u64_le(x),
{
    reveal(u64_le);
    let lo = u32_to_le_bytes((x % 0x1_0000_0000) as u32);
    let hi = u32_to_le_bytes((x / 0x1_0000_0000) as u32);
    let bytes = [lo[0], lo[1], lo[2], lo[3], hi[0], hi[1], hi[2], hi[3]];
    assert(bytes@ =~= u64_le(x));
    bytes
}

/// Decodes eight little-endian bytes.
pub fn u64_from_le_bytes(bytes: &[u8; 8]) -> (x: u64)
    ensures
        x == u64_of_le(bytes@),
{
    reveal(u64_of_le);
    let lo = [bytes[0], bytes[1], bytes[2], bytes[3]];
    let hi = [bytes[4], bytes[5], bytes[6], bytes[7]];
    assert(lo@ =~= bytes@.subrange(0, 4));
    assert(hi@ =~= bytes@.subrange(4, 8));
    u32_from_le_bytes(&lo) as u64 + 0x1_0000_0000 * (u32_from_le_bytes(&hi) as u64)
}

/// `a` comes before `b` byte by byte; a proper prefix comes first.
pub open spec fn lex_lt(a: Seq<u8>, b: Seq<u8>) -> bool
    decreases a.len(),
{
    if b.len() == 0 {
        false
    } else if a.len() == 0 {
        true
    } else if a[0] != b[0] {
        a[0] < b[0]
    } else {
        lex_lt(a.drop_first(), b.drop_first())
    }
}

/// The order of two strings: that of their UTF-8 bytes.
pub open spec fn text_lt(a: Seq<char>, b: Seq<char>) -> bool {
    lex_lt(encode_utf8(a), encode_utf8(b))
}

pub proof fn lemma_lex_lt_irreflexive(a: Seq<u8>)
    ensures
        !lex_lt(a, a),
    decreases a.len(),
{
    if a.len() > 0 {
        lemma_lex_lt_irreflexive(a.drop_first());
    }
}

pub proof fn lemma_lex_lt_transitive(a: Seq<u8>, b: Seq<u8>, c: Seq<u8>)
    requires
        lex_lt(a, b),
        lex_lt(b, c),
    ensures
        lex_lt(a, c),
    decreases a.len(),
{
    if a.len() > 0 && a[0] == b[0] && b[0] == c[0] {
        lemma_lex_lt_transitive(a.drop_first(), b.drop_first(), c.drop_first());
    }
}

pub proof fn lemma_lex_lt_total(a: Seq<u8>, b: Seq<u8>)
    ensures
        a == b || lex_lt(a, b) || lex_lt(b, a),
    decreases a.len(),
{
    if a.len() > 0 && b.len() > 0 && a[0] == b[0] {
        lemma_lex_lt_total(a.drop_first(), b.drop_first());
        if a.drop_first() == b.drop_first() {
            assert(a =~= seq![a[0]] + a.drop_first());
            assert(b =~= seq![b[0]] + b.drop_first());
        }
    } else if a.len() == 0 && b.len() == 0 {
        assert(a =~= b);
    }
}

/// Two sequences that agree on their first `n` bytes are ordered by what
/// follows: the one that ends there, or has the smaller byte there, is first.
pub proof fn lemma_lex_lt_after_prefix(a: Seq<u8>, b: Seq<u8>, n: int)
    requires
        0 <= n <= a.len(),
        n <= b.len(),
        forall|k: int| 0 <= k < n ==> a[k] == b[k],
        n < b.len(),
        n == a.len() || a[n] < b[n],
    ensures
        lex_lt(a, b),
    decreases n,
{
    if n > 0 {
        let a1 = a.drop_first();
        let b1 = b.drop_first();
        assert forall|k: int| 0 <= k < n - 1 implies a1[k] == b1[k] by {
            assert(a1[k] == a[k + 1]);
            assert(b1[k] == b[k + 1]);
        }
        lemma_lex_lt_after_prefix(a1, b1, n - 1);
    }
}

pub proof fn lemma_text_lt_irreflexive(a: Seq<char>)
    ensures
        !text_lt(a, a),
{
    lemma_lex_lt_irreflexive(encode_utf8(a));
}

pub proof fn lemma_text_lt_transitive(a: Seq<char>, b: Seq<char>, c: Seq<char>)
    requires
        text_lt(a, b),
        text_lt(b, c),
    ensures
        text_lt(a, c),
{
    lemma_lex_lt_transitive(encode_utf8(a), encode_utf8(b), encode_utf8(c));
}

pub proof fn lemma_text_lt_total(a: Seq<char>, b: Seq<char>)
    ensures
        a == b || text_lt(a, b) || text_lt(b, a),
{
    lemma_lex_lt_total(encode_utf8(a), encode_utf8(b));
    encode_utf8_decode_utf8(a);
    encode_utf8_decode_utf8(b);
}

/// How two values stand to each other.
#[derive(Clone, Copy, Debug, PartialEq, Eq, Structural)]
pub enum Order {
    Less,
    Equal,
    Greater,
}

/// Orders two byte strings byte by byte.
pub fn order_bytes(a: &[u8], b: &[u8]) -> (order: Order)
    ensures
        order == Order::Less <==> lex_lt(a@, b@),
        order == Order::Equal <==> a@ == b@,
        order == Order::Greater <==> lex_lt(b@, a@),
{
    let mut i: usize = 0;
    while i < a.len() && i < b.len()
        invariant
            i <= a@.len(),
            i <= b@.len(),
            forall|k: int| 0 <= k < i ==> a@[k] == b@[k],
        decreases a@.len() - i,
    {
        if a[i] < b[i] {
            proof {
                lemma_lex_lt_after_prefix(a@, b@, i as int);
                lemma_lex_lt_irreflexive(a@);
                if lex_lt(b@, a@) {
                    lemma_lex_lt_transitive(a@, b@, a@);
                }
            }
            return Order::Less;
        }
        if a[i] > b[i] {
            proof {
                lemma_lex_lt_after_prefix(b@, a@, i as int);
                lemma_lex_lt_irreflexive(a@);
                if lex_lt(a@, b@) {
                    lemma_lex_lt_transitive(a@, b@, a@);
                }
            }
            return Order::Greater;
        }
        i = i + 1;
    }
    proof {
        lemma_lex_lt_irreflexive(a@);
        if lex_lt(a@, b@) && lex_lt(b@, a@) {
            lemma_lex_lt_transitive(a@, b@, a@);
        }
    }
    if a.len() < b.len() {
        proof {
            lemma_lex_lt_after_prefix(a@, b@, i as int);
        }
        Order::Less
    } else if a.len() > b.len() {
        proof {
            lemma_lex_lt_after_prefix(b@, a@, i as int);
        }
        Order::Greater
    } else {
        assert(a@ =~= b@);
        Order::Equal
    }
}

/// Orders two strings by their UTF-8 bytes.
pub fn order_text(a: &str, b: &str) -> (order: Order)
    ensures
        order == Order::Less <==> text_lt(a@, b@),
        order == Order::Equal <==> a@ == b@,
        order == Order::Greater <==> text_lt(b@, a@),
{
    proof {
        encode_utf8_decode_utf8(a@);
        encode_utf8_decode_utf8(b@);
    }
    order_bytes(a.as_bytes(), b.as_bytes())
}

/// Calls `String::from_utf8` of std: a string comes back exactly where the
/// bytes are valid UTF-8, and its UTF-8 is those bytes.
#[verifier::external_body]
pub(crate) fn string_from_utf8(bytes: Vec<u8>) -> (text: Option<String>)
    ensures
        text is Some <==> valid_utf8(bytes@),
        text matches Some(t) ==> encode_utf8(t@) == bytes@,
{
    String::from_utf8(bytes).ok()
}

/// The bytes of a slice of `N` bytes as an array.
pub fn to_array<const N: usize>(bytes: &[u8]) -> (array: [u8; N])
    requires
        bytes@.len() == N,
    ensures
        array@ == bytes@,
{
    let mut array = [0u8; N];
    let mut i: usize = 0;
    while i < N
        invariant
            0 <= i <= N,
            bytes@.len() == N,
            forall|k: int| 0 <= k < i ==> array@[k] == bytes@[k],
        decreases N - i,
    {
        array[i] = bytes[i];
        i = i + 1;
    }
    assert(array@ =~= bytes@);
    array
}

} // verus!
