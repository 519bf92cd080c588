//! The byte encodings of a 64-bit word: little-endian, big-endian and the
//! native order of the machine.
use vstd::prelude::*;
use vstd::endian::{endianness, Endian};

verus! {

/// The eight bytes of `x`, least significant first.
pub open spec fn le_bytes(x: u64) -> Seq<u8> {
    seq![
        (x & 0xff) as u8,
        ((x >> 8) & 0xff) as u8,
        ((x >> 16) & 0xff) as u8,
        ((x >> 24) & 0xff) as u8,
        ((x >> 32) & 0xff) as u8,
        ((x >> 40) & 0xff) as u8,
        ((x >> 48) & 0xff) as u8,
        ((x >> 56) & 0xff) as u8,
    ]
}

/// The eight bytes of `x`, most significant first.
pub open spec fn be_bytes(x: u64) -> Seq<u8> {
    le_bytes(x).reverse()
}

/// The word whose bytes, least significant first, are `s[0 .. 8]`.
pub open spec fn le_word(s: Seq<u8>) -> u64 {
    (s[0] as u64) | (s[1] as u64) << 8 | (s[2] as u64) << 16 | (s[3] as u64) << 24 | (s[4] as u64)
        << 32 | (s[5] as u64) << 40 | (s[6] as u64) << 48 | (s[7] as u64) << 56
}

/// The word whose bytes, most significant first, are `s[0 .. 8]`.
pub open spec fn be_word(s: Seq<u8>) -> u64 {
    le_word(s.subrange(0, 8).reverse())
}

/// The eight bytes of `x` in the byte order of the machine.
pub open spec fn ne_bytes(x: u64) -> Seq<u8> {
    match endianness() {
        Endian::Little => le_bytes(x),
        Endian::Big => be_bytes(x),
    }
}

/// The word whose bytes, in the byte order of the machine, are `s[0 .. 8]`.
pub open spec fn ne_word(s: Seq<u8>) -> u64 {
    match endianness() {
        Endian::Little => le_word(s),
        Endian::Big => be_word(s),
    }
}

/// Decoding the little-endian bytes of a word gives the word back.
pub proof fn lemma_le_word_of_bytes(x: u64)
    ensures
        le_bytes(x).len() == 8,
        le_word(le_bytes(x)) == x,
{
    assert({
        &&& x & 0xff < 256
        &&& (x >> 8) & 0xff < 256
        &&& (x >> 16) & 0xff < 256
        &&& (x >> 24) & 0xff < 256
        &&& (x >> 32) & 0xff < 256
        &&& (x >> 40) & 0xff < 256
        &&& (x >> 48) & 0xff < 256
        &&& (x >> 56) & 0xff < 256
    }) by (bit_vector);
    assert(x == ((x & 0xff) | ((x >> 8) & 0xff) << 8 | ((x >> 16) & 0xff) << 16 | ((x >> 24)
        & 0xff) << 24 | ((x >> 32) & 0xff) << 32 | ((x >> 40) & 0xff) << 40 | ((x >> 48) & 0xff)
        << 48 | ((x >> 56) & 0xff) << 56)) by (bit_vector);
}

/// Encoding a decoded word gives the eight bytes back.
pub proof fn lemma_le_bytes_of_word(s: Seq<u8>)
    requires
        s.len() == 8,
    ensures
        le_bytes(le_word(s)) == s,
{
    let b0 = s[0] as u64;
    let b1 = s[1] as u64;
    let b2 = s[2] as u64;
    let b3 = s[3] as u64;
    let b4 = s[4] as u64;
    let b5 = s[5] as u64;
    let b6 = s[6] as u64;
    let b7 = s[7] as u64;
    let x = le_word(s);
    assert(x == b0 | b1 << 8 | b2 << 16 | b3 << 24 | b4 << 32 | b5 << 40 | b6 << 48 | b7 << 56);
    assert({
        &&& x & 0xff == b0
        &&& (x >> 8) & 0xff == b1
        &&& (x >> 16) & 0xff == b2
        &&& (x >> 24) & 0xff == b3
        &&& (x >> 32) & 0xff == b4
        &&& (x >> 40) & 0xff == b5
        &&& (x >> 48) & 0xff == b6
        &&& (x >> 56) & 0xff == b7
    }) by (bit_vector)
        requires
            x == b0 | b1 << 8 | b2 << 16 | b3 << 24 | b4 << 32 | b5 << 40 | b6 << 48 | b7 << 56,
            b0 < 256,
            b1 < 256,
            b2 < 256,
            b3 < 256,
            b4 < 256,
            b5 < 256,
            b6 < 256,
            b7 < 256,
    ;
    assert(le_bytes(x) =~= s);
}

/// Decoding and encoding invert each other, in every byte order.
pub proof fn lemma_word_bytes_roundtrip(x: u64, s: Seq<u8>)
    requires
        s.len() == 8,
    ensures
        le_word(le_bytes(x)) == x,
        le_bytes(le_word(s)) == s,
        be_bytes(x).len() == 8,
        be_word(be_bytes(x)) == x,
        be_bytes(be_word(s)) == s,
        ne_bytes(x).len() == 8,
        ne_word(ne_bytes(x)) == x,
        ne_bytes(ne_word(s)) == s,
{
    lemma_le_word_of_bytes(x);
    lemma_le_bytes_of_word(s);
    assert(be_bytes(x).subrange(0, 8).reverse() =~= le_bytes(x));
    assert(s.subrange(0, 8) =~= s);
    lemma_le_bytes_of_word(s.reverse());
    assert(le_bytes(le_word(s.reverse())).reverse() =~= s);
}

/// The eight bytes of `x`, least significant first.
pub(crate) fn word_to_le_bytes(x: u64) -> (r: [u8; 8])
    ensures
        r@ == le_bytes(x),
{
    let r = [
        (x & 0xff) as u8,
        ((x >> 8) & 0xff) as u8,
        ((x >> 16) & 0xff) as u8,
        ((x >> 24) & 0xff) as u8,
        ((x >> 32) & 0xff) as u8,
        ((x >> 40) & 0xff) as u8,
        ((x >> 48) & 0xff) as u8,
        ((x >> 56) & 0xff) as u8,
    ];
    assert(r@ =~= le_bytes(x));
    r
}

/// The eight bytes of `x`, most significant first.
pub(crate) fn word_to_be_bytes(x: u64) -> (r: [u8; 8])
    ensures
        r@ == be_bytes(x),
{
    let r = [
        ((x >> 56) & 0xff) as u8,
        ((x >> 48) & 0xff) as u8,
        ((x >> 40) & 0xff) as u8,
        ((x >> 32) & 0xff) as u8,
        ((x >> 24) & 0xff) as u8,
        ((x >> 16) & 0xff) as u8,
        ((x >> 8) & 0xff) as u8,
        (x & 0xff) as u8,
    ];
    assert(r@ =~= be_bytes(x));
    r
}

/// The word whose bytes, least significant first, are `b`.
pub(crate) fn word_from_le_bytes(b: [u8; 8]) -> (r: u64)
    ensures
        r == le_word(b@),
{
    (b[0] as u64) | (b[1] as u64) << 8 | (b[2] as u64) << 16 | (b[3] as u64) << 24 | (b[4] as u64)
        << 32 | (b[5] as u64) << 40 | (b[6] as u64) << 48 | (b[7] as u64) << 56
}

/// The word whose bytes, most significant first, are `b`.
pub(crate) fn word_from_be_bytes(b: [u8; 8]) -> (r: u64)
    ensures
        r == be_word(b@),
{
    let r = (b[7] as u64) | (b[6] as u64) << 8 | (b[5] as u64) << 16 | (b[4] as u64) << 24 | (
    b[3] as u64) << 32 | (b[2] as u64) << 40 | (b[1] as u64) << 48 | (b[0] as u64) << 56;
    assert(b@.subrange(0, 8).reverse() =~= seq![b[7], b[6], b[5], b[4], b[3], b[2], b[1], b[0]]);
    r
}

} // verus!
