//! Properties of the byte set that span several of its operations.
use vstd::prelude::*;
use core::ops::RangeInclusive;
use crate::byteset::{
    at_or_above, byte_range, char_in, chunk_of, range_set, ranges_union, sym_diff, union_of,
    ByteSet,
};
use crate::encoding::{
    be_bytes, be_word, le_bytes, le_word, lemma_word_bytes_roundtrip, ne_bytes, ne_word,
};
use crate::iter::{next_step, ByteSetIter};

verus! {

/// The bytes from `first` to `last` are those at or above `first` and at
/// or below `last`.
pub proof fn law_byte_range_members(first: u8, last: u8)
    ensures
        forall|b: u8| byte_range(first, last).contains(b) <==> (first <= b && b <= last),
{
}

/// A range covers the bytes at or above its start and at or below its end,
/// whatever words they lie in.
pub proof fn law_range_members(range: RangeInclusive<u8>)
    ensures
        forall|b: u8| range_set(range).contains(b) <==> (range@.start <= b && b <= range@.end),
{
}

/// A slice of ranges covers a byte exactly when one of its ranges does.
pub proof fn law_ranges_members(ranges: Seq<RangeInclusive<u8>>)
    ensures
        forall|b: u8|
            ranges_union(ranges).contains(b) <==> exists|i: int|
                0 <= i < ranges.len() && #[trigger] ranges[i]@.start <= b && b <= ranges[i]@.end,
    decreases ranges.len(),
{
    if ranges.len() > 0 {
        let init = ranges.drop_last();
        law_ranges_members(init);
        assert forall|b: u8|
            ranges_union(ranges).contains(b) <==> exists|i: int|
                0 <= i < ranges.len() && #[trigger] ranges[i]@.start <= b && b
                    <= ranges[i]@.end by {
            if exists|i: int|
                0 <= i < ranges.len() && #[trigger] ranges[i]@.start <= b && b <= ranges[i]@.end {
                let i = choose|i: int|
                    0 <= i < ranges.len() && #[trigger] ranges[i]@.start <= b && b
                        <= ranges[i]@.end;
                if i < ranges.len() - 1 {
                    assert(init[i] == ranges[i]);
                }
            }
            if ranges_union(init).contains(b) {
                let i = choose|i: int|
                    0 <= i < init.len() && #[trigger] init[i]@.start <= b && b <= init[i]@.end;
                assert(ranges[i] == init[i]);
            }
            if range_set(ranges.last()).contains(b) {
                assert(ranges[ranges.len() - 1] == ranges.last());
            }
        }
    }
}

/// The union of a slice of sets holds a byte exactly when one of the sets
/// does.
pub proof fn law_union_members(sets: Seq<ByteSet>)
    ensures
        forall|b: u8|
            union_of(sets).contains(b) <==> exists|i: int|
                0 <= i < sets.len() && (#[trigger] sets[i])@.contains(b),
    decreases sets.len(),
{
    if sets.len() > 0 {
        let init = sets.drop_last();
        law_union_members(init);
        assert forall|b: u8|
            union_of(sets).contains(b) <==> exists|i: int|
                0 <= i < sets.len() && (#[trigger] sets[i])@.contains(b) by {
            if exists|i: int| 0 <= i < sets.len() && (#[trigger] sets[i])@.contains(b) {
                let i = choose|i: int| 0 <= i < sets.len() && (#[trigger] sets[i])@.contains(b);
                if i < sets.len() - 1 {
                    assert(init[i] == sets[i]);
                }
            }
            if union_of(init).contains(b) {
                let i = choose|i: int| 0 <= i < init.len() && (#[trigger] init[i])@.contains(b);
                assert(sets[i] == init[i]);
            }
            if sets.last()@.contains(b) {
                assert(sets[sets.len() - 1] == sets.last());
            }
        }
    }
}

/// A character is in a set exactly when some byte with the same code is.
pub proof fn law_char_members(set: Set<u8>, c: char)
    ensures
        char_in(set, c) <==> exists|b: u8| b as u32 == c as u32 && #[trigger] set.contains(b),
{
    if char_in(set, c) {
        let b = c as u8;
        assert(b as u32 == c as u32);
        assert(set.contains(b));
    }
    if exists|b: u8| b as u32 == c as u32 && #[trigger] set.contains(b) {
        let b = choose|b: u8| b as u32 == c as u32 && #[trigger] set.contains(b);
        assert(c as u8 == b);
    }
}

/// The bytes in exactly one of two sets.
pub proof fn law_sym_diff_members(a: Set<u8>, b: Set<u8>)
    ensures
        forall|x: u8| sym_diff(a, b).contains(x) <==> (a.contains(x) != b.contains(x)),
{
}

/// The members of a set from `n` up.
pub proof fn law_at_or_above_members(set: Set<u8>, n: int)
    ensures
        forall|x: u8| at_or_above(set, n).contains(x) <==> (set.contains(x) && x >= n),
{
}

/// A byte is a member exactly when its bit is set in the word holding it.
pub proof fn law_members_are_set_bits(s: ByteSet)
    ensures
        forall|b: u8|
            s@.contains(b) <==> (s.words()[b as int / 64] >> (b % 64) as u64) & 1 == 1,
{
    assert forall|b: u8| s@.contains(b) <==> (s.words()[b as int / 64] >> (b % 64) as u64) & 1
        == 1 by {
        let k = b as int / 64;
        assert(0 <= k < 4);
        assert(s.words()[k] == s.word(k));
    }
}

/// Byte `j` of the little-endian encoding of `x` is its base-256 digit `j`;
/// the big-endian encoding lists the same digits, most significant first.
pub proof fn law_word_encoding_digits(x: u64)
    ensures
        le_bytes(x).len() == 8,
        be_bytes(x).len() == 8,
        le_bytes(x)[0] == x % 0x100,
        le_bytes(x)[1] == (x / 0x100) % 0x100,
        le_bytes(x)[2] == (x / 0x1_0000) % 0x100,
        le_bytes(x)[3] == (x / 0x100_0000) % 0x100,
        le_bytes(x)[4] == (x / 0x1_0000_0000) % 0x100,
        le_bytes(x)[5] == (x / 0x100_0000_0000) % 0x100,
        le_bytes(x)[6] == (x / 0x1_0000_0000_0000) % 0x100,
        le_bytes(x)[7] == (x / 0x100_0000_0000_0000) % 0x100,
        forall|j: int| 0 <= j < 8 ==> #[trigger] be_bytes(x)[j] == le_bytes(x)[7 - j],
{
    assert({
        &&& x & 0xff == x % 0x100
        &&& (x >> 8) & 0xff == (x / 0x100) % 0x100
        &&& (x >> 16) & 0xff == (x / 0x1_0000) % 0x100
        &&& (x >> 24) & 0xff == (x / 0x100_0000) % 0x100
        &&& (x >> 32) & 0xff == (x / 0x1_0000_0000) % 0x100
        &&& (x >> 40) & 0xff == (x / 0x100_0000_0000) % 0x100
        &&& (x >> 48) & 0xff == (x / 0x1_0000_0000_0000) % 0x100
        &&& (x >> 56) & 0xff == (x / 0x100_0000_0000_0000) % 0x100
    }) by (bit_vector);
}

/// Decoding eight little-endian bytes gives the number whose base-256
/// digits they are; big-endian decoding reads them the other way round.
pub proof fn law_word_decoding_digits(s: Seq<u8>)
    requires
        s.len() == 8,
    ensures
        le_word(s) == s[0] + s[1] * 0x100 + s[2] * 0x1_0000 + s[3] * 0x100_0000 + s[4]
            * 0x1_0000_0000 + s[5] * 0x100_0000_0000 + s[6] * 0x1_0000_0000_0000 + s[7]
            * 0x100_0000_0000_0000,
        be_word(s) == s[7] + s[6] * 0x100 + s[5] * 0x1_0000 + s[4] * 0x100_0000 + s[3]
            * 0x1_0000_0000 + s[2] * 0x100_0000_0000 + s[1] * 0x1_0000_0000_0000 + s[0]
            * 0x100_0000_0000_0000,
{
    let b0 = s[0] as u64;
    let b1 = s[1] as u64;
    let b2 = s[2] as u64;
    let b3 = s[3] as u64;
    let b4 = s[4] as u64;
    let b5 = s[5] as u64;
    let b6 = s[6] as u64;
    let b7 = s[7] as u64;
    assert(b0 | b1 << 8 | b2 << 16 | b3 << 24 | b4 << 32 | b5 << 40 | b6 << 48 | b7 << 56 == b0
        + b1 * 0x100 + b2 * 0x1_0000 + b3 * 0x100_0000 + b4 * 0x1_0000_0000 + b5
        * 0x100_0000_0000 + b6 * 0x1_0000_0000_0000 + b7 * 0x100_0000_0000_0000) by (bit_vector)
        requires
            b0 < 256,
            b1 < 256,
            b2 < 256,
            b3 < 256,
            b4 < 256,
            b5 < 256,
            b6 < 256,
            b7 < 256,
    ;
    assert(b7 | b6 << 8 | b5 << 16 | b4 << 24 | b3 << 32 | b2 << 40 | b1 << 48 | b0 << 56 == b7
        + b6 * 0x100 + b5 * 0x1_0000 + b4 * 0x100_0000 + b3 * 0x1_0000_0000 + b2
        * 0x100_0000_0000 + b1 * 0x1_0000_0000_0000 + b0 * 0x100_0000_0000_0000) by (bit_vector)
        requires
            b0 < 256,
            b1 < 256,
            b2 < 256,
            b3 < 256,
            b4 < 256,
            b5 < 256,
            b6 < 256,
            b7 < 256,
    ;
    let r = s.subrange(0, 8).reverse();
    assert(r[0] == s[7] && r[1] == s[6] && r[2] == s[5] && r[3] == s[4] && r[4] == s[3] && r[5]
        == s[2] && r[6] == s[1] && r[7] == s[0]);
}

/// The native encoding is one of the two byte orders, the same one for
/// every word, and native decoding reads that same order.
pub proof fn law_native_is_one_order()
    ensures
        (forall|x: u64| #[trigger] ne_bytes(x) == le_bytes(x)) && (forall|s: Seq<u8>|
            #[trigger] ne_word(s) == le_word(s)) || (forall|x: u64| #[trigger] ne_bytes(x)
            == be_bytes(x)) && (forall|s: Seq<u8>| #[trigger] ne_word(s) == be_word(s)),
{
}

/// Two byte sets are equal values exactly when they hold the same bytes, so
/// `==`, `eq` and `ne` all compare membership.
pub proof fn law_equality_is_membership(a: ByteSet, b: ByteSet)
    ensures
        a == b <==> a@ == b@,
{
    ByteSet::lemma_eq_iff_same_members(a, b);
}

/// Inverting twice gives back the very same set.
pub proof fn law_double_inversion(s: ByteSet, t: ByteSet, u: ByteSet)
    requires
        t@ == s@.complement(),
        u@ == t@.complement(),
    ensures
        u == s,
{
    assert(u@ =~= s@);
    ByteSet::lemma_ext(u, s);
}

/// `xor` keeps the bytes of `or` that are not in `and`.
pub proof fn law_xor_is_or_without_and(a: Set<u8>, b: Set<u8>)
    ensures
        sym_diff(a, b) == a.union(b).difference(a.intersect(b)),
{
    assert(sym_diff(a, b) =~= a.union(b).difference(a.intersect(b)));
}

/// Every set is finite with at most 256 members; `len` is 0 exactly when
/// the set is empty and 256 exactly when it is full.
pub proof fn law_len_bounds(s: ByteSet)
    ensures
        s@.finite(),
        s@.len() <= 256,
        s@.len() == 0 <==> s@ == Set::<u8>::empty(),
        s@.len() == 256 <==> s@ == Set::<u8>::full(),
{
    s.lemma_len();
    lemma_full_len();
    vstd::set_lib::lemma_len_subset(s@, Set::<u8>::full());
    if s@.len() == 0 {
        vstd::set_lib::lemma_set_empty_equivalency_len(s@);
    }
    if s@.len() == 256 && s@ != Set::<u8>::full() {
        let x = choose|x: u8| !s@.contains(x);
        assert(!s@.contains(x)) by {
            if forall|y: u8| s@.contains(y) {
                assert(s@ =~= Set::<u8>::full());
            }
        }
        assert(s@.subset_of(Set::<u8>::full().remove(x)));
        vstd::set_lib::lemma_len_subset(s@, Set::<u8>::full().remove(x));
    }
}

/// The bytes `first ..= last` number `last - first + 1`.
pub proof fn law_range_len(first: u8, last: u8)
    requires
        first <= last,
    ensures
        byte_range(first, last).finite(),
        byte_range(first, last).len() == last - first + 1,
{
    <u8 as vstd::set_lib::FiniteRange>::range_properties(first, last);
    assert(byte_range(first, last) =~= Set::<u8>::range(first, last).insert(last));
}

proof fn lemma_full_len()
    ensures
        Set::<u8>::full().finite(),
        Set::<u8>::full().len() == 256,
{
    <u8 as vstd::set_lib::FiniteRange>::range_properties(0u8, 255u8);
    assert(Set::<u8>::full() =~= Set::<u8>::range(0u8, 255u8).insert(255u8));
}

/// The words a set is built from are the words it reports.
pub proof fn law_array_roundtrip(s: ByteSet, t: ByteSet)
    requires
        t.words() == s.words(),
    ensures
        t == s,
{
    assert forall|k: int| 0 <= k < 4 implies #[trigger] t.word(k) == s.word(k) by {
        assert(t.words()[k] == s.words()[k]);
    }
    ByteSet::lemma_words_determine(t, s);
}

/// Decoding the little-endian encoding of `s` gives `s` back, and encoding
/// the set decoded from 32 bytes gives the bytes back.
pub proof fn law_le_roundtrip(s: ByteSet, t: ByteSet, u: ByteSet, bytes: Seq<u8>)
    requires
        bytes.len() == 32,
        forall|k: int| 0 <= k < 4 ==> #[trigger] t.word(k) == le_word(chunk_of(s.le_encoding(), k)),
        forall|k: int| 0 <= k < 4 ==> #[trigger] u.word(k) == le_word(chunk_of(bytes, k)),
    ensures
        t == s,
        u.le_encoding() == bytes,
{
    assert forall|k: int| 0 <= k < 4 implies #[trigger] t.word(k) == s.word(k) by {
        lemma_word_bytes_roundtrip(s.word(k), chunk_of(bytes, k));
        assert(chunk_of(s.le_encoding(), k) =~= le_bytes(s.word(k)));
    }
    ByteSet::lemma_words_determine(t, s);
    assert forall|k: int| 0 <= k < 4 implies #[trigger] le_bytes(u.word(k)) == chunk_of(bytes, k) by {
        lemma_word_bytes_roundtrip(u.word(k), chunk_of(bytes, k));
    }
    assert(u.le_encoding() =~= bytes);
}

/// Decoding the big-endian encoding of `s` gives `s` back, and encoding
/// the set decoded from 32 bytes gives the bytes back.
pub proof fn law_be_roundtrip(s: ByteSet, t: ByteSet, u: ByteSet, bytes: Seq<u8>)
    requires
        bytes.len() == 32,
        forall|k: int| 0 <= k < 4 ==> #[trigger] t.word(k) == be_word(chunk_of(s.be_encoding(), k)),
        forall|k: int| 0 <= k < 4 ==> #[trigger] u.word(k) == be_word(chunk_of(bytes, k)),
    ensures
        t == s,
        u.be_encoding() == bytes,
{
    assert forall|k: int| 0 <= k < 4 implies #[trigger] t.word(k) == s.word(k) by {
        lemma_word_bytes_roundtrip(s.word(k), chunk_of(bytes, k));
        assert(chunk_of(s.be_encoding(), k) =~= be_bytes(s.word(k)));
    }
    ByteSet::lemma_words_determine(t, s);
    assert forall|k: int| 0 <= k < 4 implies #[trigger] be_bytes(u.word(k)) == chunk_of(bytes, k) by {
        lemma_word_bytes_roundtrip(u.word(k), chunk_of(bytes, k));
    }
    assert(u.be_encoding() =~= bytes);
}

/// Decoding the native encoding of `s` gives `s` back, and encoding the set
/// decoded from 32 bytes gives the bytes back.
pub proof fn law_ne_roundtrip(s: ByteSet, t: ByteSet, u: ByteSet, bytes: Seq<u8>)
    requires
        bytes.len() == 32,
        forall|k: int| 0 <= k < 4 ==> #[trigger] t.word(k) == ne_word(chunk_of(s.ne_encoding(), k)),
        forall|k: int| 0 <= k < 4 ==> #[trigger] u.word(k) == ne_word(chunk_of(bytes, k)),
    ensures
        t == s,
        u.ne_encoding() == bytes,
{
    assert forall|k: int| 0 <= k < 4 implies #[trigger] t.word(k) == s.word(k) by {
        lemma_word_bytes_roundtrip(s.word(k), chunk_of(bytes, k));
        assert(chunk_of(s.ne_encoding(), k) =~= ne_bytes(s.word(k)));
    }
    ByteSet::lemma_words_determine(t, s);
    assert forall|k: int| 0 <= k < 4 implies #[trigger] ne_bytes(u.word(k)) == chunk_of(bytes, k) by {
        lemma_word_bytes_roundtrip(u.word(k), chunk_of(bytes, k));
    }
    assert(u.ne_encoding() =~= bytes);
}

/// Each byte that `next` hands out lowers the count that `remaining`
/// reports by one.
pub proof fn law_next_lowers_remaining(before: ByteSetIter, after: ByteSetIter, b: u8)
    requires
        before.pending().contains(b),
        after.pending() == before.pending().remove(b),
    ensures
        before.pending().finite(),
        after.pending().len() + 1 == before.pending().len(),
{
    let s = before.source();
    s.lemma_len();
    vstd::set_lib::lemma_set_subset_finite(s@, before.pending());
}

/// Each byte is smaller than every byte after it.
pub open spec fn strictly_increasing(ys: Seq<u8>) -> bool {
    forall|i: int, j: int| 0 <= i < j < ys.len() ==> ys[i] < ys[j]
}

/// Successive calls of `next` took the cursor through `its[0]`, `its[1]`,
/// ... and the call from `its[i]` returned `Some(ys[i])`.
pub open spec fn handed_out<'a>(its: Seq<ByteSetIter<'a>>, ys: Seq<u8>) -> bool {
    &&& its.len() == ys.len() + 1
    &&& forall|i: int| 0 <= i < ys.len() ==> next_step(#[trigger] its[i], its[i + 1], Some(ys[i]))
}

/// The bytes still to come are finitely many.
pub proof fn law_pending_finite(it: ByteSetIter)
    ensures
        it.pending().finite(),
{
    it.source().lemma_len();
    vstd::set_lib::lemma_set_subset_finite(it.source()@, it.pending());
}

/// Calling `next` until it returns `None` hands out every byte still to
/// come exactly once, in increasing order: as many bytes as `remaining`
/// reported before the first call.
pub proof fn law_run_hands_out_pending<'a>(
    its: Seq<ByteSetIter<'a>>,
    ys: Seq<u8>,
    end: ByteSetIter<'a>,
)
    requires
        handed_out(its, ys),
        next_step(its.last(), end, None),
    ensures
        its[0].pending().finite(),
        strictly_increasing(ys),
        forall|b: u8| ys.contains(b) <==> its[0].pending().contains(b),
        ys.len() == its[0].pending().len(),
    decreases ys.len(),
{
    law_pending_finite(its[0]);
    if ys.len() == 0 {
        assert(its[0].pending() =~= Set::<u8>::empty());
    } else {
        let n = ys.len() as int;
        let tail_its = its.subrange(1, n + 1);
        let tail = ys.subrange(1, n);
        assert forall|i: int| 0 <= i < tail.len() implies next_step(
            #[trigger] tail_its[i],
            tail_its[i + 1],
            Some(tail[i]),
        ) by {
            assert(next_step(its[i + 1], its[i + 2], Some(ys[i + 1])));
        }
        assert(tail_its.last() == its.last());
        law_run_hands_out_pending(tail_its, tail, end);
        assert(next_step(its[0], its[1], Some(ys[0])));
        assert(tail_its[0] == its[1]);
        lemma_prepend_least(its[0].pending(), its[1].pending(), ys, tail);
    }
}

/// Putting the least byte of `p0` in front of an increasing listing of the
/// rest of `p0` gives an increasing listing of `p0`.
proof fn lemma_prepend_least(p0: Set<u8>, p1: Set<u8>, ys: Seq<u8>, tail: Seq<u8>)
    requires
        p0.finite(),
        ys.len() == tail.len() + 1,
        p0.contains(ys[0]),
        forall|c: u8| #[trigger] p0.contains(c) ==> ys[0] <= c,
        p1 == p0.remove(ys[0]),
        forall|i: int| 0 <= i < tail.len() ==> ys[i + 1] == #[trigger] tail[i],
        strictly_increasing(tail),
        forall|b: u8| tail.contains(b) <==> p1.contains(b),
        tail.len() == p1.len(),
    ensures
        strictly_increasing(ys),
        forall|b: u8| ys.contains(b) <==> p0.contains(b),
        ys.len() == p0.len(),
{
    let y = ys[0];
    assert forall|i: int, j: int| 0 <= i < j < ys.len() implies ys[i] < ys[j] by {
        assert(tail[j - 1] == ys[j]);
        if i == 0 {
            assert(tail.contains(ys[j]));
            assert(p1.contains(ys[j]));
        } else {
            assert(tail[i - 1] == ys[i]);
        }
    }
    assert forall|b: u8| ys.contains(b) <==> p0.contains(b) by {
        if ys.contains(b) {
            let i = choose|i: int| 0 <= i < ys.len() && ys[i] == b;
            if i > 0 {
                assert(tail[i - 1] == b);
                assert(tail.contains(b));
            }
        }
        if p0.contains(b) && b != y {
            assert(p1.contains(b));
            let i = choose|i: int| 0 <= i < tail.len() && tail[i] == b;
            assert(ys[i + 1] == b);
        }
    }
}

/// Iterating a set from `iter()` until `next` returns `None` hands out every
/// member exactly once, in increasing order.
pub proof fn law_iteration_hands_out_every_member<'a>(
    s: ByteSet,
    its: Seq<ByteSetIter<'a>>,
    ys: Seq<u8>,
    end: ByteSetIter<'a>,
)
    requires
        its.len() > 0,
        its[0].pending() == s@,
        handed_out(its, ys),
        next_step(its.last(), end, None),
    ensures
        strictly_increasing(ys),
        forall|b: u8| ys.contains(b) <==> s@.contains(b),
        ys.len() == s@.len(),
{
    law_run_hands_out_pending(its, ys, end);
}

/// After `iter()` and `k` calls of `next` that each handed out a byte, the
/// bytes still to come are the members not yet handed out, and `remaining`
/// (their number) is `len() - k`.
pub proof fn law_remaining_after_handing_out<'a>(
    s: ByteSet,
    its: Seq<ByteSetIter<'a>>,
    ys: Seq<u8>,
)
    requires
        its.len() > 0,
        its[0].pending() == s@,
        handed_out(its, ys),
    ensures
        s@.finite(),
        its.last().pending() == s@.difference(ys.to_set()),
        its.last().pending().len() == s@.len() - ys.len(),
    decreases ys.len(),
{
    s.lemma_len();
    if ys.len() == 0 {
        assert(ys.to_set() =~= Set::<u8>::empty());
        assert(s@.difference(ys.to_set()) =~= s@);
    } else {
        let k = ys.len() as int;
        let head_its = its.subrange(0, k);
        let head = ys.subrange(0, k - 1);
        assert forall|i: int| 0 <= i < head.len() implies next_step(
            #[trigger] head_its[i],
            head_its[i + 1],
            Some(head[i]),
        ) by {
            assert(next_step(its[i], its[i + 1], Some(ys[i])));
        }
        law_remaining_after_handing_out(s, head_its, head);
        let y = ys[k - 1];
        assert(next_step(its[k - 1], its[k], Some(y)));
        assert(head_its.last() == its[k - 1]);
        law_next_lowers_remaining(its[k - 1], its[k], y);
        assert(ys == head.push(y));
        head.lemma_push_to_set_commute(y);
        assert(its.last().pending() =~= s@.difference(ys.to_set()));
    }
}

} // verus!
