//! The byte set: 256 bits in four 64-bit words; byte `b` is bit `b % 64`
//! of word `b / 64`.
use vstd::prelude::*;
use core::ops::RangeInclusive;
use crate::trusted::{u64_from_ne_bytes, u64_to_ne_bytes};
use crate::encoding::{
    be_bytes, be_word, le_bytes, le_word, ne_bytes, ne_word, word_from_be_bytes,
    word_from_le_bytes, word_to_be_bytes, word_to_le_bytes,
};
use crate::bits::{
    after_mask, after_mask_spec, apply_mask, bit_of, bottom_mask, bottom_mask_spec,
    lemma_bit_masks, lemma_bit_ops, lemma_eq_iff_same_bits, lemma_low_ones_after_mask,
    lemma_low_ones_bound, lemma_zero_iff_no_bits, low_ones,
};

verus! {

/// A set of bytes (`u8` values), stored as a 256-bit mask.
#[derive(Clone, Copy, PartialEq, Eq, Structural, Debug, Hash)]
pub struct ByteSet(u64, u64, u64, u64);

/// The bytes `first ..= last`.
pub open spec fn byte_range(first: u8, last: u8) -> Set<u8> {
    Set::new(|b: u8| first <= b <= last)
}

/// The bytes that `range` covers, from its start to its end inclusive.
pub open spec fn range_set(range: RangeInclusive<u8>) -> Set<u8> {
    byte_range(range@.start, range@.end)
}

/// Whether `range` starts at or below its end.
pub open spec fn range_ok(range: RangeInclusive<u8>) -> bool {
    range@.start <= range@.end
}

/// The bytes of all the sets in `sets`.
pub open spec fn union_of(sets: Seq<ByteSet>) -> Set<u8>
    decreases sets.len(),
{
    if sets.len() == 0 {
        Set::empty()
    } else {
        union_of(sets.drop_last()).union(sets.last()@)
    }
}

/// The bytes that any of `ranges` covers.
pub open spec fn ranges_union(ranges: Seq<RangeInclusive<u8>>) -> Set<u8>
    decreases ranges.len(),
{
    if ranges.len() == 0 {
        Set::empty()
    } else {
        ranges_union(ranges.drop_last()).union(range_set(ranges.last()))
    }
}

/// Whether `c` is a character below 256 whose code is in `set`.
pub open spec fn char_in(set: Set<u8>, c: char) -> bool {
    (c as u32) < 256 && set.contains(c as u8)
}

/// The members of `set` that are `n` or above.
pub open spec fn at_or_above(set: Set<u8>, n: int) -> Set<u8> {
    set.filter(|b: u8| b >= n)
}

/// The 32 bytes `a`, then `b`, then `c`, then `d`.
fn concat_words(a: [u8; 8], b: [u8; 8], c: [u8; 8], d: [u8; 8]) -> (r: [u8; 32])
    ensures
        r@ == a@ + b@ + c@ + d@,
{
    let r = [
        a[0], a[1], a[2], a[3], a[4], a[5], a[6], a[7],
        b[0], b[1], b[2], b[3], b[4], b[5], b[6], b[7],
        c[0], c[1], c[2], c[3], c[4], c[5], c[6], c[7],
        d[0], d[1], d[2], d[3], d[4], d[5], d[6], d[7],
    ];
    assert(r@ =~= a@ + b@ + c@ + d@);
    r
}

/// Bytes `8 * k .. 8 * k + 8` of `bytes`.
fn chunk(bytes: &[u8; 32], k: usize) -> (r: [u8; 8])
    requires
        k < 4,
    ensures
        r@ == bytes@.subrange(8 * k, 8 * k + 8),
{
    let i = 8 * k;
    let r = [
        bytes[i], bytes[i + 1], bytes[i + 2], bytes[i + 3],
        bytes[i + 4], bytes[i + 5], bytes[i + 6], bytes[i + 7],
    ];
    assert(r@ =~= bytes@.subrange(8 * k, 8 * k + 8));
    r
}

/// Bytes `8 * k .. 8 * k + 8` of a 32-byte encoding: the encoding of word `k`.
pub open spec fn chunk_of(bytes: Seq<u8>, k: int) -> Seq<u8> {
    bytes.subrange(8 * k, 8 * k + 8)
}

/// The bytes in exactly one of `a` and `b`.
pub open spec fn sym_diff(a: Set<u8>, b: Set<u8>) -> Set<u8> {
    a.difference(b).union(b.difference(a))
}

impl ByteSet {
    /// Word `k` (for `k` in `0..4`) of the mask.
    pub closed spec fn word(self, k: int) -> u64 {
        if k == 0 {
            self.0
        } else if k == 1 {
            self.1
        } else if k == 2 {
            self.2
        } else {
            self.3
        }
    }

    /// The little-endian encoding: each word's bytes, least significant
    /// first, words in order.
    pub open spec fn le_encoding(self) -> Seq<u8> {
        le_bytes(self.word(0)) + le_bytes(self.word(1)) + le_bytes(self.word(2)) + le_bytes(
            self.word(3),
        )
    }

    /// The big-endian encoding: each word's bytes, most significant first,
    /// words in order.
    pub open spec fn be_encoding(self) -> Seq<u8> {
        be_bytes(self.word(0)) + be_bytes(self.word(1)) + be_bytes(self.word(2)) + be_bytes(
            self.word(3),
        )
    }

    /// The native encoding: each word's bytes in the byte order of the
    /// machine, words in order.
    pub open spec fn ne_encoding(self) -> Seq<u8> {
        ne_bytes(self.word(0)) + ne_bytes(self.word(1)) + ne_bytes(self.word(2)) + ne_bytes(
            self.word(3),
        )
    }

    /// Whether byte `b` belongs to the set: bit `b % 64` of word `b / 64`.
    pub open spec fn contains(self, b: u8) -> bool {
        bit_of(self.word(b as int / 64), (b % 64) as u64)
    }

    /// The four words, in order.
    pub open spec fn words(self) -> Seq<u64> {
        seq![self.word(0), self.word(1), self.word(2), self.word(3)]
    }

    /// Two byte sets with the same members have the same words.
    pub proof fn lemma_ext(a: ByteSet, b: ByteSet)
        requires
            a@ == b@,
        ensures
            a == b,
    {
        assert forall|k: int| 0 <= k < 4 implies a.word(k) == b.word(k) by {
            assert forall|i: u64| i < 64 implies #[trigger] bit_of(a.word(k), i) == bit_of(
                b.word(k),
                i,
            ) by {
                let c = (64 * k + i) as u8;
                assert(c as int / 64 == k && c % 64 == i);
                assert(a@.contains(c) == b@.contains(c));
                assert(a@.contains(c) == a.contains(c));
                assert(b@.contains(c) == b.contains(c));
                assert(a.contains(c) == bit_of(a.word(k), i));
            }
            lemma_eq_iff_same_bits(a.word(k), b.word(k));
        }
        assert(a.word(0) == b.word(0));
        assert(a.word(1) == b.word(1));
        assert(a.word(2) == b.word(2));
        assert(a.word(3) == b.word(3));
    }

    /// The four words determine the set.
    pub proof fn lemma_words_determine(a: ByteSet, b: ByteSet)
        requires
            forall|k: int| 0 <= k < 4 ==> #[trigger] a.word(k) == b.word(k),
        ensures
            a == b,
    {
        assert(a.word(0) == b.word(0) && a.word(1) == b.word(1) && a.word(2) == b.word(2)
            && a.word(3) == b.word(3));
    }

    /// Equal byte sets are equal masks, and the other way round.
    pub proof fn lemma_eq_iff_same_members(a: ByteSet, b: ByteSet)
        ensures
            a == b <==> a@ == b@,
    {
        if a@ == b@ {
            Self::lemma_ext(a, b);
        }
    }

    /// Word-wise `|` is set union.
    proof fn lemma_or_words(a: ByteSet, b: ByteSet, r: ByteSet)
        requires
            forall|k: int| 0 <= k < 4 ==> #[trigger] r.word(k) == a.word(k) | b.word(k),
        ensures
            r@ == a@.union(b@),
    {
        lemma_bit_ops();
        assert forall|c: u8| r.contains(c) == (a.contains(c) || b.contains(c)) by {
            assert(r.word(c as int / 64) == a.word(c as int / 64) | b.word(c as int / 64));
        }
        assert(r@ =~= a@.union(b@));
    }

    /// Word-wise `&` is set intersection.
    proof fn lemma_and_words(a: ByteSet, b: ByteSet, r: ByteSet)
        requires
            forall|k: int| 0 <= k < 4 ==> #[trigger] r.word(k) == a.word(k) & b.word(k),
        ensures
            r@ == a@.intersect(b@),
    {
        lemma_bit_ops();
        assert forall|c: u8| r.contains(c) == (a.contains(c) && b.contains(c)) by {
            assert(r.word(c as int / 64) == a.word(c as int / 64) & b.word(c as int / 64));
        }
        assert(r@ =~= a@.intersect(b@));
    }

    /// Word-wise `& !` is set difference.
    proof fn lemma_and_not_words(a: ByteSet, b: ByteSet, r: ByteSet)
        requires
            forall|k: int| 0 <= k < 4 ==> #[trigger] r.word(k) == a.word(k) & !b.word(k),
        ensures
            r@ == a@.difference(b@),
    {
        lemma_bit_ops();
        assert forall|c: u8| r.contains(c) == (a.contains(c) && !b.contains(c)) by {
            assert(r.word(c as int / 64) == a.word(c as int / 64) & !b.word(c as int / 64));
        }
        assert(r@ =~= a@.difference(b@));
    }

    /// Word-wise `^` is symmetric difference.
    proof fn lemma_xor_words(a: ByteSet, b: ByteSet, r: ByteSet)
        requires
            forall|k: int| 0 <= k < 4 ==> #[trigger] r.word(k) == a.word(k) ^ b.word(k),
        ensures
            r@ == sym_diff(a@, b@),
    {
        lemma_bit_ops();
        assert forall|c: u8| r.contains(c) == (a.contains(c) != b.contains(c)) by {
            assert(r.word(c as int / 64) == a.word(c as int / 64) ^ b.word(c as int / 64));
        }
        assert(r@ =~= sym_diff(a@, b@));
    }

    /// Word-wise `!` is set complement.
    proof fn lemma_not_words(a: ByteSet, r: ByteSet)
        requires
            forall|k: int| 0 <= k < 4 ==> #[trigger] r.word(k) == !a.word(k),
        ensures
            r@ == a@.complement(),
    {
        lemma_bit_ops();
        assert forall|c: u8| r.contains(c) == !a.contains(c) by {
            assert(r.word(c as int / 64) == !a.word(c as int / 64));
        }
        assert(r@ =~= a@.complement());
    }

    /// A set is empty exactly when all four words are zero.
    proof fn lemma_empty_iff_zero(r: ByteSet)
        ensures
            (r.0 == 0 && r.1 == 0 && r.2 == 0 && r.3 == 0) <==> r@ == Set::<u8>::empty(),
    {
        lemma_bit_ops();
        if r.0 == 0 && r.1 == 0 && r.2 == 0 && r.3 == 0 {
            assert forall|c: u8| !r.contains(c) by {
                assert(r.word(c as int / 64) == 0);
            }
            assert(r@ =~= Set::<u8>::empty());
        } else {
            let k: int = if r.0 != 0 {
                0
            } else if r.1 != 0 {
                1
            } else if r.2 != 0 {
                2
            } else {
                3
            };
            lemma_zero_iff_no_bits(r.word(k));
            let i = choose|i: u64| i < 64 && #[trigger] bit_of(r.word(k), i);
            let c = (64 * k + i) as u8;
            assert(c as int / 64 == k && c % 64 == i);
            assert(r@.contains(c));
        }
    }

    /// The number of members below `n`.
    spec fn count_below(self, n: nat) -> nat
        decreases n,
    {
        if n == 0 {
            0
        } else {
            self.count_below((n - 1) as nat) + if self.contains((n - 1) as u8) {
                1nat
            } else {
                0nat
            }
        }
    }

    /// The members below `n`.
    spec fn members_below(self, n: int) -> Set<u8> {
        Set::new(|b: u8| self.contains(b) && b < n)
    }

    /// The number of set bits in words `from .. to`.
    pub closed spec fn ones_between(self, from: int, to: int) -> nat
        decreases to - from,
    {
        if to <= from {
            0
        } else {
            self.ones_between(from, to - 1) + low_ones(self.word(to - 1), 64)
        }
    }

    proof fn lemma_members_below(self, n: nat)
        requires
            n <= 256,
        ensures
            self.members_below(n as int).finite(),
            self.members_below(n as int).len() == self.count_below(n),
        decreases n,
    {
        if n == 0 {
            assert(self.members_below(0) =~= Set::<u8>::empty());
        } else {
            let c = (n - 1) as u8;
            self.lemma_members_below((n - 1) as nat);
            if self.contains(c) {
                assert(self.members_below(n as int) =~= self.members_below(n - 1).insert(c));
            } else {
                assert(self.members_below(n as int) =~= self.members_below(n - 1));
            }
        }
    }

    proof fn lemma_ones_between_split(self, a: int, b: int, c: int)
        requires
            a <= b <= c,
        ensures
            self.ones_between(a, c) == self.ones_between(a, b) + self.ones_between(b, c),
        decreases c - b,
    {
        if b < c {
            self.lemma_ones_between_split(a, b, c - 1);
        }
    }

    proof fn lemma_count_words(self, k: nat, j: nat)
        requires
            k < 4,
            j <= 64,
        ensures
            self.count_below(64 * k + j) == self.ones_between(0, k as int) + low_ones(
                self.word(k as int),
                j,
            ),
        decreases k, j,
    {
        if j == 0 {
            if k > 0 {
                self.lemma_count_words((k - 1) as nat, 64);
            }
        } else {
            self.lemma_count_words(k, (j - 1) as nat);
            let c = (64 * k + j - 1) as u8;
            assert(c as int / 64 == k && c % 64 == j - 1);
        }
    }

    /// The set is finite and has as many members as set bits.
    pub(crate) proof fn lemma_len(self)
        ensures
            self@.finite(),
            self@.len() == self.ones_between(0, 4),
    {
        self.lemma_members_below(256);
        self.lemma_count_words(3, 64);
        assert(self.members_below(256) =~= self@);
    }

    /// Adding one more word adds its set bits.
    pub(crate) proof fn lemma_ones_between_step(self, a: int, b: int)
        requires
            a <= b,
        ensures
            self.ones_between(a, a) == 0,
            self.ones_between(a, b + 1) == self.ones_between(a, b) + low_ones(self.word(b), 64),
    {
    }

    /// The members at or above `64 * k + j` are the set bits of word `k` at
    /// or above `j`, and those of the words after `k`.
    pub(crate) proof fn lemma_len_at_or_above(self, k: int, j: u64)
        requires
            0 <= k < 4,
            j < 64,
        ensures
            at_or_above(self@, 64 * k + j).finite(),
            at_or_above(self@, 64 * k + j).len() == low_ones(
                self.word(k) & after_mask_spec(j),
                64,
            ) + self.ones_between(k + 1, 4),
    {
        let n = 64 * k + j;
        self.lemma_len();
        self.lemma_members_below(n as nat);
        self.lemma_count_words(k as nat, j as nat);
        self.lemma_ones_between_split(0, k, 4);
        self.lemma_ones_between_split(k, k + 1, 4);
        lemma_low_ones_after_mask(self.word(k), j, 64);
        let above = at_or_above(self@, n);
        let below = self.members_below(n);
        assert(above.subset_of(self@));
        vstd::set_lib::lemma_set_subset_finite(self@, above);
        assert(below.disjoint(above));
        assert(below.union(above) =~= self@);
        vstd::set_lib::lemma_set_disjoint_lens(below, above);
        assert(self.ones_between(k, k + 1) == low_ones(self.word(k), 64)) by {
            reveal_with_fuel(ByteSet::ones_between, 2);
        }
        assert(below.len() == self.ones_between(0, k) + low_ones(self.word(k), j as nat));
        assert(self@.len() == below.len() + above.len());
    }

    /// The set with the words of both sets or-ed together.
    pub closed spec fn union_value(self, other: ByteSet) -> ByteSet {
        ByteSet(self.0 | other.0, self.1 | other.1, self.2 | other.2, self.3 | other.3)
    }

    /// The set with the words of both sets and-ed together.
    pub closed spec fn intersect_value(self, other: ByteSet) -> ByteSet {
        ByteSet(self.0 & other.0, self.1 & other.1, self.2 & other.2, self.3 & other.3)
    }

    /// The set with the words of both sets xor-ed together.
    pub closed spec fn sym_diff_value(self, other: ByteSet) -> ByteSet {
        ByteSet(self.0 ^ other.0, self.1 ^ other.1, self.2 ^ other.2, self.3 ^ other.3)
    }

    /// The set with every word inverted.
    pub closed spec fn complement_value(self) -> ByteSet {
        ByteSet(!self.0, !self.1, !self.2, !self.3)
    }

    /// The members of the word-wise combinations.
    pub proof fn lemma_value_views(a: ByteSet, b: ByteSet)
        ensures
            a.union_value(b)@ == a@.union(b@),
            a.intersect_value(b)@ == a@.intersect(b@),
            a.sym_diff_value(b)@ == sym_diff(a@, b@),
            a.complement_value()@ == a@.complement(),
    {
        Self::lemma_or_words(a, b, a.union_value(b));
        Self::lemma_and_words(a, b, a.intersect_value(b));
        Self::lemma_xor_words(a, b, a.sym_diff_value(b));
        Self::lemma_not_words(a, a.complement_value());
    }

    /// A set with no bytes added.
    pub fn new() -> (r: Self)
        ensures
            r@ == Set::<u8>::empty(),
    {
        let r = ByteSet(0, 0, 0, 0);
        proof {
            lemma_bit_ops();
            assert(r@ =~= Set::<u8>::empty());
        }
        r
    }

    /// Word `index` of the mask.
    pub fn get_mask(&self, index: usize) -> (r: u64)
        requires
            index < 4,
        ensures
            r == self.word(index as int),
    {
        match index {
            0 => self.0,
            1 => self.1,
            2 => self.2,
            _ => self.3,
        }
    }

    /// Word 0 of the mask: bytes `0 ..= 63`.
    pub fn get_mask0(&self) -> (r: u64)
        ensures
            r == self.word(0),
    {
        self.0
    }

    /// Word 1 of the mask: bytes `64 ..= 127`.
    pub fn get_mask1(&self) -> (r: u64)
        ensures
            r == self.word(1),
    {
        self.1
    }

    /// Word 2 of the mask: bytes `128 ..= 191`.
    pub fn get_mask2(&self) -> (r: u64)
        ensures
            r == self.word(2),
    {
        self.2
    }

    /// Word 3 of the mask: bytes `192 ..= 255`.
    pub fn get_mask3(&self) -> (r: u64)
        ensures
            r == self.word(3),
    {
        self.3
    }

    fn set_mask(&mut self, index: usize, value: u64)
        requires
            index < 4,
        ensures
            final(self).word(index as int) == value,
            forall|k: int|
                0 <= k < 4 && k != index ==> #[trigger] final(self).word(k) == old(self).word(k),
    {
        match index {
            0 => self.0 = value,
            1 => self.1 = value,
            2 => self.2 = value,
            _ => self.3 = value,
        }
    }

    /// The set whose words are `array`, in order.
    pub fn from_array(array: [u64; 4]) -> (r: Self)
        ensures
            r.words() == array@,
    {
        let r = ByteSet(array[0], array[1], array[2], array[3]);
        assert(r.words() =~= array@);
        r
    }

    /// The four words, in order.
    pub fn to_array(self) -> (r: [u64; 4])
        ensures
            r@ == self.words(),
    {
        let r = [self.0, self.1, self.2, self.3];
        assert(r@ =~= self.words());
        r
    }

    /// Whether `bit` is in the set.
    pub fn has(&self, bit: u8) -> (r: bool)
        ensures
            r == self@.contains(bit),
    {
        let mask_index = bit as usize / 64;
        let bit_index = (bit % 64) as u64;
        let m = self.get_mask(mask_index) & (1u64 << bit_index);
        proof {
            lemma_bit_ops();
            lemma_bit_masks();
            lemma_zero_iff_no_bits(m);
            assert(bit_of(m, bit_index) == self@.contains(bit));
        }
        m != 0
    }
    fn internal_set_bit_to<const VALUE: bool>(&mut self, index: u8)
        ensures
            final(self)@ == if VALUE {
                old(self)@.insert(index)
            } else {
                old(self)@.remove(index)
            },
    {
        let mask_index = index as usize / 64;
        let bit_index = (index % 64) as u64;
        let m = self.get_mask(mask_index);
        if VALUE {
            self.set_mask(mask_index, m | (1u64 << bit_index));
        } else {
            self.set_mask(mask_index, m & !(1u64 << bit_index));
        }
        proof {
            lemma_bit_ops();
            lemma_bit_masks();
            let target = if VALUE {
                old(self)@.insert(index)
            } else {
                old(self)@.remove(index)
            };
            assert forall|c: u8| self.contains(c) == target.contains(c) by {
                if c as int / 64 == mask_index {
                    assert(c % 64 == bit_index ==> c == index);
                } else {
                    assert(self.word(c as int / 64) == old(self).word(c as int / 64));
                }
            }
            assert(self@ =~= target);
        }
    }

    /// Adds `byte` to the set.
    pub fn add_byte(&mut self, byte: u8)
        ensures
            final(self)@ == old(self)@.insert(byte),
    {
        self.internal_set_bit_to::<true>(byte);
    }

    /// Removes `byte` from the set.
    pub fn remove_byte(&mut self, byte: u8)
        ensures
            final(self)@ == old(self)@.remove(byte),
    {
        self.internal_set_bit_to::<false>(byte)
    }

    /// Adds every byte of `other` to this one.
    pub fn or_assign(&mut self, other: Self)
        ensures
            final(self)@ == old(self)@.union(other@),
    {
        self.0 = self.0 | other.get_mask0();
        self.1 = self.1 | other.get_mask1();
        self.2 = self.2 | other.get_mask2();
        self.3 = self.3 | other.get_mask3();
        proof {
            Self::lemma_or_words(*old(self), other, *self);
        }
    }

    /// Keeps only the bytes that are also in `other`.
    pub fn and_assign(&mut self, other: Self)
        ensures
            final(self)@ == old(self)@.intersect(other@),
    {
        self.0 = self.0 & other.get_mask0();
        self.1 = self.1 & other.get_mask1();
        self.2 = self.2 & other.get_mask2();
        self.3 = self.3 & other.get_mask3();
        proof {
            Self::lemma_and_words(*old(self), other, *self);
        }
    }

    /// Keeps the bytes that are in exactly one of the two sets.
    pub fn xor_assign(&mut self, other: Self)
        ensures
            final(self)@ == sym_diff(old(self)@, other@),
    {
        self.0 = self.0 ^ other.get_mask0();
        self.1 = self.1 ^ other.get_mask1();
        self.2 = self.2 ^ other.get_mask2();
        self.3 = self.3 ^ other.get_mask3();
        proof {
            Self::lemma_xor_words(*old(self), other, *self);
        }
    }

    /// Replaces the set by its complement among all 256 bytes.
    pub fn invert(&mut self)
        ensures
            final(self)@ == old(self)@.complement(),
    {
        self.0 = !self.0;
        self.1 = !self.1;
        self.2 = !self.2;
        self.3 = !self.3;
        proof {
            Self::lemma_not_words(*old(self), *self);
        }
    }

    /// Removes every byte of `set` from this one.
    pub fn remove_set(&mut self, set: Self)
        ensures
            final(self)@ == old(self)@.difference(set@),
    {
        self.0 = self.0 & !set.0;
        self.1 = self.1 & !set.1;
        self.2 = self.2 & !set.2;
        self.3 = self.3 & !set.3;
        proof {
            Self::lemma_and_not_words(*old(self), set, *self);
        }
    }
    /// Whether the set holds no byte.
    pub fn is_empty(&self) -> (r: bool)
        ensures
            r == (self@ == Set::<u8>::empty()),
    {
        proof {
            Self::lemma_empty_iff_zero(*self);
        }
        self.0 == 0 && self.1 == 0 && self.2 == 0 && self.3 == 0
    }

    /// Whether the set holds all 256 bytes.
    pub fn is_full(&self) -> (r: bool)
        ensures
            r == (self@ == Set::<u8>::full()),
    {
        proof {
            let inv = ByteSet(!self.0, !self.1, !self.2, !self.3);
            Self::lemma_not_words(*self, inv);
            Self::lemma_empty_iff_zero(inv);
            assert(forall|w: u64| (!w == 0) == (w == 0xffff_ffff_ffff_ffffu64)) by (bit_vector);
            if self@ == Set::<u8>::full() {
                assert(inv@ =~= Set::<u8>::empty());
            }
            if inv@ == Set::<u8>::empty() {
                assert forall|c: u8| self@.contains(c) by {
                    assert(!inv@.contains(c));
                }
                assert(self@ =~= Set::<u8>::full());
            }
        }
        self.0 == u64::MAX && self.1 == u64::MAX && self.2 == u64::MAX && self.3 == u64::MAX
    }

    /// Whether both sets hold the same bytes.
    pub fn eq(&self, other: &Self) -> (r: bool)
        ensures
            r == (self@ == other@),
    {
        proof {
            Self::lemma_eq_iff_same_members(*self, *other);
        }
        self.get_mask0() == other.get_mask0() && self.get_mask1() == other.get_mask1()
            && self.get_mask2() == other.get_mask2() && self.get_mask3() == other.get_mask3()
    }

    /// Whether the sets differ in some byte.
    pub fn ne(&self, other: &Self) -> (r: bool)
        ensures
            r == (self@ != other@),
    {
        proof {
            Self::lemma_eq_iff_same_members(*self, *other);
        }
        self.get_mask0() != other.get_mask0() || self.get_mask1() != other.get_mask1()
            || self.get_mask2() != other.get_mask2() || self.get_mask3() != other.get_mask3()
    }

    proof fn lemma_disjoint_iff(a: ByteSet, b: ByteSet)
        ensures
            (a.0 & b.0 == 0 && a.1 & b.1 == 0 && a.2 & b.2 == 0 && a.3 & b.3 == 0)
                <==> a@.disjoint(b@),
    {
        let m = ByteSet(a.0 & b.0, a.1 & b.1, a.2 & b.2, a.3 & b.3);
        Self::lemma_and_words(a, b, m);
        Self::lemma_empty_iff_zero(m);
        if a@.disjoint(b@) {
            assert(m@ =~= Set::<u8>::empty());
        }
        if m@ == Set::<u8>::empty() {
            assert forall|c: u8| a@.contains(c) implies !b@.contains(c) by {
                assert(!m@.contains(c));
            }
        }
    }

    /// Whether no byte is in both sets.
    pub fn is_disjoint(&self, other: &Self) -> (r: bool)
        ensures
            r == self@.disjoint(other@),
    {
        proof {
            Self::lemma_disjoint_iff(*self, *other);
        }
        0 == self.get_mask0() & other.get_mask0() && 0 == self.get_mask1() & other.get_mask1()
            && 0 == self.get_mask2() & other.get_mask2() && 0 == self.get_mask3()
            & other.get_mask3()
    }

    /// Whether some byte is in both sets.
    pub fn intersects(&self, other: &Self) -> (r: bool)
        ensures
            r == !self@.disjoint(other@),
    {
        proof {
            Self::lemma_disjoint_iff(*self, *other);
        }
        0 != self.get_mask0() & other.get_mask0() || 0 != self.get_mask1() & other.get_mask1()
            || 0 != self.get_mask2() & other.get_mask2() || 0 != self.get_mask3()
            & other.get_mask3()
    }

    /// `a & b == b` word-wise exactly when `b` is a subset of `a`.
    proof fn lemma_subset_iff(a: ByteSet, b: ByteSet)
        ensures
            (a.0 & b.0 == b.0 && a.1 & b.1 == b.1 && a.2 & b.2 == b.2 && a.3 & b.3 == b.3)
                <==> b@.subset_of(a@),
            (b.0 & a.0 == b.0 && b.1 & a.1 == b.1 && b.2 & a.2 == b.2 && b.3 & a.3 == b.3)
                <==> b@.subset_of(a@),
    {
        let m = ByteSet(b.0 & !a.0, b.1 & !a.1, b.2 & !a.2, b.3 & !a.3);
        Self::lemma_and_not_words(b, a, m);
        Self::lemma_empty_iff_zero(m);
        assert(forall|x: u64, y: u64| (x & y == y) == (y & !x == 0)) by (bit_vector);
        assert(forall|x: u64, y: u64| (y & x == y) == (y & !x == 0)) by (bit_vector);
        if b@.subset_of(a@) {
            assert(m@ =~= Set::<u8>::empty());
        }
        if m@ == Set::<u8>::empty() {
            assert forall|c: u8| b@.contains(c) implies a@.contains(c) by {
                assert(!m@.contains(c));
            }
        }
    }

    /// Whether every byte of `other` is in this set.
    pub fn is_superset(&self, other: &Self) -> (r: bool)
        ensures
            r == other@.subset_of(self@),
    {
        proof {
            Self::lemma_subset_iff(*self, *other);
        }
        self.get_mask0() & other.get_mask0() == other.get_mask0() && self.get_mask1()
            & other.get_mask1() == other.get_mask1() && self.get_mask2() & other.get_mask2()
            == other.get_mask2() && self.get_mask3() & other.get_mask3() == other.get_mask3()
    }

    /// Whether every byte of this set is in `other`.
    pub fn is_subset(&self, other: &Self) -> (r: bool)
        ensures
            r == self@.subset_of(other@),
    {
        proof {
            Self::lemma_subset_iff(*other, *self);
        }
        self.get_mask0() & other.get_mask0() == self.get_mask0() && self.get_mask1()
            & other.get_mask1() == self.get_mask1() && self.get_mask2() & other.get_mask2()
            == self.get_mask2() && self.get_mask3() & other.get_mask3() == self.get_mask3()
    }
    fn internal_set_range<const VALUE: bool>(&mut self, first: u8, last: u8)
        requires
            first <= last,
        ensures
            final(self)@ == if VALUE {
                old(self)@.union(byte_range(first, last))
            } else {
                old(self)@.difference(byte_range(first, last))
            },
    {
        let mut mask_index = first as u32 / 64;
        let first_bit_index = first as u32 % 64;
        let first_mask = after_mask(first_bit_index);

        let last_mask_index = last as u32 / 64;
        let last_bit_index = last as u32 % 64;
        let last_mask = bottom_mask(last_bit_index);

        let ghost fw = mask_index as int;
        let ghost lw = last_mask_index as int;
        let ghost target = if VALUE {
            old(self)@.union(byte_range(first, last))
        } else {
            old(self)@.difference(byte_range(first, last))
        };
        proof {
            lemma_bit_ops();
            lemma_bit_masks();
        }

        if mask_index == last_mask_index {
            let comb_mask = first_mask & last_mask;
            let m = self.get_mask(mask_index as usize);
            if VALUE {
                self.set_mask(mask_index as usize, m | comb_mask);
            } else {
                self.set_mask(mask_index as usize, m & !comb_mask);
            }
            proof {
                assert forall|c: u8| self.contains(c) == target.contains(c) by {
                    if c as int / 64 != fw {
                        assert(self.word(c as int / 64) == old(self).word(c as int / 64));
                    }
                }
                assert(self@ =~= target);
            }
            return ;
        }
        let m = self.get_mask(mask_index as usize);
        if VALUE {
            self.set_mask(mask_index as usize, m | first_mask);
        } else {
            self.set_mask(mask_index as usize, m & !first_mask);
        }
        let m = self.get_mask(last_mask_index as usize);
        if VALUE {
            self.set_mask(last_mask_index as usize, m | last_mask);
        } else {
            self.set_mask(last_mask_index as usize, m & !last_mask);
        }

        mask_index += 1;
        while mask_index < last_mask_index
            invariant
                fw < mask_index <= lw < 4,
                lw == last_mask_index,
                fw == first as int / 64,
                lw == last as int / 64,
                first_mask == after_mask_spec((first % 64) as u64),
                last_mask == bottom_mask_spec((last % 64) as u64),
                self.word(fw) == apply_mask(VALUE, old(self).word(fw), first_mask),
                self.word(lw) == apply_mask(VALUE, old(self).word(lw), last_mask),
                forall|k: int|
                    fw < k < mask_index ==> #[trigger] self.word(k) == apply_mask(
                        VALUE,
                        old(self).word(k),
                        u64::MAX,
                    ),
                forall|k: int|
                    0 <= k < 4 && (k < fw || mask_index <= k) && k != lw ==> #[trigger] self.word(
                        k,
                    ) == old(self).word(k),
            decreases last_mask_index - mask_index,
        {
            let ghost before = *self;
            if VALUE {
                self.set_mask(mask_index as usize, u64::MAX);
            } else {
                self.set_mask(mask_index as usize, 0);
            }
            proof {
                let w = old(self).word(mask_index as int);
                assert(w | 0xffff_ffff_ffff_ffffu64 == 0xffff_ffff_ffff_ffffu64) by (bit_vector);
                assert(w & !0xffff_ffff_ffff_ffffu64 == 0) by (bit_vector);
                assert forall|k: int| fw < k < mask_index + 1 implies #[trigger] self.word(k)
                    == apply_mask(VALUE, old(self).word(k), u64::MAX) by {
                    if k < mask_index {
                        assert(self.word(k) == before.word(k));
                    }
                }
            }
            mask_index += 1;
        }
        proof {
            assert forall|c: u8| self.contains(c) == target.contains(c) by {
                let k = c as int / 64;
                let i = (c % 64) as u64;
                if k < fw || k > lw {
                    assert(self.word(k) == old(self).word(k));
                } else if k == fw {
                } else if k == lw {
                } else {
                    assert(self.word(k) == apply_mask(VALUE, old(self).word(k), u64::MAX));
                }
            }
            assert(self@ =~= target);
        }
    }
    fn copy_range(range: &RangeInclusive<u8>) -> (r: RangeInclusive<u8>)
        ensures
            r@.start == range@.start,
            r@.end == range@.end,
    {
        *range.start()..=*range.end()
    }

    /// Adds every byte of `set` to this one.
    pub fn add_set(&mut self, set: Self)
        ensures
            final(self)@ == old(self)@.union(set@),
    {
        self.or_assign(set);
    }

    /// Adds the bytes of every set in `sets`.
    pub fn add_sets(&mut self, sets: &[Self])
        ensures
            final(self)@ == old(self)@.union(union_of(sets@)),
    {
        let mut index: usize = 0;
        while index < sets.len()
            invariant
                index <= sets.len(),
                self@ == old(self)@.union(union_of(sets@.take(index as int))),
            decreases sets.len() - index,
        {
            self.add_set(sets[index]);
            proof {
                assert(sets@.take(index + 1).drop_last() == sets@.take(index as int));
                assert(self@ =~= old(self)@.union(union_of(sets@.take(index + 1))));
            }
            index += 1;
        }
        assert(sets@.take(sets.len() as int) == sets@);
    }

    /// Removes the bytes of every set in `sets`.
    pub fn remove_sets(&mut self, sets: &[Self])
        ensures
            final(self)@ == old(self)@.difference(union_of(sets@)),
    {
        let mut index: usize = 0;
        while index < sets.len()
            invariant
                index <= sets.len(),
                self@ == old(self)@.difference(union_of(sets@.take(index as int))),
            decreases sets.len() - index,
        {
            self.remove_set(sets[index]);
            proof {
                assert(sets@.take(index + 1).drop_last() == sets@.take(index as int));
                assert(self@ =~= old(self)@.difference(union_of(sets@.take(index + 1))));
            }
            index += 1;
        }
        assert(sets@.take(sets.len() as int) == sets@);
    }

    /// The union of all the sets in `sets`.
    pub fn union(sets: &[Self]) -> (r: Self)
        ensures
            r@ == union_of(sets@),
    {
        let mut builder = Self::new();
        let mut index: usize = 0;
        while index < sets.len()
            invariant
                index <= sets.len(),
                builder@ == union_of(sets@.take(index as int)),
            decreases sets.len() - index,
        {
            builder.or_assign(sets[index]);
            proof {
                assert(sets@.take(index + 1).drop_last() == sets@.take(index as int));
            }
            index += 1;
        }
        assert(sets@.take(sets.len() as int) == sets@);
        builder
    }

    fn internal_set_bytes<const VALUE: bool>(&mut self, bytes: &[u8])
        ensures
            final(self)@ == if VALUE {
                old(self)@.union(bytes@.to_set())
            } else {
                old(self)@.difference(bytes@.to_set())
            },
    {
        let mut index: usize = 0;
        while index < bytes.len()
            invariant
                index <= bytes.len(),
                self@ == if VALUE {
                    old(self)@.union(bytes@.take(index as int).to_set())
                } else {
                    old(self)@.difference(bytes@.take(index as int).to_set())
                },
            decreases bytes.len() - index,
        {
            let c = bytes[index];
            self.internal_set_bit_to::<VALUE>(c);
            proof {
                let before = bytes@.take(index as int);
                let after = bytes@.take(index + 1);
                assert(after == before.push(c));
                assert(after.to_set() =~= before.to_set().insert(c)) by {
                    assert forall|x: u8| after.to_set().contains(x) == before.to_set().insert(
                        c,
                    ).contains(x) by {
                        if x == c {
                            assert(after[index as int] == c);
                        }
                        if before.contains(x) {
                            let j = choose|j: int| 0 <= j < before.len() && before[j] == x;
                            assert(after[j] == x);
                        }
                        if after.contains(x) && x != c {
                            let j = choose|j: int| 0 <= j < after.len() && after[j] == x;
                            assert(before[j] == x);
                        }
                    }
                }
                if VALUE {
                    assert(self@ =~= old(self)@.union(after.to_set()));
                } else {
                    assert(self@ =~= old(self)@.difference(after.to_set()));
                }
            }
            index += 1;
        }
        assert(bytes@.take(bytes.len() as int) == bytes@);
    }

    /// Adds every byte in `bytes`.
    pub fn add_bytes(&mut self, bytes: &[u8])
        ensures
            final(self)@ == old(self)@.union(bytes@.to_set()),
    {
        self.internal_set_bytes::<true>(bytes);
    }

    /// Removes every byte in `bytes`.
    pub fn remove_bytes(&mut self, bytes: &[u8])
        ensures
            final(self)@ == old(self)@.difference(bytes@.to_set()),
    {
        self.internal_set_bytes::<false>(bytes);
    }

    /// Adds `byte` when `value` holds, removes it otherwise.
    pub fn set_byte(&mut self, byte: u8, value: bool)
        ensures
            final(self)@ == if value {
                old(self)@.insert(byte)
            } else {
                old(self)@.remove(byte)
            },
    {
        if value {
            self.add_byte(byte);
        } else {
            self.remove_byte(byte);
        }
    }

    /// Adds the bytes in `bytes` when `value` holds, removes them otherwise.
    pub fn set_bytes(&mut self, bytes: &[u8], value: bool)
        ensures
            final(self)@ == if value {
                old(self)@.union(bytes@.to_set())
            } else {
                old(self)@.difference(bytes@.to_set())
            },
    {
        if value {
            self.add_bytes(bytes);
        } else {
            self.remove_bytes(bytes);
        }
    }

    /// Adds every byte from the start of `range` to its end.
    pub fn add_range(&mut self, range: RangeInclusive<u8>)
        requires
            range_ok(range),
        ensures
            final(self)@ == old(self)@.union(range_set(range)),
    {
        self.internal_set_range::<true>(*range.start(), *range.end());
    }

    /// Removes every byte from the start of `range` to its end.
    pub fn remove_range(&mut self, range: RangeInclusive<u8>)
        requires
            range_ok(range),
        ensures
            final(self)@ == old(self)@.difference(range_set(range)),
    {
        self.internal_set_range::<false>(*range.start(), *range.end());
    }

    /// Adds the bytes of every range in `ranges`.
    pub fn add_ranges(&mut self, ranges: &[RangeInclusive<u8>])
        requires
            forall|i: int| 0 <= i < ranges@.len() ==> range_ok(#[trigger] ranges@[i]),
        ensures
            final(self)@ == old(self)@.union(ranges_union(ranges@)),
    {
        let mut index: usize = 0;
        while index < ranges.len()
            invariant
                index <= ranges.len(),
                forall|i: int| 0 <= i < ranges@.len() ==> range_ok(#[trigger] ranges@[i]),
                self@ == old(self)@.union(ranges_union(ranges@.take(index as int))),
            decreases ranges.len() - index,
        {
            self.add_range(Self::copy_range(&ranges[index]));
            proof {
                assert(ranges@.take(index + 1).drop_last() == ranges@.take(index as int));
                assert(self@ =~= old(self)@.union(ranges_union(ranges@.take(index + 1))));
            }
            index += 1;
        }
        assert(ranges@.take(ranges.len() as int) == ranges@);
    }

    /// Removes the bytes of every range in `ranges`.
    pub fn remove_ranges(&mut self, ranges: &[RangeInclusive<u8>])
        requires
            forall|i: int| 0 <= i < ranges@.len() ==> range_ok(#[trigger] ranges@[i]),
        ensures
            final(self)@ == old(self)@.difference(ranges_union(ranges@)),
    {
        let mut index: usize = 0;
        while index < ranges.len()
            invariant
                index <= ranges.len(),
                forall|i: int| 0 <= i < ranges@.len() ==> range_ok(#[trigger] ranges@[i]),
                self@ == old(self)@.difference(ranges_union(ranges@.take(index as int))),
            decreases ranges.len() - index,
        {
            self.remove_range(Self::copy_range(&ranges[index]));
            proof {
                assert(ranges@.take(index + 1).drop_last() == ranges@.take(index as int));
                assert(self@ =~= old(self)@.difference(ranges_union(ranges@.take(index + 1))));
            }
            index += 1;
        }
        assert(ranges@.take(ranges.len() as int) == ranges@);
    }

    /// Adds the bytes of `range` when `value` holds, removes them otherwise.
    pub fn set_range(&mut self, range: RangeInclusive<u8>, value: bool)
        requires
            range_ok(range),
        ensures
            final(self)@ == if value {
                old(self)@.union(range_set(range))
            } else {
                old(self)@.difference(range_set(range))
            },
    {
        if value {
            self.add_range(range);
        } else {
            self.remove_range(range);
        }
    }
    /// The set of the bytes in `bytes`.
    pub fn from_bytes(bytes: &[u8]) -> (r: Self)
        ensures
            r@ == bytes@.to_set(),
    {
        Self::new().with_bytes(bytes)
    }

    /// The set of the bytes from the start of `range` to its end.
    pub fn from_range(range: RangeInclusive<u8>) -> (r: Self)
        requires
            range_ok(range),
        ensures
            r@ == range_set(range),
    {
        Self::new().with_range(range)
    }

    /// This set with the bytes of `set` added.
    pub fn with_set(self, set: Self) -> (r: Self)
        ensures
            r@ == self@.union(set@),
    {
        let mut r = self;
        r.add_set(set);
        r
    }

    /// This set with the bytes of `set` removed.
    pub fn without_set(self, set: Self) -> (r: Self)
        ensures
            r@ == self@.difference(set@),
    {
        let mut r = self;
        r.remove_set(set);
        r
    }

    /// This set with the bytes of every set in `sets` added.
    pub fn with_sets(self, sets: &[Self]) -> (r: Self)
        ensures
            r@ == self@.union(union_of(sets@)),
    {
        let mut r = self;
        r.add_sets(sets);
        r
    }

    /// This set with the bytes of every set in `sets` removed.
    pub fn without_sets(self, sets: &[Self]) -> (r: Self)
        ensures
            r@ == self@.difference(union_of(sets@)),
    {
        let mut r = self;
        r.remove_sets(sets);
        r
    }

    /// This set with `byte` added.
    pub fn with_byte(self, byte: u8) -> (r: Self)
        ensures
            r@ == self@.insert(byte),
    {
        let mut r = self;
        r.add_byte(byte);
        r
    }

    /// This set with `byte` removed.
    pub fn without_byte(self, byte: u8) -> (r: Self)
        ensures
            r@ == self@.remove(byte),
    {
        let mut r = self;
        r.remove_byte(byte);
        r
    }

    /// This set with every byte in `bytes` added.
    pub fn with_bytes(self, bytes: &[u8]) -> (r: Self)
        ensures
            r@ == self@.union(bytes@.to_set()),
    {
        let mut r = self;
        r.add_bytes(bytes);
        r
    }

    /// This set with every byte in `bytes` removed.
    pub fn without_bytes(self, bytes: &[u8]) -> (r: Self)
        ensures
            r@ == self@.difference(bytes@.to_set()),
    {
        let mut r = self;
        r.remove_bytes(bytes);
        r
    }

    /// This set with the bytes of `range` added.
    pub fn with_range(self, range: RangeInclusive<u8>) -> (r: Self)
        requires
            range_ok(range),
        ensures
            r@ == self@.union(range_set(range)),
    {
        let mut r = self;
        r.add_range(range);
        r
    }

    /// This set with the bytes of `range` removed.
    pub fn without_range(self, range: RangeInclusive<u8>) -> (r: Self)
        requires
            range_ok(range),
        ensures
            r@ == self@.difference(range_set(range)),
    {
        let mut r = self;
        r.remove_range(range);
        r
    }

    /// This set with the bytes of every range in `ranges` added.
    pub fn with_ranges(self, ranges: &[RangeInclusive<u8>]) -> (r: Self)
        requires
            forall|i: int| 0 <= i < ranges@.len() ==> range_ok(#[trigger] ranges@[i]),
        ensures
            r@ == self@.union(ranges_union(ranges@)),
    {
        let mut r = self;
        r.add_ranges(ranges);
        r
    }

    /// This set with the bytes of every range in `ranges` removed.
    pub fn without_ranges(self, ranges: &[RangeInclusive<u8>]) -> (r: Self)
        requires
            forall|i: int| 0 <= i < ranges@.len() ==> range_ok(#[trigger] ranges@[i]),
        ensures
            r@ == self@.difference(ranges_union(ranges@)),
    {
        let mut r = self;
        r.remove_ranges(ranges);
        r
    }

    /// The bytes of this set that lie in `range`.
    pub fn range_subset(self, range: RangeInclusive<u8>) -> (r: Self)
        requires
            range_ok(range),
        ensures
            r@ == self@.intersect(range_set(range)),
    {
        self.and(ByteSet::from_range(range))
    }

    /// The bytes in either set.
    pub fn or(self, other: Self) -> (r: Self)
        ensures
            r@ == self@.union(other@),
    {
        let mut r = self;
        r.or_assign(other);
        r
    }

    /// The bytes in both sets.
    pub fn and(self, other: Self) -> (r: Self)
        ensures
            r@ == self@.intersect(other@),
    {
        let mut r = self;
        r.and_assign(other);
        r
    }

    /// The bytes in exactly one of the two sets.
    pub fn xor(self, other: Self) -> (r: Self)
        ensures
            r@ == sym_diff(self@, other@),
    {
        let mut r = self;
        r.xor_assign(other);
        r
    }

    /// The bytes not in this set.
    pub fn inverted(self) -> (r: Self)
        ensures
            r@ == self@.complement(),
    {
        let mut r = self;
        r.invert();
        r
    }

    /// Whether some byte of `bytes` is in the set.
    pub fn has_any(&self, bytes: &[u8]) -> (r: bool)
        ensures
            r == exists|i: int| 0 <= i < bytes@.len() && self@.contains(#[trigger] bytes@[i]),
    {
        let mut index: usize = 0;
        while index < bytes.len()
            invariant
                index <= bytes.len(),
                forall|i: int| 0 <= i < index ==> !self@.contains(#[trigger] bytes@[i]),
            decreases bytes.len() - index,
        {
            if self.has(bytes[index]) {
                return true;
            }
            index += 1;
        }
        false
    }

    /// Whether every byte of `bytes` is in the set.
    pub fn has_all(&self, bytes: &[u8]) -> (r: bool)
        ensures
            r == forall|i: int| 0 <= i < bytes@.len() ==> self@.contains(#[trigger] bytes@[i]),
    {
        let mut index: usize = 0;
        while index < bytes.len()
            invariant
                index <= bytes.len(),
                forall|i: int| 0 <= i < index ==> self@.contains(#[trigger] bytes@[i]),
            decreases bytes.len() - index,
        {
            if !self.has(bytes[index]) {
                return false;
            }
            index += 1;
        }
        true
    }

    /// Whether the set holds some but not all of `bytes`.
    pub fn has_some(&self, bytes: &[u8]) -> (r: bool)
        ensures
            r == ((exists|i: int| 0 <= i < bytes@.len() && self@.contains(#[trigger] bytes@[i]))
                && (exists|i: int| 0 <= i < bytes@.len() && !self@.contains(#[trigger] bytes@[i]))),
    {
        let mut missing = false;
        let mut found = false;
        let mut index: usize = 0;
        while index < bytes.len()
            invariant
                index <= bytes.len(),
                !(missing && found),
                found == exists|i: int| 0 <= i < index && self@.contains(#[trigger] bytes@[i]),
                missing == exists|i: int| 0 <= i < index && !self@.contains(#[trigger] bytes@[i]),
            decreases bytes.len() - index,
        {
            if self.has(bytes[index]) {
                if missing {
                    return true;
                }
                found = true;
            } else {
                if found {
                    return true;
                }
                missing = true;
            }
            index += 1;
        }
        false
    }
    /// Whether `c` is below 256 and its code is in the set.
    pub fn has_char(&self, c: char) -> (r: bool)
        ensures
            r == char_in(self@, c),
    {
        (c as u32) < 256 && self.has(c as u8)
    }

    /// Whether some character of `chars` is in the set.
    pub fn has_any_char(&self, chars: &[char]) -> (r: bool)
        ensures
            r == exists|i: int| 0 <= i < chars@.len() && char_in(self@, #[trigger] chars@[i]),
    {
        let mut index: usize = 0;
        while index < chars.len()
            invariant
                index <= chars.len(),
                forall|i: int| 0 <= i < index ==> !char_in(self@, #[trigger] chars@[i]),
            decreases chars.len() - index,
        {
            if self.has_char(chars[index]) {
                return true;
            }
            index += 1;
        }
        false
    }

    /// Whether every character of `chars` is in the set.
    pub fn has_all_chars(&self, chars: &[char]) -> (r: bool)
        ensures
            r == forall|i: int| 0 <= i < chars@.len() ==> char_in(self@, #[trigger] chars@[i]),
    {
        let mut index: usize = 0;
        while index < chars.len()
            invariant
                index <= chars.len(),
                forall|i: int| 0 <= i < index ==> char_in(self@, #[trigger] chars@[i]),
            decreases chars.len() - index,
        {
            if !self.has_char(chars[index]) {
                return false;
            }
            index += 1;
        }
        true
    }

    /// Whether the set holds some but not all of `chars`.
    pub fn has_some_chars(&self, chars: &[char]) -> (r: bool)
        ensures
            r == ((exists|i: int| 0 <= i < chars@.len() && char_in(self@, #[trigger] chars@[i]))
                && (exists|i: int| 0 <= i < chars@.len() && !char_in(self@, #[trigger] chars@[i]))),
    {
        let mut missing = false;
        let mut found = false;
        let mut index: usize = 0;
        while index < chars.len()
            invariant
                index <= chars.len(),
                !(missing && found),
                found == exists|i: int| 0 <= i < index && char_in(self@, #[trigger] chars@[i]),
                missing == exists|i: int| 0 <= i < index && !char_in(self@, #[trigger] chars@[i]),
            decreases chars.len() - index,
        {
            if self.has_char(chars[index]) {
                if missing {
                    return true;
                }
                found = true;
            } else {
                if found {
                    return true;
                }
                missing = true;
            }
            index += 1;
        }
        false
    }
    /// The number of bytes in the set.
    pub fn len(&self) -> (r: usize)
        ensures
            self@.finite(),
            r == self@.len(),
    {
        proof {
            self.lemma_len();
            lemma_low_ones_bound(self.0, 64);
            lemma_low_ones_bound(self.1, 64);
            lemma_low_ones_bound(self.2, 64);
            lemma_low_ones_bound(self.3, 64);
            reveal_with_fuel(ByteSet::ones_between, 5);
            assert(self.ones_between(0, 4) == low_ones(self.0, 64) + low_ones(self.1, 64)
                + low_ones(self.2, 64) + low_ones(self.3, 64));
        }
        (self.0.count_ones() + self.1.count_ones() + self.2.count_ones() + self.3.count_ones()) as usize
    }
    /// The 32 bytes of the mask in the byte order of the machine.
    pub fn to_ne_bytes(&self) -> (r: [u8; 32])
        ensures
            r@ == self.ne_encoding(),
    {
        concat_words(
            u64_to_ne_bytes(self.get_mask0()),
            u64_to_ne_bytes(self.get_mask1()),
            u64_to_ne_bytes(self.get_mask2()),
            u64_to_ne_bytes(self.get_mask3()),
        )
    }

    /// The 32 bytes of the mask, each word least significant byte first.
    pub fn to_le_bytes(&self) -> (r: [u8; 32])
        ensures
            r@ == self.le_encoding(),
    {
        concat_words(
            word_to_le_bytes(self.get_mask0()),
            word_to_le_bytes(self.get_mask1()),
            word_to_le_bytes(self.get_mask2()),
            word_to_le_bytes(self.get_mask3()),
        )
    }

    /// The 32 bytes of the mask, each word most significant byte first.
    pub fn to_be_bytes(&self) -> (r: [u8; 32])
        ensures
            r@ == self.be_encoding(),
    {
        concat_words(
            word_to_be_bytes(self.get_mask0()),
            word_to_be_bytes(self.get_mask1()),
            word_to_be_bytes(self.get_mask2()),
            word_to_be_bytes(self.get_mask3()),
        )
    }

    /// The set whose mask has the 32 bytes `bytes` in the byte order of the
    /// machine.
    pub fn from_ne_bytes(bytes: [u8; 32]) -> (r: Self)
        ensures
            forall|k: int| 0 <= k < 4 ==> #[trigger] r.word(k) == ne_word(chunk_of(bytes@, k)),
    {
        ByteSet(
            u64_from_ne_bytes(chunk(&bytes, 0)),
            u64_from_ne_bytes(chunk(&bytes, 1)),
            u64_from_ne_bytes(chunk(&bytes, 2)),
            u64_from_ne_bytes(chunk(&bytes, 3)),
        )
    }

    /// The set whose mask has the 32 bytes `bytes`, each word least
    /// significant byte first.
    pub fn from_le_bytes(bytes: [u8; 32]) -> (r: Self)
        ensures
            forall|k: int| 0 <= k < 4 ==> #[trigger] r.word(k) == le_word(chunk_of(bytes@, k)),
    {
        ByteSet(
            word_from_le_bytes(chunk(&bytes, 0)),
            word_from_le_bytes(chunk(&bytes, 1)),
            word_from_le_bytes(chunk(&bytes, 2)),
            word_from_le_bytes(chunk(&bytes, 3)),
        )
    }

    /// The set whose mask has the 32 bytes `bytes`, each word most
    /// significant byte first.
    pub fn from_be_bytes(bytes: [u8; 32]) -> (r: Self)
        ensures
            forall|k: int| 0 <= k < 4 ==> #[trigger] r.word(k) == be_word(chunk_of(bytes@, k)),
    {
        ByteSet(
            word_from_be_bytes(chunk(&bytes, 0)),
            word_from_be_bytes(chunk(&bytes, 1)),
            word_from_be_bytes(chunk(&bytes, 2)),
            word_from_be_bytes(chunk(&bytes, 3)),
        )
    }
    /// The bytes `b'a' ..= b'z'`.
    pub fn ascii_lowercase() -> (r: Self)
        ensures
            r@ == byte_range(97u8, 122u8),
    {
        Self::from_range(97u8..=122u8)
    }

    /// The bytes `b'A' ..= b'Z'`.
    pub fn ascii_uppercase() -> (r: Self)
        ensures
            r@ == byte_range(65u8, 90u8),
    {
        Self::from_range(65u8..=90u8)
    }

    /// The lowercase and uppercase ASCII letters.
    pub fn ascii_letters() -> (r: Self)
        ensures
            r@ == byte_range(97u8, 122u8).union(byte_range(65u8, 90u8)),
    {
        let sets = [Self::ascii_lowercase(), Self::ascii_uppercase()];
        let r = Self::union(&sets);
        proof {
            reveal_with_fuel(union_of, 3);
            assert(sets@.drop_last().drop_last() =~= Seq::<ByteSet>::empty());
            assert(r@ =~= byte_range(97u8, 122u8).union(byte_range(65u8, 90u8)));
        }
        r
    }

    /// The bytes `b'0' ..= b'9'`.
    pub fn ascii_digits() -> (r: Self)
        ensures
            r@ == byte_range(48u8, 57u8),
    {
        Self::from_range(48u8..=57u8)
    }

    /// The bytes `b'a' ..= b'f'`, `b'A' ..= b'F'` and `b'0' ..= b'9'`.
    pub fn hex_digits() -> (r: Self)
        ensures
            r@ == byte_range(97u8, 102u8).union(byte_range(65u8, 70u8)).union(
                byte_range(48u8, 57u8),
            ),
    {
        let r = Self::new().with_range(97u8..=102u8).with_range(65u8..=70u8).with_range(48u8..=57u8);
        assert(r@ =~= byte_range(97u8, 102u8).union(byte_range(65u8, 70u8)).union(
            byte_range(48u8, 57u8),
        ));
        r
    }

    /// The bytes `b'0' ..= b'7'`.
    pub fn octal_digits() -> (r: Self)
        ensures
            r@ == byte_range(48u8, 55u8),
    {
        Self::from_range(48u8..=55u8)
    }

    /// The bytes `b'\t' ..= b'\r'` and `b' ' ..= b'~'`.
    pub fn ascii_printable() -> (r: Self)
        ensures
            r@ == byte_range(9u8, 13u8).union(byte_range(32u8, 126u8)),
    {
        let r = Self::new().with_range(9u8..=13u8).with_range(32u8..=126u8);
        assert(r@ =~= byte_range(9u8, 13u8).union(byte_range(32u8, 126u8)));
        r
    }

    /// Every byte not in [`ByteSet::ascii_printable`].
    pub fn ascii_non_printable() -> (r: Self)
        ensures
            r@ == byte_range(9u8, 13u8).union(byte_range(32u8, 126u8)).complement(),
    {
        Self::ascii_printable().inverted()
    }

    /// The bytes `b'!' ..= b'/'`, `b':' ..= b'@'`, `b'[' ..= b'`'` and
    /// `b'{' ..= b'~'`.
    pub fn ascii_symbols() -> (r: Self)
        ensures
            r@ == byte_range(33u8, 47u8).union(byte_range(58u8, 64u8)).union(
                byte_range(91u8, 96u8),
            ).union(byte_range(123u8, 126u8)),
    {
        let r = Self::new().with_range(33u8..=47u8).with_range(58u8..=64u8).with_range(
            91u8..=96u8,
        ).with_range(123u8..=126u8);
        assert(r@ =~= byte_range(33u8, 47u8).union(byte_range(58u8, 64u8)).union(
            byte_range(91u8, 96u8),
        ).union(byte_range(123u8, 126u8)));
        r
    }
}

impl View for ByteSet {
    type V = Set<u8>;

    /// The bytes in the set.
    open spec fn view(&self) -> Set<u8> {
        Set::new(|b: u8| self.contains(b))
    }
}

} // verus!
