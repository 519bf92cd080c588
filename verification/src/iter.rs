//! Iteration over the bytes of a set, in increasing order.
use vstd::prelude::*;
use crate::bits::{after_mask, after_mask_spec, bit_of, lemma_bit_masks, lemma_bit_ops, lemma_low_ones_bound};
use crate::byteset::{at_or_above, ByteSet};

verus! {

/// A cursor over the bytes of a [`ByteSet`]: it hands out, in increasing
/// order, the members of the set at or above its position.
#[derive(Debug, PartialEq, Eq, Hash)]
pub struct ByteSetIter<'a> {
    set: &'a ByteSet,
    index: u32,
}

/// One call of `next` that took the cursor from `before` to `after` and
/// returned `r`: it hands out the smallest byte still to come and moves just
/// past it, or, with nothing left, returns `None` and moves past the end.
pub open spec fn next_step(before: ByteSetIter, after: ByteSetIter, r: Option<u8>) -> bool {
    &&& after.source() == before.source()
    &&& match r {
        Some(b) => {
            &&& before.pending().contains(b)
            &&& forall|c: u8| #[trigger] before.pending().contains(c) ==> b <= c
            &&& after.pending() == before.pending().remove(b)
            &&& after.position() == b + 1
        },
        None => {
            &&& before.pending() == Set::<u8>::empty()
            &&& after.position() == 256
        },
    }
}

impl<'a> ByteSetIter<'a> {
    #[verifier::type_invariant]
    spec fn position_in_range(self) -> bool {
        self.index <= 256
    }

    /// The set being iterated over.
    pub closed spec fn source(self) -> ByteSet {
        *self.set
    }

    /// The smallest byte value the cursor may still hand out (256 once it
    /// has run past the last byte).
    pub closed spec fn position(self) -> int {
        self.index as int
    }

    /// The bytes that are still to come.
    pub open spec fn pending(self) -> Set<u8> {
        at_or_above(self.source()@, self.position())
    }

    /// The number of bytes still to come.
    pub fn remaining(&self) -> (r: usize)
        requires
            self.position() < 256,
        ensures
            self.pending().finite(),
            r == self.pending().len(),
    {
        let mut mask_index = (self.index / 64) as usize;
        let bit_index = self.index % 64;
        let after = after_mask(bit_index);
        let first = self.set.get_mask(mask_index) & after;
        let mut count = first.count_ones();
        let ghost k = mask_index as int;
        proof {
            self.set.lemma_len_at_or_above(k, bit_index as u64);
            lemma_low_ones_bound(first, 64);
            self.set.lemma_ones_between_step(k + 1, k + 1);
        }
        mask_index += 1;
        while mask_index < 4
            invariant
                0 <= k < mask_index <= 4,
                count == crate::bits::low_ones(first, 64) + self.set.ones_between(
                    k + 1,
                    mask_index as int,
                ),
                count <= 64 * (mask_index - k),
            decreases 4 - mask_index,
        {
            proof {
                lemma_low_ones_bound(self.set.word(mask_index as int), 64);
                self.set.lemma_ones_between_step(k + 1, mask_index as int);
            }
            count += self.set.get_mask(mask_index).count_ones();
            mask_index += 1;
        }
        count as usize
    }

    /// The bounds on the number of bytes still to come: both are exact.
    pub fn size_hint(&self) -> (r: (usize, Option<usize>))
        requires
            self.position() < 256,
        ensures
            self.pending().finite(),
            r.0 == self.pending().len(),
            r.1 == Some(r.0),
    {
        let remaining = self.remaining();
        (remaining, Some(remaining))
    }

    /// Hands out every byte still to come, in increasing order, into a
    /// vector whose capacity is first set from `size_hint`.
    pub fn collect_bytes(&mut self) -> (r: Vec<u8>)
        requires
            old(self).position() < 256,
        ensures
            final(self).source() == old(self).source(),
            final(self).pending() == Set::<u8>::empty(),
            forall|i: int, j: int| 0 <= i < j < r@.len() ==> r@[i] < r@[j],
            forall|b: u8| r@.contains(b) <==> old(self).pending().contains(b),
            r@.len() == old(self).pending().len(),
    {
        let (lower, _) = self.size_hint();
        let mut r: Vec<u8> = Vec::with_capacity(lower);
        loop
            invariant_except_break
                self.pending().finite(),
                r@.len() + self.pending().len() == old(self).pending().len(),
            invariant
                self.source() == old(self).source(),
                self.pending().subset_of(old(self).pending()),
                forall|i: int, j: int| 0 <= i < j < r@.len() ==> r@[i] < r@[j],
                forall|i: int, c: u8|
                    #![trigger r@[i], self.pending().contains(c)]
                    0 <= i < r@.len() && self.pending().contains(c) ==> r@[i] < c,
                forall|b: u8|
                    r@.contains(b) <==> (old(self).pending().contains(b) && !self.pending().contains(
                        b,
                    )),
            ensures
                self.pending() == Set::<u8>::empty(),
                r@.len() == old(self).pending().len(),
            decreases self.pending().len(),
        {
            let ghost before = *self;
            let ghost rb = r@;
            match self.next() {
                Some(b) => {
                    r.push(b);
                    proof {
                        assert(r@ == rb.push(b));
                        assert forall|x: u8| r@.contains(x) <==> (old(self).pending().contains(x)
                            && !self.pending().contains(x)) by {
                            if rb.contains(x) {
                                let i = choose|i: int| 0 <= i < rb.len() && rb[i] == x;
                                assert(r@[i] == x);
                            }
                            if r@.contains(x) && x != b {
                                let i = choose|i: int| 0 <= i < r@.len() && r@[i] == x;
                                assert(rb[i] == x);
                            }
                            if x == b {
                                assert(r@[rb.len() as int] == b);
                            }
                        }
                        assert forall|i: int, c: u8|
                            #![trigger r@[i], self.pending().contains(c)]
                            0 <= i < r@.len() && self.pending().contains(c) implies r@[i] < c by {
                            assert(before.pending().contains(c));
                            if i < rb.len() {
                                assert(rb[i] == r@[i]);
                            }
                        }
                        assert forall|i: int, j: int| 0 <= i < j < r@.len() implies r@[i]
                            < r@[j] by {
                            if j == rb.len() {
                                if i < rb.len() {
                                    assert(rb[i] == r@[i]);
                                    assert(before.pending().contains(b));
                                }
                            } else {
                                assert(rb[i] == r@[i] && rb[j] == r@[j]);
                            }
                        }
                    }
                },
                None => {
                    proof {
                        assert(before.pending() == Set::<u8>::empty());
                    }
                    break ;
                },
            }
        }
        proof {
            assert forall|b: u8| r@.contains(b) <==> old(self).pending().contains(b) by {}
        }
        r
    }

    /// Hands out the smallest byte still to come, if any, and moves past it.
    pub fn next(&mut self) -> (r: Option<u8>)
        ensures
            next_step(*old(self), *final(self), r),
    {
        proof {
            use_type_invariant(&*self);
        }
        broadcast use vstd::std_specs::bits::axiom_u64_trailing_zeros;

        let ghost start = self.index as int;
        let ghost set = *self.set;
        let mut index = self.index;
        let mut mask_index = index / 64;
        loop
            invariant
                start <= index <= 256,
                mask_index == index / 64,
                start == old(self).position(),
                set == old(self).source(),
                set == *self.set,
                forall|c: u8| start <= c < index ==> !#[trigger] set@.contains(c),
            decreases 256 - index,
        {
            if mask_index >= 4 {
                self.index = index;
                proof {
                    assert(old(self).pending() =~= Set::<u8>::empty());
                }
                return None;
            }
            let bit_index = index % 64;
            let mask = after_mask(bit_index);
            let masked = self.set.get_mask(mask_index as usize) & mask;
            let next_1 = masked.trailing_zeros();
            proof {
                lemma_bit_ops();
                lemma_bit_masks();
            }
            let ghost before = index;
            index = mask_index * 64 + next_1;
            if next_1 != 64 {
                let b = index as u8;
                proof {
                    assert(bit_of(masked, next_1 as u64));
                    assert(masked == set.word(mask_index as int) & after_mask_spec(
                        bit_index as u64,
                    ));
                    assert(bit_of(set.word(mask_index as int), next_1 as u64));
                    assert(b as int / 64 == mask_index && b % 64 == next_1);
                    assert(set@.contains(b));
                    assert forall|c: u8| before <= c < b implies !#[trigger] set@.contains(c) by {
                        let i = (c % 64) as u64;
                        assert(c as int / 64 == mask_index);
                        assert(!bit_of(masked, i));
                        assert(bit_of(masked, i) == (bit_of(set.word(mask_index as int), i)
                            && bit_of(after_mask_spec(bit_index as u64), i)));
                    }
                    assert(forall|c: u8| #[trigger] old(self).pending().contains(c) ==> b <= c);
                }
                self.index = index + 1;
                proof {
                    assert(self.pending() =~= old(self).pending().remove(b));
                }
                return Some(b);
            }
            proof {
                assert forall|c: u8| before <= c < index implies !#[trigger] set@.contains(c) by {
                    let i = (c % 64) as u64;
                    assert(c as int / 64 == mask_index);
                    assert(!bit_of(masked, i));
                }
            }
            mask_index += 1;
        }
    }
}

impl<'a> Clone for ByteSetIter<'a> {
    fn clone(&self) -> (r: Self)
        ensures
            r == *self,
    {
        proof {
            use_type_invariant(self);
        }
        ByteSetIter { set: self.set, index: self.index }
    }
}

impl ByteSet {
    /// A cursor over the bytes of this set, from the smallest up.
    pub fn iter(&self) -> (r: ByteSetIter<'_>)
        ensures
            r.source() == *self,
            r.position() == 0,
            r.pending() == self@,
    {
        let r = ByteSetIter { set: self, index: 0 };
        assert(r.pending() =~= self@);
        r
    }
}

} // verus!
