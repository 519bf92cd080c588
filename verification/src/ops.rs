//! The set operators `!`, `|`, `&` and `^` on byte sets, and the empty set
//! as the default value.
use vstd::prelude::*;
use crate::byteset::{sym_diff, ByteSet};

verus! {

impl Default for ByteSet {
    /// The empty set.
    fn default() -> (r: Self)
        ensures
            r@ == Set::<u8>::empty(),
    {
        Self::new()
    }
}

impl std::ops::Not for ByteSet {
    type Output = Self;

    /// The bytes not in the set.
    fn not(self) -> (r: Self)
        ensures
            r@ == self@.complement(),
    {
        let r = self.inverted();
        proof {
            ByteSet::lemma_value_views(self, self);
            ByteSet::lemma_ext(r, self.complement_value());
        }
        r
    }
}


impl vstd::std_specs::ops::NotSpecImpl for ByteSet {
    open spec fn obeys_not_spec() -> bool {
        true
    }

    open spec fn not_req(self) -> bool {
        true
    }

    open spec fn not_spec(self) -> ByteSet {
        self.complement_value()
    }
}

impl std::ops::BitOr for ByteSet {
    type Output = Self;

    /// The bytes in either set.
    fn bitor(self, rhs: Self) -> (r: Self)
        ensures
            r@ == self@.union(rhs@),
    {
        let r = self.or(rhs);
        proof {
            ByteSet::lemma_value_views(self, rhs);
            ByteSet::lemma_ext(r, self.union_value(rhs));
        }
        r
    }
}

impl vstd::std_specs::ops::BitOrSpecImpl for ByteSet {
    open spec fn obeys_bitor_spec() -> bool {
        true
    }

    open spec fn bitor_req(self, rhs: ByteSet) -> bool {
        true
    }

    open spec fn bitor_spec(self, rhs: ByteSet) -> ByteSet {
        self.union_value(rhs)
    }
}

impl std::ops::BitOrAssign for ByteSet {
    /// Adds the bytes of `rhs`.
    fn bitor_assign(&mut self, rhs: Self)
        ensures
            final(self)@ == old(self)@.union(rhs@),
    {
        self.or_assign(rhs);
    }
}

impl std::ops::BitAnd for ByteSet {
    type Output = Self;

    /// The bytes in both sets.
    fn bitand(self, rhs: Self) -> (r: Self)
        ensures
            r@ == self@.intersect(rhs@),
    {
        let r = self.and(rhs);
        proof {
            ByteSet::lemma_value_views(self, rhs);
            ByteSet::lemma_ext(r, self.intersect_value(rhs));
        }
        r
    }
}

impl vstd::std_specs::ops::BitAndSpecImpl for ByteSet {
    open spec fn obeys_bitand_spec() -> bool {
        true
    }

    open spec fn bitand_req(self, rhs: ByteSet) -> bool {
        true
    }

    open spec fn bitand_spec(self, rhs: ByteSet) -> ByteSet {
        self.intersect_value(rhs)
    }
}

impl std::ops::BitAndAssign for ByteSet {
    /// Keeps the bytes also in `rhs`.
    fn bitand_assign(&mut self, rhs: Self)
        ensures
            final(self)@ == old(self)@.intersect(rhs@),
    {
        self.and_assign(rhs);
    }
}

impl std::ops::BitXor for ByteSet {
    type Output = Self;

    /// The bytes in exactly one of the sets.
    fn bitxor(self, rhs: Self) -> (r: Self)
        ensures
            r@ == sym_diff(self@, rhs@),
    {
        let r = self.xor(rhs);
        proof {
            ByteSet::lemma_value_views(self, rhs);
            ByteSet::lemma_ext(r, self.sym_diff_value(rhs));
        }
        r
    }
}

impl vstd::std_specs::ops::BitXorSpecImpl for ByteSet {
    open spec fn obeys_bitxor_spec() -> bool {
        true
    }

    open spec fn bitxor_req(self, rhs: ByteSet) -> bool {
        true
    }

    open spec fn bitxor_spec(self, rhs: ByteSet) -> ByteSet {
        self.sym_diff_value(rhs)
    }
}

impl std::ops::BitXorAssign for ByteSet {
    /// Keeps the bytes in exactly one of the sets.
    fn bitxor_assign(&mut self, rhs: Self)
        ensures
            final(self)@ == sym_diff(old(self)@, rhs@),
    {
        self.xor_assign(rhs);
    }
}

} // verus!
