//! Contracts for the few standard-library functions that vstd leaves
//! unspecified and that the byte set calls.
use vstd::prelude::*;
use core::ops::RangeInclusive;
use crate::bits::low_ones;
use crate::encoding::{ne_bytes, ne_word};

verus! {

/// `RangeInclusive::start` returns a reference to the range's lower bound,
/// the `start` of vstd's view of the range.
pub assume_specification<Idx>[ RangeInclusive::<Idx>::start ](r: &RangeInclusive<Idx>) -> (ret: &Idx)
    ensures
        *ret == r@.start,
;

/// `RangeInclusive::end` returns a reference to the range's upper bound,
/// the `end` of vstd's view of the range.
pub assume_specification<Idx>[ RangeInclusive::<Idx>::end ](r: &RangeInclusive<Idx>) -> (ret: &Idx)
    ensures
        *ret == r@.end,
;

/// `u64::count_ones` returns the number of ones in the binary
/// representation of its argument: the set bits among all 64 positions.
pub assume_specification[ u64::count_ones ](x: u64) -> (r: u32)
    ensures
        r == low_ones(x, 64),
;

/// Calls `u64::to_ne_bytes`, which returns the eight bytes of its argument
/// in the byte order of the machine: least significant first on a
/// little-endian target, most significant first on a big-endian one
/// (vstd's `endianness()` stands for the target's order).
#[verifier::external_body]
pub(crate) fn u64_to_ne_bytes(x: u64) -> (r: [u8; 8])
    ensures
        r@ == ne_bytes(x),
{
    x.to_ne_bytes()
}

/// Calls `u64::from_ne_bytes`, which builds the word whose bytes, in the
/// byte order of the machine, are its argument.
#[verifier::external_body]
pub(crate) fn u64_from_ne_bytes(bytes: [u8; 8]) -> (r: u64)
    ensures
        r == ne_word(bytes@),
{
    u64::from_ne_bytes(bytes)
}

} // verus!
