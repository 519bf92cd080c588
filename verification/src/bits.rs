//! Bit-level facts about `u64` words, the building blocks of a byte set.
use vstd::prelude::*;

verus! {

/// Whether bit `i` (counted from the least significant bit) of `m` is set.
pub open spec fn bit_of(m: u64, i: u64) -> bool {
    (m >> i) & 1u64 == 1u64
}

/// The word with every bit at position `bit_index` or above set.
pub open spec fn after_mask_spec(bit_index: u64) -> u64 {
    0xffff_ffff_ffff_ffffu64 << bit_index
}

/// The word with every bit at position `last_index` or below set.
pub open spec fn bottom_mask_spec(last_index: u64) -> u64 {
    0xffff_ffff_ffff_ffffu64 >> ((63 - last_index) as u64)
}

/// Every bit at position `bit_index` or above.
pub(crate) fn after_mask(bit_index: u32) -> (r: u64)
    requires
        bit_index < 64,
    ensures
        r == after_mask_spec(bit_index as u64),
{
    let r = u64::MAX << bit_index;
    assert(r == after_mask_spec(bit_index as u64)) by (bit_vector)
        requires
            r == 0xffff_ffff_ffff_ffffu64 << bit_index,
            bit_index < 64,
    ;
    r
}

/// Every bit at position `last_index` or below.
pub(crate) fn bottom_mask(last_index: u32) -> (r: u64)
    requires
        last_index < 64,
    ensures
        r == bottom_mask_spec(last_index as u64),
{
    let r = u64::MAX >> (63 - last_index);
    assert(r == bottom_mask_spec(last_index as u64)) by (bit_vector)
        requires
            r == 0xffff_ffff_ffff_ffffu64 >> ((63 - last_index) as u32),
            last_index < 64,
    ;
    r
}

/// `w` with the bits of `m` set (when `value`) or cleared (otherwise).
pub open spec fn apply_mask(value: bool, w: u64, m: u64) -> u64 {
    if value {
        w | m
    } else {
        w & !m
    }
}

/// The number of set bits of `m` among positions `0 .. n`.
pub open spec fn low_ones(m: u64, n: nat) -> nat
    decreases n,
{
    if n == 0 {
        0
    } else {
        low_ones(m, (n - 1) as nat) + if bit_of(m, (n - 1) as u64) {
            1nat
        } else {
            0nat
        }
    }
}

/// At most `n` of the first `n` bits are set.
pub proof fn lemma_low_ones_bound(m: u64, n: nat)
    ensures
        low_ones(m, n) <= n,
    decreases n,
{
    if n > 0 {
        lemma_low_ones_bound(m, (n - 1) as nat);
    }
}

/// Masking off the bits below `j` removes exactly the set bits below `j`.
pub proof fn lemma_low_ones_after_mask(m: u64, j: u64, n: nat)
    requires
        j < 64,
        n <= 64,
    ensures
        low_ones(m & after_mask_spec(j), n) == if n <= j {
            0
        } else {
            low_ones(m, n) - low_ones(m, j as nat)
        },
    decreases n,
{
    lemma_bit_ops();
    lemma_bit_masks();
    if n > 0 {
        lemma_low_ones_after_mask(m, j, (n - 1) as nat);
        assert(bit_of(m & after_mask_spec(j), (n - 1) as u64) == (bit_of(m, (n - 1) as u64) && j
            <= n - 1));
    }
}

/// How the bitwise operators act on single bits.
pub proof fn lemma_bit_ops()
    ensures
        forall|i: u64| i < 64 ==> !#[trigger] bit_of(0u64, i),
        forall|i: u64| i < 64 ==> #[trigger] bit_of(0xffff_ffff_ffff_ffffu64, i),
        forall|a: u64, b: u64, i: u64|
            i < 64 ==> (#[trigger] bit_of(a | b, i) <==> bit_of(a, i) || bit_of(b, i)),
        forall|a: u64, b: u64, i: u64|
            i < 64 ==> (#[trigger] bit_of(a & b, i) <==> bit_of(a, i) && bit_of(b, i)),
        forall|a: u64, b: u64, i: u64|
            i < 64 ==> (#[trigger] bit_of(a ^ b, i) <==> bit_of(a, i) != bit_of(b, i)),
        forall|a: u64, i: u64| i < 64 ==> (#[trigger] bit_of(!a, i) <==> !bit_of(a, i)),
{
    assert(forall|i: u64| i < 64 ==> !bit_of(0u64, i)) by (bit_vector);
    assert(forall|i: u64| i < 64 ==> bit_of(0xffff_ffff_ffff_ffffu64, i)) by (bit_vector);
    assert(forall|a: u64, b: u64, i: u64|
        i < 64 ==> (bit_of(a | b, i) <==> bit_of(a, i) || bit_of(b, i))) by (bit_vector);
    assert(forall|a: u64, b: u64, i: u64|
        i < 64 ==> (bit_of(a & b, i) <==> bit_of(a, i) && bit_of(b, i))) by (bit_vector);
    assert(forall|a: u64, b: u64, i: u64|
        i < 64 ==> (bit_of(a ^ b, i) <==> bit_of(a, i) != bit_of(b, i))) by (bit_vector);
    assert(forall|a: u64, i: u64| i < 64 ==> (bit_of(!a, i) <==> !bit_of(a, i))) by (bit_vector);
}

/// The bits of a single-bit word and of the two range masks.
pub proof fn lemma_bit_masks()
    ensures
        forall|j: u64, i: u64|
            j < 64 && i < 64 ==> (#[trigger] bit_of(1u64 << j, i) <==> i == j),
        forall|j: u64, i: u64|
            j < 64 && i < 64 ==> (#[trigger] bit_of(after_mask_spec(j), i) <==> j <= i),
        forall|l: u64, i: u64|
            l < 64 && i < 64 ==> (#[trigger] bit_of(bottom_mask_spec(l), i) <==> i <= l),
{
    assert(forall|j: u64, i: u64| j < 64 && i < 64 ==> (bit_of(1u64 << j, i) <==> i == j))
        by (bit_vector);
    assert(forall|j: u64, i: u64|
        j < 64 && i < 64 ==> (bit_of(0xffff_ffff_ffff_ffffu64 << j, i) <==> j <= i))
        by (bit_vector);
    assert(forall|l: u64, i: u64|
        l < 64 && i < 64 ==> (#[trigger] bit_of(0xffff_ffff_ffff_ffffu64 >> ((63 - l) as u64), i)
            <==> i <= l)) by (bit_vector);
}

/// A word is zero exactly when none of its bits is set.
pub proof fn lemma_zero_iff_no_bits(x: u64)
    ensures
        x == 0 <==> forall|i: u64| i < 64 ==> !#[trigger] bit_of(x, i),
{
    lemma_bit_ops();
    if x != 0 {
        broadcast use vstd::std_specs::bits::axiom_u64_trailing_zeros;

        let t = vstd::std_specs::bits::u64_trailing_zeros(x) as u64;
        assert(t < 64);
        assert(bit_of(x, t));
    }
}

/// Two words are equal exactly when they agree on every bit.
pub proof fn lemma_eq_iff_same_bits(a: u64, b: u64)
    ensures
        a == b <==> forall|i: u64| i < 64 ==> #[trigger] bit_of(a, i) == bit_of(b, i),
{
    lemma_bit_ops();
    lemma_zero_iff_no_bits(a ^ b);
    assert(a ^ b == 0 <==> a == b) by (bit_vector);
    if forall|i: u64| i < 64 ==> #[trigger] bit_of(a, i) == bit_of(b, i) {
        assert forall|i: u64| i < 64 implies !#[trigger] bit_of(a ^ b, i) by {
            assert(bit_of(a, i) == bit_of(b, i));
        }
    }
}

} // verus!
