use vstd::prelude::*;
use vstd::std_specs::bits::{axiom_u64_leading_zeros, axiom_u64_trailing_zeros, u64_leading_zeros, u64_trailing_zeros};

verus! {

/// Bit `b` of the word `w` is set.
pub open spec fn bit(w: u64, b: u64) -> bool {
    (w >> b) & 1u64 == 1u64
}

/// Setting bit `b` leaves every other bit as it was.
pub proof fn lemma_bit_set(w: u64, b: u64, c: u64)
    requires
        b < 64,
        c < 64,
    ensures
        bit(w | (1u64 << b), c) == (bit(w, c) || c == b),
{
    assert(((w | (1u64 << b)) >> c) & 1u64 == 1u64 <==> (((w >> c) & 1u64 == 1u64) || c == b))
        by (bit_vector)
        requires
            b < 64,
            c < 64,
    ;
}

/// Clearing bit `b` leaves every other bit as it was.
pub proof fn lemma_bit_clear(w: u64, b: u64, c: u64)
    requires
        b < 64,
        c < 64,
    ensures
        bit(w & !(1u64 << b), c) == (bit(w, c) && c != b),
{
    assert(((w & !(1u64 << b)) >> c) & 1u64 == 1u64 <==> (((w >> c) & 1u64 == 1u64) && c != b))
        by (bit_vector)
        requires
            b < 64,
            c < 64,
    ;
}

/// The zero word has no bit set.
pub proof fn lemma_zero_has_no_bit(c: u64)
    ensures
        !bit(0u64, c),
{
    assert((0u64 >> c) & 1u64 != 1u64) by (bit_vector);
}

/// `63 - leading_zeros` is the highest set bit of a non-zero word.
pub proof fn lemma_highest_bit(w: u64)
    requires
        w != 0,
    ensures
        u64_leading_zeros(w) < 64,
        bit(w, (63 - u64_leading_zeros(w)) as u64),
        forall|c: u64| 63 - u64_leading_zeros(w) < c < 64 ==> !#[trigger] bit(w, c),
{
    axiom_u64_leading_zeros(w);
    let h = (63 - u64_leading_zeros(w)) as u64;
    assert((w >> h) & 1u64 != 0u64 ==> (w >> h) & 1u64 == 1u64) by (bit_vector);
    assert forall|c: u64| 63 - u64_leading_zeros(w) < c < 64 implies !#[trigger] bit(w, c) by {
        assert((w >> c) & 1u64 == 0u64 ==> (w >> c) & 1u64 != 1u64) by (bit_vector);
    }
}

/// `trailing_zeros` is the lowest set bit of a non-zero word.
pub proof fn lemma_lowest_bit(w: u64)
    requires
        w != 0,
    ensures
        u64_trailing_zeros(w) < 64,
        bit(w, u64_trailing_zeros(w) as u64),
        forall|c: u64| c < u64_trailing_zeros(w) ==> !#[trigger] bit(w, c),
{
    axiom_u64_trailing_zeros(w);
    assert forall|c: u64| c < u64_trailing_zeros(w) implies !#[trigger] bit(w, c) by {
        assert((w >> c) & 1u64 == 0u64 ==> (w >> c) & 1u64 != 1u64) by (bit_vector);
    }
}

/// Masking with the bits strictly below `b` keeps exactly those bits.
pub proof fn lemma_mask_below(w: u64, b: u64, c: u64)
    requires
        b < 64,
        c < 64,
    ensures
        1u64 << b >= 1,
        bit(w & (((1u64 << b) - 1u64) as u64), c) == (bit(w, c) && c < b),
{
    assert(1u64 << b >= 1 && ((((w & (((1u64 << b) - 1u64) as u64)) >> c) & 1u64 == 1u64) <==> (((w >> c)
        & 1u64 == 1u64) && c < b))) by (bit_vector)
        requires
            b < 64,
            c < 64,
    ;
}

/// Masking with the bits strictly above `b` keeps exactly those bits.
pub proof fn lemma_mask_above(w: u64, b: u64, c: u64)
    requires
        b < 64,
        c < 64,
    ensures
        bit(w & ((0xffff_ffff_ffff_ffffu64 << b) << 1u64), c) == (bit(w, c) && c > b),
{
    assert((((w & ((0xffff_ffff_ffff_ffffu64 << b) << 1u64)) >> c) & 1u64 == 1u64) <==> (((w
        >> c) & 1u64 == 1u64) && c > b)) by (bit_vector)
        requires
            b < 64,
            c < 64,
    ;
}

} // verus!
