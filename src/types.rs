use vstd::prelude::*;

verus! {

/// Price of a level: a signed tick count.
pub type Price = i64;

/// Resting quantity of a level; zero means the level is empty.
pub type Quantity = u64;

/// Number of slots in the direct-mapped price table (a power of two).
pub const CAP: usize = 65536;

/// Number of 64-bit words in the first occupancy tier (one bit per slot).
pub const L1_SIZE: usize = 1024;

/// Number of 64-bit words in the second occupancy tier (one bit per first-tier word).
pub const L2_SIZE: usize = 16;

/// Low bits of a price that select its slot.
pub const MASK: i64 = 65535;

/// The two sides of the book.
#[derive(Clone, Copy, Debug, PartialEq, Eq, Structural)]
pub enum Side {
    Bid,
    Ask,
}

/// A change to one price level.
#[derive(Clone, Copy, Debug, PartialEq, Eq, Structural)]
pub enum Update {
    SetLevel { price: Price, quantity: Quantity, side: Side },
    Remove { price: Price, side: Side },
}

/// The slot that a price occupies: its low sixteen bits.
pub open spec fn slot_of(price: Price) -> int {
    (price & MASK) as int
}

/// The aligned block of `CAP` consecutive prices that a price falls in.
pub open spec fn block_of(price: Price) -> int {
    (price >> 16i64) as int
}

/// Every price maps to a slot of the table.
pub proof fn lemma_slot_in_range(price: Price)
    ensures
        0 <= slot_of(price) < CAP,
{
    assert(0 <= price & 65535i64 <= 65535) by (bit_vector);
}

/// Within one aligned block, slot order is price order.
pub proof fn lemma_block_slot_order(a: Price, b: Price)
    requires
        block_of(a) == block_of(b),
        slot_of(a) <= slot_of(b),
    ensures
        a <= b,
{
    assert((a >> 16i64) == (b >> 16i64) && (a & 65535i64) <= (b & 65535i64) ==> a <= b)
        by (bit_vector);
}

/// Computes the slot of a price.
pub fn slot_index(price: Price) -> (r: usize)
    ensures
        r as int == slot_of(price),
        r < CAP,
{
    let m: i64 = price & MASK;
    assert(0 <= price & 65535i64 <= 65535) by (bit_vector);
    m as usize
}

} // verus!
