use vstd::prelude::*;
use crate::model::{
    any_live, beats, edge_slot, is_edge_slot, lemma_qty_sum_bounds, lemma_qty_sum_update,
    lemma_qty_sum_zeros, qty_sum, SideModel,
};
use crate::occupancy::Occupancy;
use crate::types::{lemma_slot_in_range, slot_of, Price, Quantity, Side, CAP};

verus! {

/// One side of the book: slot table, occupancy bitmap, cached best and running total.
pub struct Ladder {
    pub quantities: Vec<Quantity>,
    pub prices: Vec<Price>,
    pub bits: Occupancy,
    pub best: Option<Price>,
    pub total: Quantity,
}

/// Two slots that are each the edge slot of a side are the same slot.
proof fn lemma_edge_slot_unique(q: Seq<Quantity>, side: Side, i: int, j: int)
    requires
        is_edge_slot(q, side, i),
        is_edge_slot(q, side, j),
    ensures
        i == j,
{
    assert(q[i] > 0 && q[j] > 0);
}

/// A bitmap that changed only at `idx`, in step with the quantity there, stays consistent
/// with the quantities.
proof fn lemma_bits_track(
    pre_bits: Occupancy,
    bits: Occupancy,
    pre_q: Seq<Quantity>,
    q: Seq<Quantity>,
    idx: int,
)
    requires
        pre_bits.tiers().consistent_with(pre_q),
        bits.wf(),
        pre_q.len() == CAP,
        q == pre_q.update(idx, q[idx]),
        0 <= idx < CAP,
        forall|i: int| 0 <= i < CAP ==> #[trigger] bits.occupied(i) == if i == idx {
            q[idx] > 0
        } else {
            pre_bits.occupied(i)
        },
    ensures
        bits.tiers().consistent_with(q),
{
    assert forall|i: int| 0 <= i < CAP implies #[trigger] bits.tiers().occupied(i) == (q[i] > 0) by {
        assert(bits.occupied(i) == bits.tiers().occupied(i));
        assert(pre_bits.tiers().occupied(i) == (pre_q[i] > 0));
    }
}

impl Ladder {
    pub open spec fn view(&self) -> SideModel {
        SideModel { prices: self.prices@, quantities: self.quantities@, best: self.best }
    }

    pub open spec fn wf(&self) -> bool {
        &&& self.view().valid()
        &&& self.bits.tiers().consistent_with(self.quantities@)
        &&& self.total as int == qty_sum(self.quantities@)
    }

    /// An empty side.
    pub fn new() -> (r: Self)
        ensures
            r.wf(),
            r.view() == SideModel::empty(),
    {
        let mut quantities: Vec<Quantity> = Vec::new();
        let mut prices: Vec<Price> = Vec::new();
        let mut n: usize = 0;
        while n < CAP
            invariant
                n <= CAP,
                quantities@.len() == n,
                prices@.len() == n,
                forall|i: int| 0 <= i < n ==> quantities@[i] == 0,
                forall|i: int| 0 <= i < n ==> prices@[i] == 0,
            decreases CAP - n,
        {
            quantities.push(0);
            prices.push(0);
            n = n + 1;
        }
        let bits = Occupancy::new();
        let r = Ladder { quantities, prices, bits, best: None, total: 0 };
        proof {
            lemma_qty_sum_zeros(r.quantities@);
            assert(r.view().prices =~= SideModel::empty().prices);
            assert(r.view().quantities =~= SideModel::empty().quantities);
            assert(!any_live(r.quantities@));
            assert forall|i: int| 0 <= i < CAP implies #[trigger] r.bits.tiers().occupied(i) == (
            r.quantities@[i] > 0) by {
                assert(!r.bits.occupied(i));
            }
        }
        r
    }

    /// Sets the cached best to what a bitmap scan finds: the price at the highest occupied
    /// slot for bids, at the lowest for asks, or `None` when the side is empty.
    pub fn rescan_best(&mut self, side: Side)
        requires
            old(self).bits.tiers().consistent_with(old(self).quantities@),
            old(self).quantities@.len() == CAP,
            old(self).prices@.len() == CAP,
        ensures
            final(self).best == old(self).view().scanned_best(side),
            any_live(old(self).quantities@) ==> is_edge_slot(
                old(self).quantities@,
                side,
                edge_slot(old(self).quantities@, side),
            ),
            final(self).quantities == old(self).quantities,
            final(self).prices == old(self).prices,
            final(self).bits == old(self).bits,
            final(self).total == old(self).total,
    {
        let found = match side {
            Side::Bid => self.bits.highest(),
            Side::Ask => self.bits.lowest(),
        };
        let ghost q = self.quantities@;
        let ghost t = self.bits.tiers();
        let ghost bits = self.bits;
        match found {
            None => {
                proof {
                    assert forall|i: int| 0 <= i < CAP implies !(#[trigger] q[i] > 0) by {
                        assert(t.occupied(i) == (q[i] > 0));
                        assert(!bits.occupied(i));
                    }
                }
                self.best = None;
            },
            Some(i) => {
                proof {
                    assert(t.occupied(i as int) == (q[i as int] > 0));
                    assert forall|j: int| 0 <= j < CAP && #[trigger] q[j] > 0 implies match side {
                        Side::Bid => j <= i,
                        Side::Ask => j >= i,
                    } by {
                        assert(t.occupied(j) == (q[j] > 0));
                        assert(bits.occupied(j));
                    }
                    assert(is_edge_slot(q, side, i as int));
                    lemma_edge_slot_unique(q, side, i as int, edge_slot(q, side));
                }
                self.best = Some(self.prices[i]);
            },
        }
    }

    /// Writes `quantity` at `price` into slot `idx`: overwrites the slot, keeps the bitmap
    /// and total in step, and maintains the cached best.
    pub fn set_level(&mut self, side: Side, idx: usize, price: Price, quantity: Quantity)
        requires
            old(self).wf(),
            idx as int == slot_of(price),
            old(self).view().admits(price, quantity),
        ensures
            final(self).wf(),
            final(self).view() == old(self).view().set_level(side, price, quantity),
    {
        let ghost pre = self.view();
        let ghost pre_bits = self.bits;
        proof {
            lemma_slot_in_range(price);
            lemma_qty_sum_bounds(self.quantities@);
            lemma_qty_sum_update(self.quantities@, idx as int, quantity);
        }
        let old_qty = self.quantities[idx];
        self.quantities.set(idx, quantity);
        self.prices.set(idx, price);
        if quantity == 0 {
            if old_qty > 0 {
                self.total = self.total - old_qty;
                assert(pre_bits.occupied(idx as int));
                self.bits.remove(idx);
                proof {
                    lemma_bits_track(pre_bits, self.bits, pre.quantities, self.quantities@, idx as int);
                }
                let is_best = match self.best {
                    Some(b) => b == price,
                    None => false,
                };
                if is_best {
                    self.rescan_best(side);
                }
            }
        } else {
            self.total = self.total - old_qty + quantity;
            if old_qty == 0 {
                assert(!pre_bits.occupied(idx as int));
                self.bits.insert(idx);
                proof {
                    lemma_bits_track(pre_bits, self.bits, pre.quantities, self.quantities@, idx as int);
                }
            }
            match self.best {
                Some(b) => {
                    if beats_exec(side, price, b) {
                        self.best = Some(price);
                    }
                },
                None => {
                    self.best = Some(price);
                },
            }
        }
        proof {
            let post = self.view();
            let goal = pre.set_level(side, price, quantity);
            assert(post.prices =~= goal.prices);
            assert(post.quantities =~= goal.quantities);
            if (quantity == 0) == (old_qty == 0) {
                lemma_bits_track(pre_bits, self.bits, pre.quantities, post.quantities, idx as int);
            }
            assert forall|i: int| #[trigger] post.live(i) implies slot_of(post.prices[i]) == i by {
                if i != idx {
                    assert(pre.live(i));
                }
            }
            if quantity == 0 && old_qty > 0 && pre.best == Some(price) {
                assert(post.best == post.scanned_best(side));
                if any_live(post.quantities) {
                    let e = edge_slot(post.quantities, side);
                    assert(post.live(e));
                }
            } else if quantity == 0 {
                if let Some(b) = pre.best {
                    assert(pre.live(slot_of(b)));
                    assert(slot_of(b) != idx);
                    assert(post.live(slot_of(b)));
                } else {
                    assert forall|i: int| 0 <= i < CAP implies !(#[trigger] post.quantities[i] > 0) by {
                        if i != idx {
                            assert(!(pre.quantities[i] > 0));
                        }
                    }
                }
            } else {
                if let Some(b) = pre.best {
                    assert(pre.live(slot_of(b)));
                    if slot_of(b) == idx {
                        assert(pre.prices[idx as int] == b);
                    }
                }
                assert(post.live(idx as int));
            }
        }
    }
}

/// Computes [`beats`].
pub fn beats_exec(side: Side, a: Price, b: Price) -> (r: bool)
    ensures
        r == beats(side, a, b),
{
    match side {
        Side::Bid => a > b,
        Side::Ask => a < b,
    }
}

} // verus!
