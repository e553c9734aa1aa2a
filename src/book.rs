use vstd::prelude::*;
use crate::ladder::Ladder;
use crate::model::{lemma_qty_sum_bounds, lemma_walk_prefix, walk_slot, BookModel, SideModel};
use crate::tiers::Tiers;
use crate::types::{slot_index, slot_of, Price, Quantity, Side, Update, CAP};

verus! {

/// A two-sided limit order book indexed by a direct-mapped price table and a three-tier
/// occupancy bitmap per side.
pub struct OrderBookImpl {
    bids: Ladder,
    asks: Ladder,
}

impl View for OrderBookImpl {
    type V = BookModel;

    closed spec fn view(&self) -> BookModel {
        BookModel { bids: self.bids.view(), asks: self.asks.view() }
    }
}

impl OrderBookImpl {
    /// The occupancy bitmap words of one side.
    pub closed spec fn tiers(&self, side: Side) -> Tiers {
        match side {
            Side::Bid => self.bids.bits.tiers(),
            Side::Ask => self.asks.bits.tiers(),
        }
    }

    /// The running total kept for one side.
    pub closed spec fn running_total(&self, side: Side) -> int {
        match side {
            Side::Bid => self.bids.total as int,
            Side::Ask => self.asks.total as int,
        }
    }

    /// The book is well formed: both sides are valid, each side's bitmap agrees with its
    /// quantities at every tier, and each running total is the sum of the side's quantities.
    pub open spec fn wf(&self) -> bool {
        &&& self@.valid()
        &&& self.tiers(Side::Bid).consistent_with(self@.bids.quantities)
        &&& self.tiers(Side::Ask).consistent_with(self@.asks.quantities)
        &&& self.running_total(Side::Bid) == self@.bids.total()
        &&& self.running_total(Side::Ask) == self@.asks.total()
    }

    /// An empty book: every slot empty, no best on either side, zero totals.
    pub fn new() -> (r: Self)
        ensures
            r.wf(),
            r@ == BookModel::empty(),
    {
        OrderBookImpl { bids: Ladder::new(), asks: Ladder::new() }
    }

    fn ladder(&self, side: Side) -> (r: &Ladder)
        requires
            self.wf(),
        ensures
            r.wf(),
            r.view() == self@.side(side),
    {
        match side {
            Side::Bid => &self.bids,
            Side::Ask => &self.asks,
        }
    }

    fn update_bid(&mut self, idx: usize, price: Price, quantity: Quantity)
        requires
            old(self).wf(),
            idx as int == slot_of(price),
            old(self)@.bids.admits(price, quantity),
        ensures
            final(self).wf(),
            final(self)@ == (BookModel {
                bids: old(self)@.bids.set_level(Side::Bid, price, quantity),
                ..old(self)@
            }),
    {
        self.bids.set_level(Side::Bid, idx, price, quantity);
    }

    fn update_ask(&mut self, idx: usize, price: Price, quantity: Quantity)
        requires
            old(self).wf(),
            idx as int == slot_of(price),
            old(self)@.asks.admits(price, quantity),
        ensures
            final(self).wf(),
            final(self)@ == (BookModel {
                asks: old(self)@.asks.set_level(Side::Ask, price, quantity),
                ..old(self)@
            }),
    {
        self.asks.set_level(Side::Ask, idx, price, quantity);
    }

    /// Applies one update; `Remove` writes a zero quantity.
    pub fn apply_update(&mut self, update: Update)
        requires
            old(self).wf(),
            old(self)@.admits(update),
        ensures
            final(self).wf(),
            final(self)@ == old(self)@.apply(update),
    {
        match update {
            Update::SetLevel { price, quantity, side } => {
                let idx = slot_index(price);
                match side {
                    Side::Bid => self.update_bid(idx, price, quantity),
                    Side::Ask => self.update_ask(idx, price, quantity),
                }
            },
            Update::Remove { price, side } => {
                let idx = slot_index(price);
                match side {
                    Side::Bid => self.update_bid(idx, price, 0),
                    Side::Ask => self.update_ask(idx, price, 0),
                }
            },
        }
    }

    /// Whether `apply_update` accepts the update: its price does not alias another live
    /// price in the same slot, and the side's total stays within range.
    pub fn admits(&self, update: Update) -> (r: bool)
        requires
            self.wf(),
        ensures
            r == self@.admits(update),
    {
        let (side, price, quantity) = match update {
            Update::SetLevel { price, quantity, side } => (side, price, quantity),
            Update::Remove { price, side } => (side, price, 0u64),
        };
        let ladder = self.ladder(side);
        let s = slot_index(price);
        proof {
            lemma_qty_sum_bounds(ladder.quantities@);
        }
        let q = ladder.quantities[s];
        let no_alias = q == 0 || ladder.prices[s] == price;
        no_alias && quantity <= u64::MAX - (ladder.total - q)
    }

    /// Best ask minus best bid, when both sides are non-empty.
    pub fn get_spread(&self) -> (r: Option<Price>)
        requires
            self.wf(),
            self@.spread() matches Some(d) ==> i64::MIN <= d <= i64::MAX,
        ensures
            match (r, self@.spread()) {
                (None, None) => true,
                (Some(x), Some(d)) => x == d,
                _ => false,
            },
    {
        match (self.bids.best, self.asks.best) {
            (Some(b), Some(a)) => Some(a - b),
            _ => None,
        }
    }

    /// The cached best bid, `None` when no bid rests; it is the highest live bid while the
    /// live bid prices lie in one aligned block of the table's size.
    pub fn get_best_bid(&self) -> (r: Option<Price>)
        ensures
            r == self@.bids.best,
    {
        self.bids.best
    }

    /// The cached best ask, `None` when no ask rests; it is the lowest live ask while the
    /// live ask prices lie in one aligned block of the table's size.
    pub fn get_best_ask(&self) -> (r: Option<Price>)
        ensures
            r == self@.asks.best,
    {
        self.asks.best
    }

    /// The quantity in the slot of `price` on `side`, `None` when that slot is empty.
    pub fn get_quantity_at(&self, price: Price, side: Side) -> (r: Option<Quantity>)
        requires
            self.wf(),
        ensures
            r == self@.side(side).level_at(price),
    {
        let ladder = self.ladder(side);
        let idx = slot_index(price);
        let q = ladder.quantities[idx];
        if q > 0 {
            Some(q)
        } else {
            None
        }
    }

    /// Up to `n` occupied levels of `side`, best first: slots are walked from the slot of the
    /// best price, downwards for bids and upwards for asks, wrapping around the table.
    pub fn get_top_levels(&self, side: Side, n: usize) -> (r: Vec<(Price, Quantity)>)
        requires
            self.wf(),
        ensures
            r@ == self@.side(side).top_levels(side, n as nat),
    {
        let ladder = self.ladder(side);
        let ghost m: SideModel = ladder.view();
        let mut out: Vec<(Price, Quantity)> = Vec::new();
        let b = match ladder.best {
            None => {
                return out;
            },
            Some(b) => b,
        };
        if n == 0 {
            proof {
                assert(m.top_levels(side, 0) =~= out@);
            }
            return out;
        }
        let start = slot_index(b);
        let mut idx: usize = start;
        let mut k: usize = 0;
        while k < CAP
            invariant
                ladder.wf(),
                m == ladder.view(),
                m == self@.side(side),
                m.best == Some(b),
                start as int == slot_of(b),
                start < CAP,
                0 < n,
                k <= CAP,
                out@ == m.walk_levels(side, start as int, k as nat),
                out@.len() < n,
                k < CAP ==> idx as int == walk_slot(side, start as int, k as int),
                idx < CAP,
            decreases CAP - k,
        {
            let q = ladder.quantities[idx];
            if q > 0 {
                out.push((ladder.prices[idx], q));
                assert(out@ == m.walk_levels(side, start as int, (k + 1) as nat));
                if out.len() >= n {
                    proof {
                        lemma_walk_prefix(m, side, start as int, (k + 1) as nat, CAP as nat);
                        assert(out@.len() == n);
                        let all = m.walk_levels(side, start as int, CAP as nat);
                        if all.len() <= n {
                            assert(all.take(n as int) =~= all);
                        }
                        assert(m.top_levels(side, n as nat) =~= out@);
                        assert(self@.side(side) == m);
                    }
                    return out;
                }
            } else {
                assert(out@ == m.walk_levels(side, start as int, (k + 1) as nat));
            }
            k = k + 1;
            idx = match side {
                Side::Bid => if idx == 0 {
                    CAP - 1
                } else {
                    idx - 1
                },
                Side::Ask => if idx == CAP - 1 {
                    0
                } else {
                    idx + 1
                },
            };
        }
        out
    }

    /// Total quantity resting on `side`.
    pub fn get_total_quantity(&self, side: Side) -> (r: Quantity)
        requires
            self.wf(),
        ensures
            r as int == self@.side(side).total(),
    {
        self.ladder(side).total
    }

    /// The nearest occupied bid slot strictly below slot `start_idx`, without wrapping.
    pub fn find_next_highest_active_idx(&self, start_idx: usize) -> (r: Option<usize>)
        requires
            self.wf(),
            start_idx < CAP,
        ensures
            match r {
                None => forall|i: int| 0 <= i < start_idx ==> !#[trigger] self@.bids.live(i),
                Some(i) => i < start_idx && self@.bids.live(i as int) && forall|j: int|
                    i < j < start_idx ==> !#[trigger] self@.bids.live(j),
            },
    {
        let r = self.bids.bits.next_below(start_idx);
        proof {
            let t = self.bids.bits.tiers();
            assert forall|i: int| 0 <= i < CAP implies #[trigger] self@.bids.live(i)
                == self.bids.bits.occupied(i) by {
                assert(t.occupied(i) == (self.bids.quantities@[i] > 0));
                assert(self.bids.bits.occupied(i) == t.occupied(i));
            }
        }
        r
    }

    /// The nearest occupied ask slot strictly above slot `start_idx`, without wrapping.
    pub fn find_next_lowest_active_idx(&self, start_idx: usize) -> (r: Option<usize>)
        requires
            self.wf(),
            start_idx < CAP,
        ensures
            match r {
                None => forall|i: int| start_idx < i < CAP ==> !#[trigger] self@.asks.live(i),
                Some(i) => start_idx < i < CAP && self@.asks.live(i as int) && forall|j: int|
                    start_idx < j < i ==> !#[trigger] self@.asks.live(j),
            },
    {
        let r = self.asks.bits.next_above(start_idx);
        proof {
            let t = self.asks.bits.tiers();
            assert forall|i: int| 0 <= i < CAP implies #[trigger] self@.asks.live(i)
                == self.asks.bits.occupied(i) by {
                assert(t.occupied(i) == (self.asks.quantities@[i] > 0));
                assert(self.asks.bits.occupied(i) == t.occupied(i));
            }
        }
        r
    }
}

impl Default for OrderBookImpl {
    fn default() -> (r: Self)
        ensures
            r.wf(),
            r@ == BookModel::empty(),
    {
        Self::new()
    }
}

} // verus!
