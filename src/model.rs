use vstd::prelude::*;
use crate::types::{block_of, slot_of, Price, Quantity, Side, Update, CAP};

verus! {

/// Sum of a sequence of quantities.
pub open spec fn qty_sum(s: Seq<Quantity>) -> int
    decreases s.len(),
{
    if s.len() == 0 {
        0
    } else {
        qty_sum(s.drop_last()) + s.last()
    }
}

/// Overwriting one entry changes the sum by the difference.
pub proof fn lemma_qty_sum_update(s: Seq<Quantity>, i: int, v: Quantity)
    requires
        0 <= i < s.len(),
    ensures
        qty_sum(s.update(i, v)) == qty_sum(s) - s[i] + v,
    decreases s.len(),
{
    let t = s.update(i, v);
    if i == s.len() - 1 {
        assert(t.drop_last() =~= s.drop_last());
    } else {
        assert(t.drop_last() =~= s.drop_last().update(i, v));
        lemma_qty_sum_update(s.drop_last(), i, v);
    }
}

/// The sum is at least any one entry, and never negative.
pub proof fn lemma_qty_sum_bounds(s: Seq<Quantity>)
    ensures
        qty_sum(s) >= 0,
        forall|i: int| 0 <= i < s.len() ==> qty_sum(s) >= #[trigger] s[i],
    decreases s.len(),
{
    if s.len() > 0 {
        lemma_qty_sum_bounds(s.drop_last());
        assert forall|i: int| 0 <= i < s.len() implies qty_sum(s) >= #[trigger] s[i] by {
            if i < s.len() - 1 {
                assert(s[i] == s.drop_last()[i]);
            }
        }
    }
}

/// A sequence of zeros sums to zero.
pub proof fn lemma_qty_sum_zeros(s: Seq<Quantity>)
    requires
        forall|i: int| 0 <= i < s.len() ==> s[i] == 0,
    ensures
        qty_sum(s) == 0,
    decreases s.len(),
{
    if s.len() > 0 {
        lemma_qty_sum_zeros(s.drop_last());
    }
}

/// `a` is a more competitive price than `b` on `side`: higher for bids, lower for asks.
pub open spec fn beats(side: Side, a: Price, b: Price) -> bool {
    match side {
        Side::Bid => a > b,
        Side::Ask => a < b,
    }
}

/// Some slot holds a non-zero quantity.
pub open spec fn any_live(q: Seq<Quantity>) -> bool {
    exists|i: int| 0 <= i < CAP && #[trigger] q[i] > 0
}

/// Slot `i` is the occupied slot that a bitmap scan finds first: the highest occupied slot
/// for bids, the lowest for asks.
pub open spec fn is_edge_slot(q: Seq<Quantity>, side: Side, i: int) -> bool {
    &&& 0 <= i < CAP
    &&& q[i] > 0
    &&& forall|j: int|
        0 <= j < CAP && #[trigger] q[j] > 0 ==> match side {
            Side::Bid => j <= i,
            Side::Ask => j >= i,
        }
}

/// The occupied slot that a bitmap scan finds first.
pub open spec fn edge_slot(q: Seq<Quantity>, side: Side) -> int {
    choose|i: int| is_edge_slot(q, side, i)
}

/// The slot visited at step `k` of a walk from slot `start`: downwards for bids and upwards
/// for asks, wrapping around the table.
pub open spec fn walk_slot(side: Side, start: int, k: int) -> int {
    match side {
        Side::Bid => if k <= start {
            start - k
        } else {
            start - k + CAP
        },
        Side::Ask => if start + k < CAP {
            start + k
        } else {
            start + k - CAP
        },
    }
}

/// One side of the book: the slot table and the cached best price.
pub struct SideModel {
    /// Last price written to each slot.
    pub prices: Seq<Price>,
    /// Quantity in each slot; zero means the slot is empty.
    pub quantities: Seq<Quantity>,
    /// Cached best price, `None` when the side is empty.
    pub best: Option<Price>,
}

impl SideModel {
    /// The side with every slot empty.
    pub open spec fn empty() -> SideModel {
        SideModel {
            prices: Seq::new(CAP as nat, |i: int| 0i64),
            quantities: Seq::new(CAP as nat, |i: int| 0u64),
            best: None,
        }
    }

    /// Slot `i` holds a non-zero quantity.
    pub open spec fn live(self, i: int) -> bool {
        0 <= i < CAP && self.quantities[i] > 0
    }

    /// Total quantity resting on the side.
    pub open spec fn total(self) -> int {
        qty_sum(self.quantities)
    }

    /// The quantity resting at the slot of `price`, `None` when that slot is empty.
    pub open spec fn level_at(self, price: Price) -> Option<Quantity> {
        let q = self.quantities[slot_of(price)];
        if q > 0 {
            Some(q)
        } else {
            None
        }
    }

    /// What a scan of the occupancy bitmap yields as the best price: the price stored at the
    /// highest occupied slot for bids, the lowest for asks, `None` on an empty side.
    pub open spec fn scanned_best(self, side: Side) -> Option<Price> {
        if any_live(self.quantities) {
            Some(self.prices[edge_slot(self.quantities, side)])
        } else {
            None
        }
    }

    /// The side is well formed: full-size tables, every occupied slot holds a price that
    /// maps to it, the cached best is the price of an occupied slot (and `None` exactly when
    /// the side is empty), and the total fits in a quantity.
    pub open spec fn valid(self) -> bool {
        &&& self.prices.len() == CAP
        &&& self.quantities.len() == CAP
        &&& forall|i: int| #[trigger] self.live(i) ==> slot_of(self.prices[i]) == i
        &&& match self.best {
            None => !any_live(self.quantities),
            Some(b) => self.live(slot_of(b)) && self.prices[slot_of(b)] == b,
        }
        &&& self.total() <= u64::MAX
    }

    /// Writing `quantity` at `price` neither overwrites another live price sharing its slot nor
    /// pushes the side's total past the largest quantity.
    pub open spec fn admits(self, price: Price, quantity: Quantity) -> bool {
        let s = slot_of(price);
        &&& (self.quantities[s] == 0 || self.prices[s] == price)
        &&& self.total() - self.quantities[s] + quantity <= u64::MAX
    }

    /// The side after writing `quantity` at `price`: the slot is overwritten; on removal of the
    /// cached best the best is found again by a bitmap scan; on insertion a more competitive
    /// price (or the first one) becomes the best.
    pub open spec fn set_level(self, side: Side, price: Price, quantity: Quantity) -> SideModel {
        let s = slot_of(price);
        let old_q = self.quantities[s];
        let next = SideModel {
            prices: self.prices.update(s, price),
            quantities: self.quantities.update(s, quantity),
            best: self.best,
        };
        let best = if quantity == 0 {
            if old_q > 0 && self.best == Some(price) {
                next.scanned_best(side)
            } else {
                self.best
            }
        } else {
            match self.best {
                Some(b) => if beats(side, price, b) {
                    Some(price)
                } else {
                    Some(b)
                },
                None => Some(price),
            }
        };
        SideModel { best, ..next }
    }

    /// The occupied levels met in the first `k` steps of a walk from slot `start`, in order.
    pub open spec fn walk_levels(self, side: Side, start: int, k: nat) -> Seq<(Price, Quantity)>
        decreases k,
    {
        if k == 0 {
            Seq::empty()
        } else {
            let prev = self.walk_levels(side, start, (k - 1) as nat);
            let s = walk_slot(side, start, k - 1);
            if self.quantities[s] > 0 {
                prev.push((self.prices[s], self.quantities[s]))
            } else {
                prev
            }
        }
    }

    /// The first `n` occupied levels of a full walk of the table that starts at the slot of
    /// the cached best; empty on an empty side.
    pub open spec fn top_levels(self, side: Side, n: nat) -> Seq<(Price, Quantity)> {
        match self.best {
            None => Seq::empty(),
            Some(b) => {
                let all = self.walk_levels(side, slot_of(b), CAP as nat);
                if all.len() <= n {
                    all
                } else {
                    all.take(n as int)
                }
            },
        }
    }

    /// Every occupied slot holds a price from one aligned block of `CAP` prices.
    pub open spec fn in_one_block(self) -> bool {
        forall|i: int, j: int|
            #[trigger] self.live(i) && #[trigger] self.live(j) ==> block_of(self.prices[i])
                == block_of(self.prices[j])
    }

    /// The cached best is the most competitive price resting on the side, or `None` when the
    /// side is empty.
    pub open spec fn best_is_top(self, side: Side) -> bool {
        match self.best {
            None => forall|i: int| !#[trigger] self.live(i),
            Some(b) => (exists|i: int| #[trigger] self.live(i) && self.prices[i] == b) && forall|
                i: int,
            | #[trigger] self.live(i) ==> !beats(side, self.prices[i], b),
        }
    }
}

/// A shorter walk yields a prefix of what a longer one yields.
pub proof fn lemma_walk_prefix(m: SideModel, side: Side, start: int, k: nat, l: nat)
    requires
        k <= l,
    ensures
        m.walk_levels(side, start, k).len() <= m.walk_levels(side, start, l).len(),
        m.walk_levels(side, start, l).take(m.walk_levels(side, start, k).len() as int)
            == m.walk_levels(side, start, k),
    decreases l,
{
    let a = m.walk_levels(side, start, k);
    if k < l {
        lemma_walk_prefix(m, side, start, k, (l - 1) as nat);
        let b = m.walk_levels(side, start, (l - 1) as nat);
        let c = m.walk_levels(side, start, l);
        assert(c.take(b.len() as int) =~= b);
        assert(c.take(a.len() as int) =~= b.take(a.len() as int));
    } else {
        assert(a.take(a.len() as int) =~= a);
    }
}

/// Both sides of the book.
pub struct BookModel {
    pub bids: SideModel,
    pub asks: SideModel,
}

/// The side, price and quantity that an update writes.
pub open spec fn update_parts(u: Update) -> (Side, Price, Quantity) {
    match u {
        Update::SetLevel { price, quantity, side } => (side, price, quantity),
        Update::Remove { price, side } => (side, price, 0u64),
    }
}

impl BookModel {
    pub open spec fn empty() -> BookModel {
        BookModel { bids: SideModel::empty(), asks: SideModel::empty() }
    }

    pub open spec fn side(self, side: Side) -> SideModel {
        match side {
            Side::Bid => self.bids,
            Side::Ask => self.asks,
        }
    }

    pub open spec fn valid(self) -> bool {
        self.bids.valid() && self.asks.valid()
    }

    /// The update can be applied without aliasing a live price or overflowing a total.
    pub open spec fn admits(self, u: Update) -> bool {
        let (side, price, quantity) = update_parts(u);
        self.side(side).admits(price, quantity)
    }

    /// The book after an update; the other side is untouched.
    pub open spec fn apply(self, u: Update) -> BookModel {
        let (side, price, quantity) = update_parts(u);
        let changed = self.side(side).set_level(side, price, quantity);
        match side {
            Side::Bid => BookModel { bids: changed, ..self },
            Side::Ask => BookModel { asks: changed, ..self },
        }
    }

    /// Best ask minus best bid, when both sides are non-empty.
    pub open spec fn spread(self) -> Option<int> {
        match (self.bids.best, self.asks.best) {
            (Some(b), Some(a)) => Some(a - b),
            _ => None,
        }
    }
}

} // verus!
