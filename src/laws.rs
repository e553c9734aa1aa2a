use vstd::prelude::*;
use crate::model::{
    any_live, beats, edge_slot, is_edge_slot, lemma_qty_sum_update, lemma_qty_sum_zeros,
    update_parts, BookModel, SideModel,
};
use crate::types::{lemma_block_slot_order, lemma_slot_in_range, slot_of, Price, Quantity, Side, Update, CAP};

verus! {

/// With no edge slot for bids, some occupied slot lies at or above every `k`.
proof fn lemma_no_highest(q: Seq<Quantity>, k: int)
    requires
        0 <= k <= CAP,
        any_live(q),
        forall|i: int| !#[trigger] is_edge_slot(q, Side::Bid, i),
    ensures
        exists|i: int| k <= i < CAP && #[trigger] q[i] > 0,
    decreases k,
{
    if k > 0 {
        lemma_no_highest(q, k - 1);
        let i = choose|i: int| k - 1 <= i < CAP && #[trigger] q[i] > 0;
        if i == k - 1 {
            assert(!is_edge_slot(q, Side::Bid, i));
        }
    }
}

/// With no edge slot for asks, some occupied slot lies below `CAP - k` for every `k`.
proof fn lemma_no_lowest(q: Seq<Quantity>, k: int)
    requires
        0 <= k <= CAP,
        any_live(q),
        forall|i: int| !#[trigger] is_edge_slot(q, Side::Ask, i),
    ensures
        exists|i: int| 0 <= i < CAP - k && #[trigger] q[i] > 0,
    decreases k,
{
    if k > 0 {
        lemma_no_lowest(q, k - 1);
        let i = choose|i: int| 0 <= i < CAP - (k - 1) && #[trigger] q[i] > 0;
        if i == CAP - k {
            assert(!is_edge_slot(q, Side::Ask, i));
        }
    }
}

/// A side with an occupied slot has an edge slot, the one a bitmap scan finds.
pub proof fn lemma_edge_slot_exists(q: Seq<Quantity>, side: Side)
    requires
        any_live(q),
    ensures
        is_edge_slot(q, side, edge_slot(q, side)),
{
    if !exists|i: int| is_edge_slot(q, side, i) {
        match side {
            Side::Bid => lemma_no_highest(q, CAP as int),
            Side::Ask => lemma_no_lowest(q, CAP as int),
        }
    }
}

/// Applying the same `SetLevel` twice leaves the book exactly as applying it once.
pub proof fn lemma_set_level_idempotent(m: BookModel, price: Price, quantity: Quantity, side: Side)
    requires
        m.valid(),
    ensures
        ({
            let u = Update::SetLevel { price, quantity, side };
            m.apply(u).apply(u) == m.apply(u)
        }),
{
    let u = Update::SetLevel { price, quantity, side };
    lemma_slot_in_range(price);
    let s0 = m.side(side);
    let s1 = s0.set_level(side, price, quantity);
    let s2 = s1.set_level(side, price, quantity);
    let x = slot_of(price);
    assert(s2.prices =~= s1.prices);
    assert(s2.quantities =~= s1.quantities);
    assert(s2 == s1);
    assert(m.apply(u).side(side) == s1);
}

/// Writing a level at a price whose slot is empty and then removing it restores the side:
/// the same quantities in every slot, the same total, the same best, and no level at that
/// price; the other side is untouched. Where the new level would have become the best, the
/// cached best must be what a bitmap scan finds, since the removal rescans.
pub proof fn lemma_set_then_remove(m: BookModel, price: Price, quantity: Quantity, side: Side)
    requires
        m.valid(),
        m.side(side).level_at(price) is None,
        quantity > 0 ==> (m.side(side).best matches Some(b) && beats(side, price, b)) ==> m.side(
            side,
        ).best == m.side(side).scanned_best(side),
    ensures
        ({
            let after = m.apply(Update::SetLevel { price, quantity, side }).apply(
                Update::Remove { price, side },
            );
            &&& after.side(side).quantities == m.side(side).quantities
            &&& after.side(side).total() == m.side(side).total()
            &&& after.side(side).best == m.side(side).best
            &&& after.side(side).level_at(price) is None
            &&& match side {
                Side::Bid => after.asks == m.asks,
                Side::Ask => after.bids == m.bids,
            }
        }),
{
    lemma_slot_in_range(price);
    let x = slot_of(price);
    let s0 = m.side(side);
    let s1 = s0.set_level(side, price, quantity);
    let s2 = s1.set_level(side, price, 0);
    assert(s2.quantities =~= s0.quantities);
    let mid = m.apply(Update::SetLevel { price, quantity, side });
    assert(mid.side(side) == s1);
    if quantity > 0 {
        if let Some(b) = s0.best {
            assert(s0.live(slot_of(b)));
            assert(b != price);
        }
        if s1.best == Some(price) {
            if any_live(s0.quantities) {
                lemma_edge_slot_exists(s0.quantities, side);
                let e = edge_slot(s0.quantities, side);
                assert(e != x);
            }
        }
    }
}

/// A side whose cached best is its most competitive live price keeps that property through any
/// admitted update of a valid book after which the side's live prices lie in one aligned block
/// of `CAP` prices.
pub proof fn lemma_best_stays_top(m: BookModel, u: Update, side: Side)
    requires
        m.valid(),
        m.admits(u),
        m.side(side).best_is_top(side),
        m.apply(u).side(side).in_one_block(),
    ensures
        m.apply(u).side(side).best_is_top(side),
{
    let (us, price, quantity) = update_parts(u);
    if us != side {
        assert(m.apply(u).side(side) == m.side(side));
        return;
    }
    lemma_slot_in_range(price);
    let x = slot_of(price);
    let s0 = m.side(side);
    let s1 = s0.set_level(side, price, quantity);
    assert(m.apply(u).side(side) == s1);
    let old_q = s0.quantities[x];
    assert forall|i: int| i != x implies #[trigger] s1.live(i) == s0.live(i) by {}
    if quantity > 0 {
        assert(s1.live(x));
        match s0.best {
            None => {
                assert(s1.live(x) && s1.prices[x] == price);
                assert forall|i: int| #[trigger] s1.live(i) implies !beats(side, s1.prices[i], price) by {
                    if i != x {
                        assert(s0.live(i));
                    }
                }
            },
            Some(b) => {
                let w = choose|i: int| #[trigger] s0.live(i) && s0.prices[i] == b;
                if w == x {
                    assert(s0.prices[x] == price);
                }
                let nb = s1.best->0;
                if nb == price {
                    assert(s1.live(x) && s1.prices[x] == nb);
                } else {
                    assert(s1.live(w) && s1.prices[w] == nb);
                }
                assert forall|i: int| #[trigger] s1.live(i) implies !beats(side, s1.prices[i], nb) by {
                    if i != x {
                        assert(s0.live(i));
                        assert(!beats(side, s0.prices[i], b));
                    }
                }
            },
        }
    } else if old_q > 0 && s0.best == Some(price) {
        if any_live(s1.quantities) {
            lemma_edge_slot_exists(s1.quantities, side);
            let e = edge_slot(s1.quantities, side);
            let nb = s1.prices[e];
            assert(s1.live(e) && s1.prices[e] == nb);
            assert forall|i: int| #[trigger] s1.live(i) implies !beats(side, s1.prices[i], nb) by {
                assert(s0.live(i) && s0.live(e));
                assert(slot_of(s0.prices[i]) == i && slot_of(s0.prices[e]) == e);
                match side {
                    Side::Bid => lemma_block_slot_order(s1.prices[i], nb),
                    Side::Ask => lemma_block_slot_order(nb, s1.prices[i]),
                }
            }
        } else {
            assert forall|i: int| !#[trigger] s1.live(i) by {
                if 0 <= i < CAP {
                    assert(!(s1.quantities[i] > 0));
                }
            }
        }
    } else {
        match s0.best {
            None => {
                assert forall|i: int| !#[trigger] s1.live(i) by {
                    if i != x {
                        assert(!s0.live(i));
                    }
                }
            },
            Some(b) => {
                let w = slot_of(b);
                assert(s0.live(w) && s0.prices[w] == b);
                assert(w != x);
                assert(s1.live(w) && s1.prices[w] == b);
                assert forall|i: int| #[trigger] s1.live(i) implies !beats(side, s1.prices[i], b) by {
                    assert(s0.live(i));
                }
            },
        }
    }
}

/// An admitted update keeps a valid book valid.
pub proof fn lemma_apply_valid(m: BookModel, u: Update)
    requires
        m.valid(),
        m.admits(u),
    ensures
        m.apply(u).valid(),
{
    let (side, price, quantity) = update_parts(u);
    lemma_slot_in_range(price);
    let x = slot_of(price);
    let s0 = m.side(side);
    let s1 = s0.set_level(side, price, quantity);
    assert(m.apply(u).side(side) == s1);
    lemma_qty_sum_update(s0.quantities, x, quantity);
    assert forall|i: int| #[trigger] s1.live(i) implies slot_of(s1.prices[i]) == i by {
        if i != x {
            assert(s0.live(i));
        }
    }
    let old_q = s0.quantities[x];
    if quantity == 0 && old_q > 0 && s0.best == Some(price) {
        if any_live(s1.quantities) {
            lemma_edge_slot_exists(s1.quantities, side);
            assert(s1.live(edge_slot(s1.quantities, side)));
        }
    } else if quantity == 0 {
        if let Some(b) = s0.best {
            assert(s0.live(slot_of(b)));
            assert(slot_of(b) != x);
            assert(s1.live(slot_of(b)));
        } else {
            assert forall|i: int| 0 <= i < CAP implies !(#[trigger] s1.quantities[i] > 0) by {
                if i != x {
                    assert(!(s0.quantities[i] > 0));
                }
            }
        }
    } else {
        if let Some(b) = s0.best {
            assert(s0.live(slot_of(b)));
        }
        assert(s1.live(x));
    }
}

/// The book after applying a sequence of updates in order.
pub open spec fn replay(m: BookModel, us: Seq<Update>) -> BookModel
    decreases us.len(),
{
    if us.len() == 0 {
        m
    } else {
        replay(m, us.drop_last()).apply(us.last())
    }
}

/// Starting from the empty book, after any sequence of updates each admitted when applied, the
/// book is valid; and on a side whose live prices lay in one aligned block of `CAP` prices
/// after every update, the cached best is the most competitive live price.
pub proof fn lemma_best_top_throughout(us: Seq<Update>, side: Side)
    requires
        forall|k: int|
            0 <= k < us.len() ==> #[trigger] replay(BookModel::empty(), us.take(k)).admits(us[k]),
        forall|k: int|
            0 < k <= us.len() ==> #[trigger] replay(BookModel::empty(), us.take(k)).side(
                side,
            ).in_one_block(),
    ensures
        replay(BookModel::empty(), us).valid(),
        replay(BookModel::empty(), us).side(side).best_is_top(side),
    decreases us.len(),
{
    let e = BookModel::empty();
    if us.len() == 0 {
        lemma_empty_valid();
    } else {
        let n = us.len() - 1;
        let pre = us.drop_last();
        assert forall|k: int| 0 <= k < pre.len() implies #[trigger] replay(e, pre.take(k)).admits(
            pre[k],
        ) by {
            assert(pre.take(k) =~= us.take(k));
            assert(replay(e, us.take(k)).admits(us[k]));
        }
        assert forall|k: int| 0 < k <= pre.len() implies #[trigger] replay(e, pre.take(k)).side(
            side,
        ).in_one_block() by {
            assert(pre.take(k) =~= us.take(k));
            assert(replay(e, us.take(k)).side(side).in_one_block());
        }
        lemma_best_top_throughout(pre, side);
        assert(us.take(n) =~= pre);
        assert(us.take(n + 1) =~= us);
        assert(replay(e, us.take(n)).admits(us[n]));
        assert(replay(e, us.take(n + 1)).side(side).in_one_block());
        lemma_apply_valid(replay(e, pre), us.last());
        lemma_best_stays_top(replay(e, pre), us.last(), side);
    }
}

/// The empty book is valid and its sides have no best.
pub proof fn lemma_empty_valid()
    ensures
        BookModel::empty().valid(),
        BookModel::empty().bids.best_is_top(Side::Bid),
        BookModel::empty().asks.best_is_top(Side::Ask),
{
    let s = SideModel::empty();
    lemma_qty_sum_zeros(s.quantities);
    assert(!any_live(s.quantities));
}

} // verus!
