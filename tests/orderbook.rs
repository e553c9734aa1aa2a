use orderbook::{OrderBookImpl, Side, Update};

fn set(ob: &mut OrderBookImpl, price: i64, quantity: u64, side: Side) {
    let u = Update::SetLevel { price, quantity, side };
    assert!(ob.admits(u));
    ob.apply_update(u);
}

fn remove(ob: &mut OrderBookImpl, price: i64, side: Side) {
    let u = Update::Remove { price, side };
    assert!(ob.admits(u));
    ob.apply_update(u);
}

fn check_basic_operations() {
    let mut ob = OrderBookImpl::new();

    set(&mut ob, 10000, 100, Side::Bid);
    set(&mut ob, 9950, 150, Side::Bid);

    set(&mut ob, 10050, 80, Side::Ask);
    set(&mut ob, 10100, 120, Side::Ask);

    assert_eq!(ob.get_best_bid(), Some(10000));
    assert_eq!(ob.get_best_ask(), Some(10050));
    assert_eq!(ob.get_spread(), Some(50));
    assert_eq!(ob.get_quantity_at(10000, Side::Bid), Some(100));
}

fn check_updates_and_removes() {
    let mut ob = OrderBookImpl::new();

    set(&mut ob, 10000, 100, Side::Bid);
    assert_eq!(ob.get_quantity_at(10000, Side::Bid), Some(100));

    set(&mut ob, 10000, 200, Side::Bid);
    assert_eq!(ob.get_quantity_at(10000, Side::Bid), Some(200));

    set(&mut ob, 10000, 0, Side::Bid);
    assert_eq!(ob.get_quantity_at(10000, Side::Bid), None);

    set(&mut ob, 10000, 100, Side::Bid);
    remove(&mut ob, 10000, Side::Bid);
    assert_eq!(ob.get_quantity_at(10000, Side::Bid), None);
}

#[test]
fn test_naive_implementation() {
    check_basic_operations();
    check_updates_and_removes();
}

#[test]
fn empty_book_has_no_prices() {
    let ob = OrderBookImpl::new();
    assert_eq!(ob.get_best_bid(), None);
    assert_eq!(ob.get_best_ask(), None);
    assert_eq!(ob.get_spread(), None);
    assert_eq!(ob.get_total_quantity(Side::Bid), 0);
    assert_eq!(ob.get_total_quantity(Side::Ask), 0);
    assert_eq!(ob.get_top_levels(Side::Bid, 3), vec![]);
    assert_eq!(ob.get_top_levels(Side::Ask, 3), vec![]);
    assert_eq!(ob.get_quantity_at(10000, Side::Bid), None);
}

#[test]
fn default_book_is_empty() {
    let ob = OrderBookImpl::default();
    assert_eq!(ob.get_best_bid(), None);
    assert_eq!(ob.get_best_ask(), None);
}

#[test]
fn two_sided_book_reports_best_and_spread() {
    let mut ob = OrderBookImpl::new();
    set(&mut ob, 10000, 100, Side::Bid);
    set(&mut ob, 9950, 150, Side::Bid);
    set(&mut ob, 10050, 80, Side::Ask);
    set(&mut ob, 10100, 120, Side::Ask);
    assert_eq!(ob.get_best_bid(), Some(10000));
    assert_eq!(ob.get_best_ask(), Some(10050));
    assert_eq!(ob.get_spread(), Some(50));
    assert_eq!(ob.get_quantity_at(10000, Side::Bid), Some(100));
    assert_eq!(ob.get_total_quantity(Side::Bid), 250);
    assert_eq!(ob.get_total_quantity(Side::Ask), 200);
}

#[test]
fn overwrite_replaces_quantity_and_total() {
    let mut ob = OrderBookImpl::new();
    set(&mut ob, 10000, 100, Side::Bid);
    set(&mut ob, 10000, 200, Side::Bid);
    assert_eq!(ob.get_quantity_at(10000, Side::Bid), Some(200));
    assert_eq!(ob.get_total_quantity(Side::Bid), 200);
}

#[test]
fn zero_quantity_removes_only_bid() {
    let mut ob = OrderBookImpl::new();
    set(&mut ob, 10000, 100, Side::Bid);
    set(&mut ob, 10000, 0, Side::Bid);
    assert_eq!(ob.get_quantity_at(10000, Side::Bid), None);
    assert_eq!(ob.get_best_bid(), None);
    assert_eq!(ob.get_total_quantity(Side::Bid), 0);
}

#[test]
fn best_bid_falls_back_after_removals() {
    let mut ob = OrderBookImpl::new();
    set(&mut ob, 9999, 10, Side::Bid);
    set(&mut ob, 10000, 20, Side::Bid);
    assert_eq!(ob.get_best_bid(), Some(10000));
    remove(&mut ob, 10000, Side::Bid);
    assert_eq!(ob.get_best_bid(), Some(9999));
    remove(&mut ob, 9999, Side::Bid);
    assert_eq!(ob.get_best_bid(), None);
}

#[test]
fn best_ask_rises_after_removal() {
    let mut ob = OrderBookImpl::new();
    set(&mut ob, 10100, 5, Side::Ask);
    set(&mut ob, 10050, 7, Side::Ask);
    set(&mut ob, 20000, 9, Side::Ask);
    assert_eq!(ob.get_best_ask(), Some(10050));
    remove(&mut ob, 10050, Side::Ask);
    assert_eq!(ob.get_best_ask(), Some(10100));
    remove(&mut ob, 10100, Side::Ask);
    assert_eq!(ob.get_best_ask(), Some(20000));
}

#[test]
fn repeated_set_changes_nothing_more() {
    let mut once = OrderBookImpl::new();
    let mut twice = OrderBookImpl::new();
    for ob in [&mut once, &mut twice] {
        set(ob, 10000, 100, Side::Bid);
        set(ob, 10020, 40, Side::Ask);
    }
    set(&mut once, 9990, 30, Side::Bid);
    set(&mut twice, 9990, 30, Side::Bid);
    set(&mut twice, 9990, 30, Side::Bid);
    assert_eq!(once.get_best_bid(), twice.get_best_bid());
    assert_eq!(once.get_total_quantity(Side::Bid), twice.get_total_quantity(Side::Bid));
    assert_eq!(twice.get_total_quantity(Side::Bid), 130);
    assert_eq!(once.get_quantity_at(9990, Side::Bid), twice.get_quantity_at(9990, Side::Bid));
    assert_eq!(once.get_top_levels(Side::Bid, 10), twice.get_top_levels(Side::Bid, 10));
}

#[test]
fn set_then_remove_restores_side() {
    let mut ob = OrderBookImpl::new();
    set(&mut ob, 10000, 100, Side::Bid);
    set(&mut ob, 9950, 150, Side::Bid);
    let best = ob.get_best_bid();
    let total = ob.get_total_quantity(Side::Bid);
    set(&mut ob, 10010, 25, Side::Bid);
    assert_eq!(ob.get_best_bid(), Some(10010));
    remove(&mut ob, 10010, Side::Bid);
    assert_eq!(ob.get_best_bid(), best);
    assert_eq!(ob.get_total_quantity(Side::Bid), total);
    assert_eq!(ob.get_quantity_at(10010, Side::Bid), None);
}

#[test]
fn totals_sum_live_levels() {
    let mut ob = OrderBookImpl::new();
    set(&mut ob, 100, 1, Side::Ask);
    set(&mut ob, 101, 2, Side::Ask);
    set(&mut ob, 102, 4, Side::Ask);
    set(&mut ob, 101, 8, Side::Ask);
    remove(&mut ob, 100, Side::Ask);
    assert_eq!(ob.get_total_quantity(Side::Ask), 12);
    assert_eq!(ob.get_total_quantity(Side::Bid), 0);
}

#[test]
fn top_levels_best_first_both_sides() {
    let mut ob = OrderBookImpl::new();
    set(&mut ob, 10000, 100, Side::Bid);
    set(&mut ob, 9950, 150, Side::Bid);
    set(&mut ob, 9900, 50, Side::Bid);
    set(&mut ob, 10050, 80, Side::Ask);
    set(&mut ob, 10100, 120, Side::Ask);
    assert_eq!(ob.get_top_levels(Side::Bid, 2), vec![(10000, 100), (9950, 150)]);
    assert_eq!(ob.get_top_levels(Side::Bid, 10), vec![(10000, 100), (9950, 150), (9900, 50)]);
    assert_eq!(ob.get_top_levels(Side::Ask, 10), vec![(10050, 80), (10100, 120)]);
    assert_eq!(ob.get_top_levels(Side::Ask, 1), vec![(10050, 80)]);
}

#[test]
fn top_levels_of_zero_is_empty() {
    let mut ob = OrderBookImpl::new();
    set(&mut ob, 10000, 100, Side::Bid);
    assert_eq!(ob.get_top_levels(Side::Bid, 0), vec![]);
}

#[test]
fn top_levels_walk_wraps_around_table() {
    let mut ob = OrderBookImpl::new();
    set(&mut ob, 65536, 3, Side::Bid);
    set(&mut ob, 65535, 4, Side::Bid);
    assert_eq!(ob.get_best_bid(), Some(65536));
    assert_eq!(ob.get_top_levels(Side::Bid, 5), vec![(65536, 3), (65535, 4)]);
    set(&mut ob, 65535, 6, Side::Ask);
    set(&mut ob, 65537, 7, Side::Ask);
    assert_eq!(ob.get_best_ask(), Some(65535));
    assert_eq!(ob.get_top_levels(Side::Ask, 5), vec![(65535, 6), (65537, 7)]);
}

#[test]
fn negative_prices_are_indexed() {
    let mut ob = OrderBookImpl::new();
    set(&mut ob, -10, 5, Side::Bid);
    set(&mut ob, -5, 9, Side::Ask);
    assert_eq!(ob.get_quantity_at(-5, Side::Ask), Some(9));
    assert_eq!(ob.get_best_bid(), Some(-10));
    assert_eq!(ob.get_best_ask(), Some(-5));
    assert_eq!(ob.get_spread(), Some(5));
}

#[test]
fn extreme_prices_are_real_levels() {
    let mut ob = OrderBookImpl::new();
    set(&mut ob, i64::MIN, 1, Side::Bid);
    set(&mut ob, i64::MAX, 1, Side::Ask);
    assert_eq!(ob.get_best_bid(), Some(i64::MIN));
    assert_eq!(ob.get_best_ask(), Some(i64::MAX));
}

#[test]
fn aliasing_price_is_not_admitted() {
    let mut ob = OrderBookImpl::new();
    set(&mut ob, 10000, 100, Side::Bid);
    let alias = 10000 + 65536;
    assert!(!ob.admits(Update::SetLevel { price: alias, quantity: 5, side: Side::Bid }));
    assert!(!ob.admits(Update::Remove { price: alias, side: Side::Bid }));
    assert!(ob.admits(Update::SetLevel { price: alias, quantity: 5, side: Side::Ask }));
    assert!(ob.admits(Update::SetLevel { price: 10000, quantity: 7, side: Side::Bid }));
}

#[test]
fn total_overflow_is_not_admitted() {
    let mut ob = OrderBookImpl::new();
    set(&mut ob, 1, u64::MAX - 1, Side::Bid);
    assert!(ob.admits(Update::SetLevel { price: 2, quantity: 1, side: Side::Bid }));
    assert!(!ob.admits(Update::SetLevel { price: 2, quantity: 2, side: Side::Bid }));
    assert!(ob.admits(Update::SetLevel { price: 1, quantity: u64::MAX, side: Side::Bid }));
}

#[test]
fn rescan_takes_highest_occupied_slot() {
    let mut ob = OrderBookImpl::new();
    set(&mut ob, 65536, 1, Side::Bid);
    set(&mut ob, 65537, 1, Side::Bid);
    set(&mut ob, 65535, 1, Side::Bid);
    assert_eq!(ob.get_best_bid(), Some(65537));
    remove(&mut ob, 65537, Side::Bid);
    assert_eq!(ob.get_best_bid(), Some(65535));
}

#[test]
fn next_active_slots_below_and_above() {
    let mut ob = OrderBookImpl::new();
    set(&mut ob, 10000, 100, Side::Bid);
    set(&mut ob, 9950, 150, Side::Bid);
    set(&mut ob, 63, 1, Side::Bid);
    set(&mut ob, 10050, 80, Side::Ask);
    set(&mut ob, 10100, 120, Side::Ask);
    set(&mut ob, 191, 1, Side::Ask);
    assert_eq!(ob.find_next_highest_active_idx(10000), Some(9950));
    assert_eq!(ob.find_next_highest_active_idx(9950), Some(63));
    assert_eq!(ob.find_next_highest_active_idx(63), None);
    assert_eq!(ob.find_next_lowest_active_idx(10050), Some(10100));
    assert_eq!(ob.find_next_lowest_active_idx(10100), None);
    assert_eq!(ob.find_next_lowest_active_idx(127), Some(191));
    assert_eq!(ob.find_next_lowest_active_idx(191), Some(10050));
}
