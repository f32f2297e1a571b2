use eterna::orderbook::OrderBook;
use eterna::{Fill, Order, OrderBookSnapshot, PriceLevel, Side};

fn order(id: u64, side: Side, price: u64, qty: u64) -> Order {
    Order { id, side, price, qty }
}

fn fills(fills: &[Fill]) -> Vec<(u64, u64, u64, u64)> {
    fills.iter().map(|f| (f.maker_order_id, f.taker_order_id, f.price, f.qty)).collect()
}

fn levels(levels: &[PriceLevel]) -> Vec<(u64, u64)> {
    levels.iter().map(|l| (l.price, l.qty)).collect()
}

fn sides(snapshot: &OrderBookSnapshot) -> (Vec<(u64, u64)>, Vec<(u64, u64)>) {
    (levels(&snapshot.bids), levels(&snapshot.asks))
}

#[test]
fn no_match_when_spread_exists() {
    let mut book = OrderBook::new();
    assert!(book.submit(order(1, Side::Buy, 99, 10)).is_empty());
    assert!(book.submit(order(2, Side::Sell, 101, 10)).is_empty());
}

#[test]
fn exact_match() {
    let mut book = OrderBook::new();
    book.submit(order(1, Side::Buy, 100, 10));
    let fills = book.submit(order(2, Side::Sell, 100, 10));
    assert_eq!(fills.len(), 1);
    assert_eq!(fills[0].price, 100);
    assert_eq!(fills[0].qty, 10);
    assert_eq!(fills[0].maker_order_id, 1);
    assert_eq!(fills[0].taker_order_id, 2);
    let snap = book.snapshot();
    assert!(snap.bids.is_empty());
    assert!(snap.asks.is_empty());
}

#[test]
fn partial_fill_leaves_remainder() {
    let mut book = OrderBook::new();
    book.submit(order(1, Side::Buy, 100, 10));
    let fills = book.submit(order(2, Side::Sell, 100, 6));
    assert_eq!(fills[0].qty, 6);
    assert_eq!(book.snapshot().bids[0].qty, 4);
}

#[test]
fn taker_sweeps_multiple_levels() {
    let mut book = OrderBook::new();
    book.submit(order(1, Side::Sell, 101, 5));
    book.submit(order(2, Side::Sell, 102, 5));
    let fills = book.submit(order(3, Side::Buy, 103, 10));
    assert_eq!(fills.len(), 2);
    assert_eq!(fills[0].price, 101);
    assert_eq!(fills[1].price, 102);
}

#[test]
fn price_time_priority() {
    let mut book = OrderBook::new();
    book.submit(order(1, Side::Buy, 100, 5));
    book.submit(order(2, Side::Buy, 100, 5));
    let fills = book.submit(order(3, Side::Sell, 100, 5));
    assert_eq!(fills[0].maker_order_id, 1);
}

#[test]
fn fill_at_maker_price() {
    let mut book = OrderBook::new();
    book.submit(order(1, Side::Sell, 100, 10));
    let fills = book.submit(order(2, Side::Buy, 105, 10));
    assert_eq!(fills[0].price, 100);
}

#[test]
fn best_pointer_updates_after_level_drained() {
    let mut book = OrderBook::new();
    book.submit(order(1, Side::Sell, 100, 5));
    book.submit(order(2, Side::Sell, 101, 5));
    // Drain 100 level completely
    book.submit(order(3, Side::Buy, 100, 5));
    // Best ask should now be 101
    assert_eq!(book.best_ask(), Some(101));
}

#[test]
fn ids_count_up_from_one() {
    let mut book = OrderBook::new();
    assert_eq!(book.next_id(), 1);
    assert_eq!(book.next_id(), 2);
    assert_eq!(book.try_next_id(), Some(3));
    assert_eq!(book.next_id(), 4);
}

#[test]
fn empty_book_has_no_best_prices() {
    let book = OrderBook::new();
    assert_eq!(book.best_bid(), None);
    assert_eq!(book.best_ask(), None);
    assert_eq!(sides(&book.snapshot()), (vec![], vec![]));
}

#[test]
fn order_without_quantity_changes_nothing() {
    let mut book = OrderBook::new();
    book.submit(order(1, Side::Sell, 100, 5));
    assert!(book.submit(order(2, Side::Buy, 100, 0)).is_empty());
    assert_eq!(sides(&book.snapshot()), (vec![], vec![(100, 5)]));
}

#[test]
fn sell_sweeps_bids_from_the_highest_price() {
    let mut book = OrderBook::new();
    book.submit(order(1, Side::Buy, 98, 4));
    book.submit(order(2, Side::Buy, 100, 3));
    book.submit(order(3, Side::Buy, 99, 2));
    let done = book.submit(order(4, Side::Sell, 99, 8));
    assert_eq!(fills(&done), vec![(2, 4, 100, 3), (3, 4, 99, 2)]);
    // What is left of the seller rests at its own limit.
    assert_eq!(sides(&book.snapshot()), (vec![(98, 4)], vec![(99, 3)]));
    assert_eq!(book.best_bid(), Some(98));
    assert_eq!(book.best_ask(), Some(99));
}

#[test]
fn makers_at_one_price_fill_in_arrival_order() {
    let mut book = OrderBook::new();
    book.submit(order(1, Side::Sell, 100, 2));
    book.submit(order(2, Side::Sell, 100, 3));
    book.submit(order(3, Side::Sell, 100, 4));
    let first = book.submit(order(4, Side::Buy, 100, 4));
    assert_eq!(fills(&first), vec![(1, 4, 100, 2), (2, 4, 100, 2)]);
    // The partly filled maker keeps its place.
    let second = book.submit(order(5, Side::Buy, 100, 2));
    assert_eq!(fills(&second), vec![(2, 5, 100, 1), (3, 5, 100, 1)]);
    assert_eq!(sides(&book.snapshot()), (vec![], vec![(100, 3)]));
}

#[test]
fn later_order_with_a_better_price_goes_first() {
    let mut book = OrderBook::new();
    book.submit(order(1, Side::Sell, 101, 1));
    book.submit(order(2, Side::Sell, 100, 1));
    let done = book.submit(order(3, Side::Buy, 101, 2));
    assert_eq!(fills(&done), vec![(2, 3, 100, 1), (1, 3, 101, 1)]);
}

#[test]
fn snapshot_aggregates_levels_best_first() {
    let mut book = OrderBook::new();
    for (id, (side, price, qty)) in [
        (Side::Buy, 90, 1),
        (Side::Buy, 92, 2),
        (Side::Buy, 91, 3),
        (Side::Buy, 92, 4),
        (Side::Sell, 95, 5),
        (Side::Sell, 93, 6),
        (Side::Sell, 95, 7),
    ]
    .into_iter()
    .enumerate()
    {
        book.submit(order(id as u64 + 1, side, price, qty));
    }
    let expected = (vec![(92, 6), (91, 3), (90, 1)], vec![(93, 6), (95, 12)]);
    assert_eq!(sides(&book.snapshot()), expected);
    assert_eq!(sides(&book.try_snapshot().unwrap()), expected);
}

#[test]
fn level_total_beyond_u64_has_no_snapshot() {
    let mut book = OrderBook::new();
    book.submit(order(1, Side::Buy, 100, u64::MAX));
    assert_eq!(sides(&book.try_snapshot().unwrap()), (vec![(100, u64::MAX)], vec![]));
    book.submit(order(2, Side::Buy, 100, 1));
    assert!(book.try_snapshot().is_none());
    // The order that is in the way can still trade.
    let done = book.submit(order(3, Side::Sell, 0, u64::MAX));
    assert_eq!(fills(&done), vec![(1, 3, 100, u64::MAX)]);
    assert_eq!(sides(&book.try_snapshot().unwrap()), (vec![(100, 1)], vec![]));
}

#[test]
fn extreme_prices_match() {
    let mut book = OrderBook::new();
    book.submit(order(1, Side::Buy, 0, 1));
    book.submit(order(2, Side::Sell, u64::MAX, 1));
    assert_eq!(fills(&book.submit(order(3, Side::Sell, 0, 1))), vec![(1, 3, 0, 1)]);
    assert_eq!(fills(&book.submit(order(4, Side::Buy, u64::MAX, 1))), vec![(2, 4, u64::MAX, 1)]);
}

#[test]
fn quantity_is_conserved_over_submissions() {
    let mut book = OrderBook::new();
    let mut submitted: u64 = 0;
    let mut filled: u64 = 0;
    for i in 0..200u64 {
        let side = if i % 3 == 0 { Side::Sell } else { Side::Buy };
        let qty = 1 + i % 7;
        submitted += qty;
        let id = book.next_id();
        for fill in book.submit(order(id, side, 95 + (i * 5) % 11, qty)) {
            assert_ne!(fill.maker_order_id, fill.taker_order_id);
            filled += fill.qty;
        }
        if let (Some(bid), Some(ask)) = (book.best_bid(), book.best_ask()) {
            assert!(bid < ask);
        }
    }
    let snapshot = book.snapshot();
    let resting: u64 = snapshot.bids.iter().chain(snapshot.asks.iter()).map(|l| l.qty).sum();
    assert!(filled > 0);
    assert_eq!(submitted, 2 * filled + resting);
}

#[test]
fn resubmitted_id_can_meet_itself() {
    // Distinct ids are the caller's part: the book does not look at them.
    let mut book = OrderBook::new();
    book.submit(order(1, Side::Buy, 100, 1));
    assert_eq!(fills(&book.submit(order(1, Side::Sell, 100, 1))), vec![(1, 1, 100, 1)]);
}
