use eterna::half_book::HalfBook;
use eterna::{Order, Side};

fn order(id: u64, side: Side, price: u64, qty: u64) -> Order {
    Order { id, side, price, qty }
}

#[test]
fn consuming_from_an_empty_side_does_nothing() {
    let mut asks = HalfBook::new(Side::Sell);
    asks.consume(5);
    assert_eq!(asks.peek_best(), None);
    assert_eq!(asks.best(), None);
    assert!(asks.snapshot_levels().is_empty());
}

#[test]
fn asks_cross_at_or_below_the_limit() {
    let mut asks = HalfBook::new(Side::Sell);
    assert!(!asks.crosses(100));
    asks.rest(order(1, Side::Sell, 100, 1));
    assert!(!asks.crosses(99));
    assert!(asks.crosses(100));
    assert!(asks.crosses(101));
}

#[test]
fn bids_cross_at_or_above_the_limit() {
    let mut bids = HalfBook::new(Side::Buy);
    assert!(!bids.crosses(100));
    bids.rest(order(1, Side::Buy, 100, 1));
    assert!(bids.crosses(99));
    assert!(bids.crosses(100));
    assert!(!bids.crosses(101));
}

#[test]
fn peek_shows_price_id_and_quantity() {
    let mut bids = HalfBook::new(Side::Buy);
    bids.rest(order(7, Side::Buy, 90, 3));
    bids.rest(order(8, Side::Buy, 91, 4));
    bids.rest(order(9, Side::Buy, 91, 5));
    assert_eq!(bids.peek_best(), Some((91, 8, 4)));
}

#[test]
fn consume_moves_through_orders_and_levels() {
    let mut bids = HalfBook::new(Side::Buy);
    bids.rest(order(1, Side::Buy, 90, 3));
    bids.rest(order(2, Side::Buy, 91, 4));
    bids.rest(order(3, Side::Buy, 91, 5));
    bids.consume(1);
    assert_eq!(bids.peek_best(), Some((91, 2, 3)));
    bids.consume(3);
    assert_eq!(bids.peek_best(), Some((91, 3, 5)));
    assert_eq!(bids.best(), Some(91));
    bids.consume(5);
    assert_eq!(bids.peek_best(), Some((90, 1, 3)));
    assert_eq!(bids.best(), Some(90));
    bids.consume(3);
    assert_eq!(bids.best(), None);
}

#[test]
fn best_price_of_each_side() {
    let mut bids = HalfBook::new(Side::Buy);
    let mut asks = HalfBook::new(Side::Sell);
    for (id, price) in [(1, 100), (2, 103), (3, 101)] {
        bids.rest(order(id, Side::Buy, price, 1));
        asks.rest(order(id, Side::Sell, price, 1));
    }
    assert_eq!(bids.best(), Some(103));
    assert_eq!(asks.best(), Some(100));
    bids.consume(1);
    asks.consume(1);
    assert_eq!(bids.best(), Some(101));
    assert_eq!(asks.best(), Some(101));
}

#[test]
fn levels_beyond_u64_are_not_listed() {
    let mut asks = HalfBook::new(Side::Sell);
    asks.rest(order(1, Side::Sell, 5, u64::MAX));
    assert_eq!(asks.try_snapshot_levels().unwrap()[0].qty, u64::MAX);
    asks.rest(order(2, Side::Sell, 5, 1));
    assert!(asks.try_snapshot_levels().is_none());
}
