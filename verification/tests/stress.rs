use eterna::engine::place;
use eterna::orderbook::OrderBook;
use eterna::stress::{
    audit, instance_order, next_request, record_fills, FillRecord, Violation, INSTANCES, PRICE_HI,
    PRICE_LO,
};
use eterna::{Fill, OrderBookSnapshot, PriceLevel, Side};

fn snapshot(bids: &[(u64, u64)], asks: &[(u64, u64)]) -> OrderBookSnapshot {
    let levels = |rows: &[(u64, u64)]| {
        rows.iter().map(|&(price, qty)| PriceLevel { price, qty }).collect::<Vec<_>>()
    };
    OrderBookSnapshot { bids: levels(bids), asks: levels(asks) }
}

fn record(maker: u64, taker: u64, price: u64, qty: u64, side: Side, limit: u64) -> FillRecord {
    FillRecord {
        maker_order_id: maker,
        taker_order_id: taker,
        price,
        qty,
        taker_side: side,
        taker_limit: limit,
    }
}

#[test]
fn instance_orders_follow_the_pattern() {
    let first = instance_order(0, 0);
    assert_eq!((first.side, first.price, first.qty), (Side::Buy, 97, 1));
    let later = instance_order(2, 3);
    assert_eq!((later.side, later.price, later.qty), (Side::Sell, 97 + 27 % 7, 2));
}

#[test]
fn a_client_submits_a_fixed_number_of_orders() {
    let mut i = 0;
    while let Some(req) = next_request(3, i) {
        assert!((PRICE_LO..=PRICE_HI).contains(&req.price));
        assert!((1..=4).contains(&req.qty));
        i += 1;
    }
    assert_eq!(i, 5_000);
    let req = next_request(0, 1).unwrap();
    assert_eq!((req.side, req.price, req.qty), (Side::Sell, 97, 2));
    assert_eq!(INSTANCES, 16);
}

#[test]
fn records_carry_the_taker() {
    let fills = vec![Fill { maker_order_id: 1, taker_order_id: 2, price: 99, qty: 5 }];
    let records = record_fills(&fills, Side::Sell, 98);
    assert_eq!(records.len(), 1);
    assert_eq!((records[0].maker_order_id, records[0].taker_order_id), (1, 2));
    assert_eq!((records[0].price, records[0].qty), (99, 5));
    assert_eq!((records[0].taker_side, records[0].taker_limit), (Side::Sell, 98));
}

#[test]
fn interleaved_instances_pass_the_audit() {
    let mut book = OrderBook::new();
    let mut submitted: u64 = 0;
    let mut records: Vec<FillRecord> = Vec::new();
    for i in 0..500 {
        for instance in 0..16 {
            let req = instance_order(instance, i);
            submitted += req.qty;
            let (_, fills) = place(&mut book, &req).unwrap();
            records.extend(record_fills(&fills, req.side, req.price));
        }
    }
    records.reverse();
    let totals = audit(submitted, &book.snapshot(), &records).unwrap();
    assert!(totals.filled > 0);
    assert_eq!(submitted, 2 * totals.filled + totals.resting);
}

#[test]
fn audit_counts_totals() {
    let records = vec![record(1, 2, 100, 3, Side::Buy, 100)];
    let totals = audit(13, &snapshot(&[(99, 2), (98, 1)], &[(101, 4)]), &records).unwrap();
    assert_eq!((totals.filled, totals.resting), (3, 7));
}

#[test]
fn audit_finds_lost_quantity() {
    let records = vec![record(1, 2, 100, 3, Side::Buy, 100)];
    assert!(matches!(
        audit(14, &snapshot(&[(99, 7)], &[]), &records),
        Err(Violation::NotConserved { submitted: 14, filled: 3, resting: 7 })
    ));
}

#[test]
fn audit_finds_totals_beyond_u64() {
    assert!(matches!(
        audit(0, &snapshot(&[(2, u64::MAX)], &[(3, 1)]), &vec![]),
        Err(Violation::Overflow)
    ));
    let records = vec![
        record(1, 2, 1, u64::MAX, Side::Buy, 1),
        record(1, 2, 1, 1, Side::Buy, 1),
    ];
    assert!(matches!(audit(0, &snapshot(&[], &[]), &records), Err(Violation::Overflow)));
    let records = vec![record(1, 2, 1, u64::MAX / 2 + 1, Side::Buy, 1)];
    assert!(matches!(audit(0, &snapshot(&[], &[]), &records), Err(Violation::Overflow)));
}

#[test]
fn audit_finds_a_crossed_book() {
    assert!(matches!(
        audit(2, &snapshot(&[(100, 1)], &[(100, 1)]), &vec![]),
        Err(Violation::Crossed { best_bid: 100, best_ask: 100 })
    ));
}

#[test]
fn audit_finds_levels_out_of_order() {
    assert!(matches!(
        audit(3, &snapshot(&[(9, 1), (8, 1), (10, 1)], &[]), &vec![]),
        Err(Violation::BidsOutOfOrder { at: 1 })
    ));
    assert!(matches!(
        audit(2, &snapshot(&[], &[(9, 1), (8, 1)]), &vec![]),
        Err(Violation::AsksOutOfOrder { at: 0 })
    ));
}

#[test]
fn audit_finds_fills_outside_the_limit() {
    let records = vec![
        record(1, 2, 100, 1, Side::Buy, 100),
        record(1, 3, 101, 1, Side::Buy, 100),
    ];
    assert!(matches!(
        audit(4, &snapshot(&[], &[]), &records),
        Err(Violation::OutsideLimit { at: 1 })
    ));
    let records = vec![record(1, 2, 99, 1, Side::Sell, 100)];
    assert!(matches!(
        audit(2, &snapshot(&[], &[]), &records),
        Err(Violation::OutsideLimit { at: 0 })
    ));
}

#[test]
fn audit_finds_self_matches() {
    let records = vec![
        record(1, 2, 100, 1, Side::Buy, 100),
        record(5, 5, 100, 1, Side::Sell, 100),
    ];
    assert!(matches!(
        audit(4, &snapshot(&[], &[]), &records),
        Err(Violation::SelfMatch { at: 1 })
    ));
}
