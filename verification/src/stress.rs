//! The stress run: what each simulated client submits, and the audit of what came of it.
use vstd::prelude::*;
use crate::laws;
use crate::matching::{better, filled_qty, ids_below, level_qty};
use crate::orderbook::BookView;
use crate::types::{Fill, Order, OrderBookSnapshot, PriceLevel, Side, SubmitOrderReq};

verus! {

/// How many clients submit at the same time.
pub const INSTANCES: usize = 16;

/// How many orders each client submits.
pub const ORDERS_EACH: usize = 5_000;

/// The lowest price that clients ask for.
pub const PRICE_LO: u64 = 97;

/// The highest price that clients ask for: a narrow range, so that orders often cross.
pub const PRICE_HI: u64 = 103;

/// The `i`-th order of a client.
pub open spec fn is_instance_order(instance: usize, i: usize, req: SubmitOrderReq) -> bool {
    &&& req.side == (if (instance + i) % 2 == 0 {
        Side::Buy
    } else {
        Side::Sell
    })
    &&& req.price == PRICE_LO + (instance * 3 + i * 7) % (PRICE_HI - PRICE_LO + 1)
    &&& req.qty == 1 + (instance + i) % 4
}

/// The `i`-th order of a client.
pub fn instance_order(instance: usize, i: usize) -> (req: SubmitOrderReq)
    requires
        instance * 3 + i * 7 <= usize::MAX,
    ensures
        is_instance_order(instance, i, req),
        req.side == (if (instance + i) % 2 == 0 {
            Side::Buy
        } else {
            Side::Sell
        }),
        req.price == 97 + (instance * 3 + i * 7) % 7,
        req.qty == 1 + (instance + i) % 4,
{
    let side = if (instance + i) % 2 == 0 { Side::Buy } else { Side::Sell };
    let price = PRICE_LO + ((instance * 3 + i * 7) as u64 % (PRICE_HI - PRICE_LO + 1));
    let qty = 1 + ((instance + i) as u64 % 4);
    SubmitOrderReq { side, price, qty }
}

/// What a client submits after `i` orders: its next order, until it has submitted them all.
pub fn next_request(instance: usize, i: usize) -> (req: Option<SubmitOrderReq>)
    requires
        i < ORDERS_EACH ==> instance * 3 + i * 7 <= usize::MAX,
    ensures
        req is Some <==> i < ORDERS_EACH,
        req matches Some(req) ==> is_instance_order(instance, i, req),
        req is Some <==> i < 5_000,
        req matches Some(req) ==> {
            &&& req.side == (if (instance + i) % 2 == 0 {
                Side::Buy
            } else {
                Side::Sell
            })
            &&& req.price == 97 + (instance * 3 + i * 7) % 7
            &&& req.qty == 1 + (instance + i) % 4
        },
{
    if i < ORDERS_EACH {
        Some(instance_order(instance, i))
    } else {
        None
    }
}

/// A fill, together with the side and the limit of its taker.
#[derive(Debug, Clone)]
pub struct FillRecord {
    pub maker_order_id: u64,
    pub taker_order_id: u64,
    pub price: u64,
    pub qty: u64,
    pub taker_side: Side,
    pub taker_limit: u64,
}

/// The record of a fill of a taker with that side and limit.
pub open spec fn record_of(fill: Fill, side: Side, limit: u64) -> FillRecord {
    FillRecord {
        maker_order_id: fill.maker_order_id,
        taker_order_id: fill.taker_order_id,
        price: fill.price,
        qty: fill.qty,
        taker_side: side,
        taker_limit: limit,
    }
}

/// The records of the fills of one taker.
pub open spec fn records_of(fills: Seq<Fill>, side: Side, limit: u64) -> Seq<FillRecord> {
    Seq::new(fills.len(), |i: int| record_of(fills[i], side, limit))
}

/// Records the fills of one taker.
pub fn record_fills(fills: &Vec<Fill>, side: Side, limit: u64) -> (records: Vec<FillRecord>)
    ensures
        records@ == records_of(fills@, side, limit),
        records@.len() == fills@.len(),
        forall|i: int|
            0 <= i < fills@.len() ==> {
                &&& (#[trigger] records@[i]).maker_order_id == fills@[i].maker_order_id
                &&& records@[i].taker_order_id == fills@[i].taker_order_id
                &&& records@[i].price == fills@[i].price
                &&& records@[i].qty == fills@[i].qty
                &&& records@[i].taker_side == side
                &&& records@[i].taker_limit == limit
            },
{
    let mut records: Vec<FillRecord> = Vec::new();
    for i in 0..fills.len()
        invariant
            records@ == records_of(fills@, side, limit).take(i as int),
    {
        let fill = &fills[i];
        records.push(
            FillRecord {
                maker_order_id: fill.maker_order_id,
                taker_order_id: fill.taker_order_id,
                price: fill.price,
                qty: fill.qty,
                taker_side: side,
                taker_limit: limit,
            },
        );
        assert(records@ =~= records_of(fills@, side, limit).take(i + 1));
    }
    assert(records@ =~= records_of(fills@, side, limit));
    records
}

/// The sum of the recorded quantities.
pub open spec fn record_qty(records: Seq<FillRecord>) -> nat
    decreases records.len(),
{
    if records.len() == 0 {
        0
    } else {
        record_qty(records.drop_last()) + records.last().qty as nat
    }
}

/// The level after the `i`-th has a better price than it.
pub open spec fn out_of_order(side: Side, levels: Seq<PriceLevel>, i: int) -> bool {
    0 <= i && i + 1 < levels.len() && better(side, levels[i + 1].price, levels[i].price)
}

/// No level is followed by a better one.
pub open spec fn in_order(side: Side, levels: Seq<PriceLevel>) -> bool {
    forall|i: int| !#[trigger] out_of_order(side, levels, i)
}

/// The best bid meets the best ask.
pub open spec fn crossed(snapshot: OrderBookSnapshot) -> bool {
    &&& snapshot.bids@.len() > 0
    &&& snapshot.asks@.len() > 0
    &&& snapshot.bids@[0].price >= snapshot.asks@[0].price
}

/// The fill was at a price that its taker did not accept.
pub open spec fn outside_limit(record: FillRecord) -> bool {
    match record.taker_side {
        Side::Buy => record.price > record.taker_limit,
        Side::Sell => record.price < record.taker_limit,
    }
}

/// An order traded with itself.
pub open spec fn self_match(record: FillRecord) -> bool {
    record.maker_order_id == record.taker_order_id
}

/// What an audit found wrong.
#[derive(Debug, Clone, Copy)]
pub enum Violation {
    /// The quantities cannot be counted in a `u64`.
    Overflow,
    /// What was submitted is not what rests plus twice what was filled.
    NotConserved { submitted: u64, filled: u64, resting: u64 },
    /// The best bid meets the best ask.
    Crossed { best_bid: u64, best_ask: u64 },
    /// The bid level at this position is followed by a higher one.
    BidsOutOfOrder { at: usize },
    /// The ask level at this position is followed by a lower one.
    AsksOutOfOrder { at: usize },
    /// The record at this position has a price that its taker did not accept.
    OutsideLimit { at: usize },
    /// The record at this position is of an order that traded with itself.
    SelfMatch { at: usize },
}

/// What an audit counted.
#[derive(Debug, Clone, Copy)]
pub struct Totals {
    pub filled: u64,
    pub resting: u64,
}

/// Everything the audit looks at is as it should be.
pub open spec fn passes(
    submitted: u64,
    snapshot: OrderBookSnapshot,
    records: Seq<FillRecord>,
) -> bool {
    &&& submitted == 2 * record_qty(records) + level_qty(snapshot.bids@) + level_qty(snapshot.asks@)
    &&& !crossed(snapshot)
    &&& in_order(Side::Buy, snapshot.bids@)
    &&& in_order(Side::Sell, snapshot.asks@)
    &&& forall|i: int| 0 <= i < records.len() ==> !outside_limit(#[trigger] records[i])
    &&& forall|i: int| 0 <= i < records.len() ==> !self_match(#[trigger] records[i])
}

/// `outcome` reports the first thing that is wrong, in the order in which the audit looks.
pub open spec fn audited(
    submitted: u64,
    snapshot: OrderBookSnapshot,
    records: Seq<FillRecord>,
    outcome: Result<Totals, Violation>,
) -> bool {
    let filled = record_qty(records);
    let resting = level_qty(snapshot.bids@) + level_qty(snapshot.asks@);
    let conserved = submitted == 2 * filled + resting;
    let uncrossed = conserved && !crossed(snapshot);
    let bids_fine = uncrossed && in_order(Side::Buy, snapshot.bids@);
    let asks_fine = bids_fine && in_order(Side::Sell, snapshot.asks@);
    let limits_fine = asks_fine && forall|i: int|
        0 <= i < records.len() ==> !outside_limit(#[trigger] records[i]);
    match outcome {
        Err(Violation::Overflow) => 2 * filled + resting > u64::MAX,
        Err(Violation::NotConserved { submitted: s, filled: f, resting: r }) => {
            &&& 2 * filled + resting <= u64::MAX
            &&& !conserved
            &&& s == submitted && f == filled && r == resting
        },
        Err(Violation::Crossed { best_bid, best_ask }) => {
            &&& conserved
            &&& crossed(snapshot)
            &&& best_bid == snapshot.bids@[0].price
            &&& best_ask == snapshot.asks@[0].price
        },
        Err(Violation::BidsOutOfOrder { at }) => {
            &&& uncrossed
            &&& out_of_order(Side::Buy, snapshot.bids@, at as int)
            &&& forall|i: int| i < at ==> !#[trigger] out_of_order(Side::Buy, snapshot.bids@, i)
        },
        Err(Violation::AsksOutOfOrder { at }) => {
            &&& bids_fine
            &&& out_of_order(Side::Sell, snapshot.asks@, at as int)
            &&& forall|i: int| i < at ==> !#[trigger] out_of_order(Side::Sell, snapshot.asks@, i)
        },
        Err(Violation::OutsideLimit { at }) => {
            &&& asks_fine
            &&& at < records.len()
            &&& outside_limit(records[at as int])
            &&& forall|i: int| 0 <= i < at ==> !outside_limit(#[trigger] records[i])
        },
        Err(Violation::SelfMatch { at }) => {
            &&& limits_fine
            &&& at < records.len()
            &&& self_match(records[at as int])
            &&& forall|i: int| 0 <= i < at ==> !self_match(#[trigger] records[i])
        },
        Ok(totals) => {
            &&& passes(submitted, snapshot, records)
            &&& totals.filled == filled
            &&& totals.resting == resting
        },
    }
}

proof fn lemma_level_qty_grows(levels: Seq<PriceLevel>, n: int)
    requires
        0 <= n <= levels.len(),
    ensures
        level_qty(levels.take(n)) <= level_qty(levels),
    decreases levels.len() - n,
{
    if n < levels.len() {
        lemma_level_qty_grows(levels, n + 1);
        assert(levels.take(n + 1).drop_last() =~= levels.take(n));
    } else {
        assert(levels.take(n) =~= levels);
    }
}

proof fn lemma_record_qty_grows(records: Seq<FillRecord>, n: int)
    requires
        0 <= n <= records.len(),
    ensures
        record_qty(records.take(n)) <= record_qty(records),
    decreases records.len() - n,
{
    if n < records.len() {
        lemma_record_qty_grows(records, n + 1);
        assert(records.take(n + 1).drop_last() =~= records.take(n));
    } else {
        assert(records.take(n) =~= records);
    }
}

/// The total of the levels on top of `start`, unless it exceeds what a `u64` holds.
fn count_levels(start: u64, levels: &Vec<PriceLevel>) -> (total: Option<u64>)
    ensures
        total == (if start + level_qty(levels@) <= u64::MAX {
            Some((start + level_qty(levels@)) as u64)
        } else {
            None
        }),
{
    let mut total: u64 = start;
    assert(levels@.take(0) =~= Seq::empty());
    for i in 0..levels.len()
        invariant
            total == start + level_qty(levels@.take(i as int)),
    {
        proof {
            assert(levels@.take(i + 1).drop_last() =~= levels@.take(i as int));
            lemma_level_qty_grows(levels@, i + 1);
        }
        total = total.checked_add(levels[i].qty)?;
    }
    assert(levels@.take(levels@.len() as int) =~= levels@);
    Some(total)
}

/// The total of the records, unless it exceeds what a `u64` holds.
fn count_records(records: &Vec<FillRecord>) -> (total: Option<u64>)
    ensures
        total == (if record_qty(records@) <= u64::MAX {
            Some(record_qty(records@) as u64)
        } else {
            None
        }),
{
    let mut total: u64 = 0;
    assert(records@.take(0) =~= Seq::empty());
    for i in 0..records.len()
        invariant
            total == record_qty(records@.take(i as int)),
    {
        proof {
            assert(records@.take(i + 1).drop_last() =~= records@.take(i as int));
            lemma_record_qty_grows(records@, i + 1);
        }
        total = total.checked_add(records[i].qty)?;
    }
    assert(records@.take(records@.len() as int) =~= records@);
    Some(total)
}

/// The first level that is followed by a better one.
fn find_out_of_order(side: Side, levels: &Vec<PriceLevel>) -> (at: Option<usize>)
    ensures
        match at {
            Some(at) => {
                &&& out_of_order(side, levels@, at as int)
                &&& forall|i: int| i < at ==> !#[trigger] out_of_order(side, levels@, i)
            },
            None => in_order(side, levels@),
        },
{
    let mut i: usize = 0;
    while i < levels.len() && levels.len() - i > 1
        invariant
            i <= levels.len(),
            forall|k: int| k < i ==> !#[trigger] out_of_order(side, levels@, k),
        decreases levels.len() - i,
    {
        let (here, next) = (levels[i].price, levels[i + 1].price);
        let bad = match side {
            Side::Buy => next > here,
            Side::Sell => next < here,
        };
        if bad {
            return Some(i);
        }
        i = i + 1;
    }
    None
}

/// Checks what a stress run left behind: conservation of quantity, an uncrossed book, sorted
/// sides, fills within their takers' limits, and no order that traded with itself.
pub fn audit(
    submitted: u64,
    snapshot: &OrderBookSnapshot,
    records: &Vec<FillRecord>,
) -> (outcome: Result<Totals, Violation>)
    ensures
        audited(submitted, *snapshot, records@, outcome),
{
    let counted = match count_levels(0, &snapshot.bids) {
        Some(bids) => count_levels(bids, &snapshot.asks),
        None => None,
    };
    let resting = match counted {
        Some(resting) => resting,
        None => return Err(Violation::Overflow),
    };
    let filled = match count_records(records) {
        Some(filled) => filled,
        None => return Err(Violation::Overflow),
    };
    let twice = match filled.checked_add(filled) {
        Some(twice) => twice,
        None => return Err(Violation::Overflow),
    };
    let accounted = match twice.checked_add(resting) {
        Some(accounted) => accounted,
        None => return Err(Violation::Overflow),
    };
    if submitted != accounted {
        return Err(Violation::NotConserved { submitted, filled, resting });
    }
    if snapshot.bids.len() > 0 && snapshot.asks.len() > 0 {
        let best_bid = snapshot.bids[0].price;
        let best_ask = snapshot.asks[0].price;
        if best_bid >= best_ask {
            return Err(Violation::Crossed { best_bid, best_ask });
        }
    }
    if let Some(at) = find_out_of_order(Side::Buy, &snapshot.bids) {
        return Err(Violation::BidsOutOfOrder { at });
    }
    if let Some(at) = find_out_of_order(Side::Sell, &snapshot.asks) {
        return Err(Violation::AsksOutOfOrder { at });
    }
    for i in 0..records.len()
        invariant
            forall|k: int| 0 <= k < i ==> !outside_limit(#[trigger] records@[k]),
            submitted == 2 * record_qty(records@) + level_qty(snapshot.bids@) + level_qty(
                snapshot.asks@,
            ),
            !crossed(*snapshot),
            in_order(Side::Buy, snapshot.bids@),
            in_order(Side::Sell, snapshot.asks@),
    {
        let outside = match records[i].taker_side {
            Side::Buy => records[i].price > records[i].taker_limit,
            Side::Sell => records[i].price < records[i].taker_limit,
        };
        if outside {
            return Err(Violation::OutsideLimit { at: i });
        }
    }
    for i in 0..records.len()
        invariant
            forall|k: int| 0 <= k < i ==> !self_match(#[trigger] records@[k]),
            forall|k: int| 0 <= k < records@.len() ==> !outside_limit(#[trigger] records@[k]),
            submitted == 2 * record_qty(records@) + level_qty(snapshot.bids@) + level_qty(
                snapshot.asks@,
            ),
            !crossed(*snapshot),
            in_order(Side::Buy, snapshot.bids@),
            in_order(Side::Sell, snapshot.asks@),
    {
        if records[i].maker_order_id == records[i].taker_order_id {
            return Err(Violation::SelfMatch { at: i });
        }
    }
    Ok(Totals { filled, resting })
}

/// The sum of the quantities that requests ask for.
pub open spec fn req_qty(reqs: Seq<SubmitOrderReq>) -> nat
    decreases reqs.len(),
{
    if reqs.len() == 0 {
        0
    } else {
        req_qty(reqs.drop_last()) + reqs.last().qty as nat
    }
}

/// The records of all fills that placing `reqs` brings about, in the order in which they happen.
pub open spec fn run_records(book: BookView, reqs: Seq<SubmitOrderReq>) -> Seq<FillRecord>
    decreases reqs.len(),
{
    if reqs.len() == 0 {
        Seq::empty()
    } else {
        let earlier = book.placed_all(reqs.drop_last());
        let req = reqs.last();
        run_records(book, reqs.drop_last()) + records_of(
            earlier.fills(earlier.order_for(req)),
            req.side,
            req.price,
        )
    }
}

proof fn lemma_record_qty_add(records: Seq<FillRecord>, fills: Seq<Fill>, side: Side, limit: u64)
    ensures
        record_qty(records + records_of(fills, side, limit)) == record_qty(records) + filled_qty(
            fills,
        ),
    decreases fills.len(),
{
    let added = records_of(fills, side, limit);
    if fills.len() == 0 {
        assert(records + added =~= records);
    } else {
        let fewer = fills.drop_last();
        lemma_record_qty_add(records, fewer, side, limit);
        assert((records + added).drop_last() =~= records + records_of(fewer, side, limit));
        assert(fills =~= fewer + seq![fills.last()]);
        laws::lemma_filled_qty_add(fewer, seq![fills.last()]);
        reveal_with_fuel(filled_qty, 2);
    }
}

/// Placing any requests on an empty book keeps it valid, conserves quantity, and fills every
/// taker within its limit and never with itself.
pub proof fn every_run_is_sound(reqs: Seq<SubmitOrderReq>)
    requires
        reqs.len() < u64::MAX,
    ensures
        ({
            let book = BookView::empty().placed_all(reqs);
            let records = run_records(BookView::empty(), reqs);
            &&& book.valid()
            &&& book.ids_issued()
            &&& book.next_id == reqs.len() + 1
            &&& req_qty(reqs) == book.resting_qty() + 2 * record_qty(records)
            &&& forall|i: int|
                0 <= i < records.len() ==> !outside_limit(#[trigger] records[i]) && !self_match(
                    records[i],
                )
        }),
    decreases reqs.len(),
{
    let empty = BookView::empty();
    if reqs.len() > 0 {
        let req = reqs.last();
        let earlier = empty.placed_all(reqs.drop_last());
        let order = earlier.order_for(req);
        let before = run_records(empty, reqs.drop_last());
        let added = records_of(earlier.fills(order), req.side, req.price);
        let book = empty.placed_all(reqs);
        let records = run_records(empty, reqs);
        every_run_is_sound(reqs.drop_last());
        laws::submit_keeps_valid(earlier, order);
        laws::submit_conserves(earlier, order);
        laws::fills_respect_limits(earlier, order);
        laws::placing_keeps_ids(earlier, req);
        laws::submit_tracks_ids(earlier, order, ids_below(earlier.next_id));
        lemma_record_qty_add(before, earlier.fills(order), req.side, req.price);
        let after = earlier.after(order);
        assert(book.bids == after.bids && book.asks == after.asks);
        assert(book.valid()) by {
            assert(after.valid());
            assert(book.resting(Side::Buy) == after.resting(Side::Buy));
            assert(book.resting(Side::Sell) == after.resting(Side::Sell));
        }
        assert forall|i: int| 0 <= i < records.len() implies !outside_limit(#[trigger] records[i])
            && !self_match(records[i]) by {
            if i < before.len() {
                assert(records[i] == before[i]);
            } else {
                let k = i - before.len();
                assert(records[i] == added[k]);
                assert(added[k] == record_of(earlier.fills(order)[k], req.side, req.price));
            }
        }
    }
}

/// The order of the records does not matter to their total.
proof fn lemma_record_qty_permuted(a: Seq<FillRecord>, b: Seq<FillRecord>)
    requires
        a.to_multiset() == b.to_multiset(),
    ensures
        record_qty(a) == record_qty(b),
    decreases a.len(),
{
    a.to_multiset_ensures();
    b.to_multiset_ensures();
    if a.len() > 0 {
        let last = a.last();
        assert(a[a.len() - 1] == last);
        assert(a.contains(last));
        assert(b.to_multiset().count(last) > 0);
        assert(b.contains(last));
        let k = b.index_of(last);
        assert(a.drop_last() =~= a.remove(a.len() - 1));
        lemma_record_qty_permuted(a.drop_last(), b.remove(k));
        lemma_record_qty_remove(b, k);
    }
}

proof fn lemma_record_qty_remove(records: Seq<FillRecord>, k: int)
    requires
        0 <= k < records.len(),
    ensures
        record_qty(records) == record_qty(records.remove(k)) + records[k].qty,
    decreases records.len(),
{
    if k == records.len() - 1 {
        assert(records.remove(k) =~= records.drop_last());
    } else {
        lemma_record_qty_remove(records.drop_last(), k);
        assert(records.remove(k).drop_last() =~= records.drop_last().remove(k));
    }
}

/// Every run passes the audit: whatever requests are placed on an empty book one at a time,
/// and in whatever order their fills are recorded, nothing is found wrong.
pub proof fn every_run_passes(
    reqs: Seq<SubmitOrderReq>,
    submitted: u64,
    snapshot: OrderBookSnapshot,
    records: Seq<FillRecord>,
)
    requires
        reqs.len() < u64::MAX,
        submitted == req_qty(reqs),
        BookView::empty().placed_all(reqs).aggregated_by(snapshot),
        records.to_multiset() == run_records(BookView::empty(), reqs).to_multiset(),
    ensures
        passes(submitted, snapshot, records),
{
    let book = BookView::empty().placed_all(reqs);
    let run = run_records(BookView::empty(), reqs);
    every_run_is_sound(reqs);
    lemma_record_qty_permuted(records, run);
    laws::snapshot_adds_up(Side::Buy, book.bids, snapshot.bids@);
    laws::snapshot_adds_up(Side::Sell, book.asks, snapshot.asks@);
    if snapshot.bids@.len() > 0 && snapshot.asks@.len() > 0 {
        laws::snapshot_is_uncrossed(book, snapshot);
    }
    assert forall|i: int| 0 <= i < records.len() implies !outside_limit(#[trigger] records[i])
        && !self_match(records[i]) by {
        records.to_multiset_ensures();
        run.to_multiset_ensures();
        assert(records.contains(records[i]));
        assert(run.to_multiset().count(records[i]) > 0);
        let k = run.index_of(records[i]);
        assert(run[k] == records[i]);
    }
    assert(in_order(Side::Buy, snapshot.bids@));
    assert(in_order(Side::Sell, snapshot.asks@));
}

/// A total counts every record and request once and with its own quantity.
pub proof fn totals_count_each_once(
    records: Seq<FillRecord>,
    record: FillRecord,
    reqs: Seq<SubmitOrderReq>,
    req: SubmitOrderReq,
)
    ensures
        record_qty(Seq::empty()) == 0,
        req_qty(Seq::empty()) == 0,
        record_qty(records.push(record)) == record_qty(records) + record.qty,
        req_qty(reqs.push(req)) == req_qty(reqs) + req.qty,
{
    assert(records.push(record).drop_last() =~= records);
    assert(reqs.push(req).drop_last() =~= reqs);
}

/// A run records the fills of each request in turn, each with the side and the price of the
/// request that took.
pub proof fn run_records_each_fill(
    book: BookView,
    reqs: Seq<SubmitOrderReq>,
    req: SubmitOrderReq,
)
    ensures
        run_records(book, Seq::empty()).len() == 0,
        ({
            let before = run_records(book, reqs);
            let after = run_records(book, reqs.push(req));
            let earlier = book.placed_all(reqs);
            let fills = earlier.fills(
                Order { id: earlier.next_id, side: req.side, price: req.price, qty: req.qty },
            );
            &&& after.len() == before.len() + fills.len()
            &&& forall|i: int| 0 <= i < before.len() ==> #[trigger] after[i] == before[i]
            &&& forall|i: int|
                0 <= i < fills.len() ==> {
                    let record = after[before.len() + i];
                    &&& record.maker_order_id == (#[trigger] fills[i]).maker_order_id
                    &&& record.taker_order_id == fills[i].taker_order_id
                    &&& record.price == fills[i].price
                    &&& record.qty == fills[i].qty
                    &&& record.taker_side == req.side
                    &&& record.taker_limit == req.price
                }
        }),
{
    assert(reqs.push(req).drop_last() =~= reqs);
}

/// What an audit that answers `Ok` vouches for, on the numbers themselves: what was submitted
/// is twice the recorded quantity plus that of all levels, the best bid is below the best ask,
/// no bid level is followed by a higher one and no ask level by a lower one, no buyer paid more
/// and no seller got less than its limit, and no order traded with itself.
pub proof fn passed_audit_vouches(
    submitted: u64,
    snapshot: OrderBookSnapshot,
    records: Seq<FillRecord>,
    totals: Totals,
)
    requires
        audited(submitted, snapshot, records, Ok(totals)),
    ensures
        totals.filled == record_qty(records),
        totals.resting == level_qty(snapshot.bids@) + level_qty(snapshot.asks@),
        submitted == 2 * totals.filled + totals.resting,
        snapshot.bids@.len() > 0 && snapshot.asks@.len() > 0 ==> snapshot.bids@[0].price
            < snapshot.asks@[0].price,
        forall|i: int, j: int|
            0 <= i && j == i + 1 && j < snapshot.bids@.len() ==> (
            #[trigger] snapshot.bids@[i]).price >= (#[trigger] snapshot.bids@[j]).price,
        forall|i: int, j: int|
            0 <= i && j == i + 1 && j < snapshot.asks@.len() ==> (
            #[trigger] snapshot.asks@[i]).price <= (#[trigger] snapshot.asks@[j]).price,
        forall|i: int|
            0 <= i < records.len() && (#[trigger] records[i]).taker_side is Buy
                ==> records[i].price <= records[i].taker_limit,
        forall|i: int|
            0 <= i < records.len() && (#[trigger] records[i]).taker_side is Sell
                ==> records[i].price >= records[i].taker_limit,
        forall|i: int|
            0 <= i < records.len() ==> (#[trigger] records[i]).maker_order_id
                != records[i].taker_order_id,
{
    assert forall|i: int, j: int|
        0 <= i && j == i + 1 && j < snapshot.bids@.len() implies (
    #[trigger] snapshot.bids@[i]).price >= (#[trigger] snapshot.bids@[j]).price by {
        assert(!out_of_order(Side::Buy, snapshot.bids@, i));
    }
    assert forall|i: int, j: int|
        0 <= i && j == i + 1 && j < snapshot.asks@.len() implies (
    #[trigger] snapshot.asks@[i]).price <= (#[trigger] snapshot.asks@[j]).price by {
        assert(!out_of_order(Side::Sell, snapshot.asks@, i));
    }
    assert(forall|i: int| 0 <= i < records.len() ==> !outside_limit(#[trigger] records[i]));
    assert(forall|i: int| 0 <= i < records.len() ==> !self_match(#[trigger] records[i]));
}

/// What an audit that complains has found, on the numbers themselves: the thing that it names
/// is wrong, and everything that it looks at before is right.
pub proof fn failed_audit_points_at_a_fault(
    submitted: u64,
    snapshot: OrderBookSnapshot,
    records: Seq<FillRecord>,
    violation: Violation,
)
    requires
        audited(submitted, snapshot, records, Err(violation)),
    ensures
        ({
            let accounted = 2 * record_qty(records) + level_qty(snapshot.bids@) + level_qty(
                snapshot.asks@,
            );
            let below = snapshot.bids@.len() == 0 || snapshot.asks@.len() == 0
                || snapshot.bids@[0].price < snapshot.asks@[0].price;
            let bids_fall = forall|i: int, j: int|
                0 <= i && j == i + 1 && j < snapshot.bids@.len() ==> (
                #[trigger] snapshot.bids@[i]).price >= (#[trigger] snapshot.bids@[j]).price;
            let asks_rise = forall|i: int, j: int|
                0 <= i && j == i + 1 && j < snapshot.asks@.len() ==> (
                #[trigger] snapshot.asks@[i]).price <= (#[trigger] snapshot.asks@[j]).price;
            let bounded = forall|i: int|
                0 <= i < records.len() ==> match (#[trigger] records[i]).taker_side {
                    Side::Buy => records[i].price <= records[i].taker_limit,
                    Side::Sell => records[i].price >= records[i].taker_limit,
                };
            match violation {
                Violation::Overflow => accounted > u64::MAX,
                Violation::NotConserved { submitted: s, filled, resting } => {
                    &&& submitted != accounted && accounted <= u64::MAX
                    &&& s == submitted
                    &&& filled == record_qty(records)
                    &&& resting == level_qty(snapshot.bids@) + level_qty(snapshot.asks@)
                },
                Violation::Crossed { best_bid, best_ask } => {
                    &&& submitted == accounted
                    &&& snapshot.bids@.len() > 0 && snapshot.asks@.len() > 0
                    &&& snapshot.bids@[0].price == best_bid
                    &&& snapshot.asks@[0].price == best_ask
                    &&& best_bid >= best_ask
                },
                Violation::BidsOutOfOrder { at } => {
                    &&& submitted == accounted && below
                    &&& at + 1 < snapshot.bids@.len()
                    &&& snapshot.bids@[at as int].price < snapshot.bids@[at + 1].price
                    &&& forall|i: int, j: int|
                        0 <= i < at && j == i + 1 ==> (#[trigger] snapshot.bids@[i]).price >= (
                        #[trigger] snapshot.bids@[j]).price
                },
                Violation::AsksOutOfOrder { at } => {
                    &&& submitted == accounted && below && bids_fall
                    &&& at + 1 < snapshot.asks@.len()
                    &&& snapshot.asks@[at as int].price > snapshot.asks@[at + 1].price
                    &&& forall|i: int, j: int|
                        0 <= i < at && j == i + 1 ==> (#[trigger] snapshot.asks@[i]).price <= (
                        #[trigger] snapshot.asks@[j]).price
                },
                Violation::OutsideLimit { at } => {
                    &&& submitted == accounted && below && bids_fall && asks_rise
                    &&& at < records.len()
                    &&& records[at as int].taker_side is Buy ==> records[at as int].price
                        > records[at as int].taker_limit
                    &&& records[at as int].taker_side is Sell ==> records[at as int].price
                        < records[at as int].taker_limit
                    &&& forall|i: int|
                        0 <= i < at ==> match (#[trigger] records[i]).taker_side {
                            Side::Buy => records[i].price <= records[i].taker_limit,
                            Side::Sell => records[i].price >= records[i].taker_limit,
                        }
                },
                Violation::SelfMatch { at } => {
                    &&& submitted == accounted && below && bids_fall && asks_rise && bounded
                    &&& at < records.len()
                    &&& records[at as int].maker_order_id == records[at as int].taker_order_id
                    &&& forall|i: int|
                        0 <= i < at ==> (#[trigger] records[i]).maker_order_id
                            != records[i].taker_order_id
                },
            }
        }),
{
    assert forall|i: int, j: int|
        0 <= i && j == i + 1 && j < snapshot.bids@.len() && !out_of_order(
            Side::Buy,
            snapshot.bids@,
            i,
        ) implies (#[trigger] snapshot.bids@[i]).price >= (#[trigger] snapshot.bids@[j]).price by {}
    assert forall|i: int, j: int|
        0 <= i && j == i + 1 && j < snapshot.asks@.len() && !out_of_order(
            Side::Sell,
            snapshot.asks@,
            i,
        ) implies (#[trigger] snapshot.asks@[i]).price <= (#[trigger] snapshot.asks@[j]).price by {}
    assert(forall|i: int|
        0 <= i < records.len() && !outside_limit(#[trigger] records[i])
            ==> match records[i].taker_side {
            Side::Buy => records[i].price <= records[i].taker_limit,
            Side::Sell => records[i].price >= records[i].taker_limit,
        });
    assert(forall|i: int|
        0 <= i < records.len() && !self_match(#[trigger] records[i])
            ==> records[i].maker_order_id != records[i].taker_order_id);
}

/// The run has sixteen clients with five thousand orders each, whose prices go from 97 to 103
/// and whose quantities go from one to four; a client takes turns between buying and selling.
pub proof fn run_has_its_size(
    instance: usize,
    i: usize,
    req: SubmitOrderReq,
    next: SubmitOrderReq,
)
    requires
        i < usize::MAX,
        is_instance_order(instance, i, req),
        is_instance_order(instance, (i + 1) as usize, next),
    ensures
        INSTANCES == 16,
        ORDERS_EACH == 5_000,
        PRICE_LO == 97,
        PRICE_HI == 103,
        97 <= req.price <= 103,
        1 <= req.qty <= 4,
        req.side != next.side,
        next.qty == (if req.qty == 4 {
            1
        } else {
            req.qty + 1
        }),
{
}

} // verus!
