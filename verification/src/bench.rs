//! The benchmark load: a dense book, then orders that sweep it while it is replenished.
use vstd::prelude::*;
use crate::engine::place;
use crate::laws::{buy_order_trades_then_rests, sell_order_trades_then_rests};
use crate::matching::{best_first, better, qty_at, total_qty};
use crate::orderbook::{BookView, OrderBook};
use crate::stress::{every_run_is_sound, req_qty};
use crate::types::{Order, OrderBookSnapshot, Side, SubmitOrderReq};

verus! {

/// How many bids, and as many asks, the dense book is built from.
pub const DENSE_ROUNDS: u64 = 10_000;

/// How many orders sweep the book.
pub const SWEEP_ROUNDS: u64 = 500_000;

/// The bids and asks of the dense book: each round adds one of each, over ten prices a side.
pub open spec fn dense_requests(rounds: nat) -> Seq<SubmitOrderReq>
    decreases rounds,
{
    if rounds == 0 {
        Seq::empty()
    } else {
        let i = rounds - 1;
        dense_requests((rounds - 1) as nat) + seq![
            SubmitOrderReq {
                side: Side::Buy,
                price: (90 + i % 10) as u64,
                qty: (5 + i % 5) as u64,
            },
            SubmitOrderReq {
                side: Side::Sell,
                price: (100 + i % 10) as u64,
                qty: (5 + i % 5) as u64,
            },
        ]
    }
}

/// One more bid and ask at each of the first `prices` prices of a side.
pub open spec fn refill_requests(prices: nat) -> Seq<SubmitOrderReq>
    decreases prices,
{
    if prices == 0 {
        Seq::empty()
    } else {
        let j = prices - 1;
        refill_requests((prices - 1) as nat) + seq![
            SubmitOrderReq { side: Side::Buy, price: (90 + j) as u64, qty: 10 },
            SubmitOrderReq { side: Side::Sell, price: (100 + j) as u64, qty: 10 },
        ]
    }
}

/// The order that sweeps in round `i`: buys and sells take turns, far into the other side.
pub open spec fn sweep_request(i: int) -> SubmitOrderReq {
    SubmitOrderReq {
        side: if i % 2 == 0 {
            Side::Buy
        } else {
            Side::Sell
        },
        price: if i % 2 == 0 {
            115
        } else {
            85
        },
        qty: (3 + i % 8) as u64,
    }
}

/// The sweeping orders, with both sides replenished in every fiftieth round.
pub open spec fn sweep_requests(rounds: nat) -> Seq<SubmitOrderReq>
    decreases rounds,
{
    if rounds == 0 {
        Seq::empty()
    } else {
        let i = rounds - 1;
        let swept = sweep_requests((rounds - 1) as nat).push(sweep_request(i));
        if i % 50 == 0 {
            swept + refill_requests(10)
        } else {
            swept
        }
    }
}

/// No request asks for more than ten.
spec fn small(reqs: Seq<SubmitOrderReq>) -> bool {
    forall|i: int| 0 <= i < reqs.len() ==> (#[trigger] reqs[i]).qty <= 10
}

proof fn lemma_small_qty(reqs: Seq<SubmitOrderReq>)
    requires
        small(reqs),
    ensures
        req_qty(reqs) <= 10 * reqs.len(),
    decreases reqs.len(),
{
    if reqs.len() > 0 {
        lemma_small_qty(reqs.drop_last());
    }
}

proof fn lemma_dense(rounds: nat)
    ensures
        dense_requests(rounds).len() == 2 * rounds,
        small(dense_requests(rounds)),
    decreases rounds,
{
    if rounds > 0 {
        lemma_dense((rounds - 1) as nat);
    }
}

proof fn lemma_refill(prices: nat)
    ensures
        refill_requests(prices).len() == 2 * prices,
        small(refill_requests(prices)),
    decreases prices,
{
    if prices > 0 {
        lemma_refill((prices - 1) as nat);
    }
}

proof fn lemma_sweep(rounds: nat)
    ensures
        rounds <= sweep_requests(rounds).len() <= 21 * rounds,
        small(sweep_requests(rounds)),
    decreases rounds,
{
    if rounds > 0 {
        lemma_sweep((rounds - 1) as nat);
        lemma_refill(10);
    }
}

proof fn lemma_placed_all_add(book: BookView, a: Seq<SubmitOrderReq>, b: Seq<SubmitOrderReq>)
    ensures
        book.placed_all(a + b) == book.placed_all(a).placed_all(b),
    decreases b.len(),
{
    if b.len() == 0 {
        assert(a + b =~= a);
    } else {
        lemma_placed_all_add(book, a, b.drop_last());
        assert((a + b).drop_last() =~= a + b.drop_last());
    }
}

proof fn lemma_placed_all_push(book: BookView, reqs: Seq<SubmitOrderReq>, req: SubmitOrderReq)
    ensures
        book.placed_all(reqs.push(req)) == book.placed_all(reqs).placed(req),
{
    assert(reqs.push(req).drop_last() =~= reqs);
}

proof fn lemma_placed_all_ids(book: BookView, reqs: Seq<SubmitOrderReq>)
    requires
        book.next_id + reqs.len() <= u64::MAX,
    ensures
        book.placed_all(reqs).next_id == book.next_id + reqs.len(),
    decreases reqs.len(),
{
    if reqs.len() > 0 {
        lemma_placed_all_ids(book, reqs.drop_last());
    }
}

proof fn lemma_qty_at_bounded(orders: Seq<Order>, price: u64)
    ensures
        qty_at(orders, price) <= total_qty(orders),
    decreases orders.len(),
{
    if orders.len() > 0 {
        lemma_qty_at_bounded(orders.drop_first(), price);
    }
}

/// Places a buy and a sell order of the same quantity.
fn place_pair(book: &mut OrderBook, bid: u64, ask: u64, qty: u64)
    requires
        old(book).wf(),
        old(book)@.next_id + 2 <= u64::MAX,
    ensures
        final(book).wf(),
        final(book)@ == old(book)@.placed_all(
            seq![
                SubmitOrderReq { side: Side::Buy, price: bid, qty },
                SubmitOrderReq { side: Side::Sell, price: ask, qty },
            ],
        ),
{
    let buy = SubmitOrderReq { side: Side::Buy, price: bid, qty };
    let sell = SubmitOrderReq { side: Side::Sell, price: ask, qty };
    place(book, &buy);
    place(book, &sell);
    proof {
        let none = Seq::<SubmitOrderReq>::empty();
        assert(seq![buy, sell] =~= none.push(buy).push(sell));
        lemma_placed_all_push(old(book)@, none, buy);
        lemma_placed_all_push(old(book)@, none.push(buy), sell);
        assert(old(book)@.placed_all(none) == old(book)@);
    }
}

/// Builds a dense book: `rounds` bids over ten prices and as many asks over ten others.
pub fn build_dense(book: &mut OrderBook, rounds: u64)
    requires
        old(book).wf(),
        old(book)@.next_id + 2 * rounds <= u64::MAX,
    ensures
        final(book).wf(),
        final(book)@ == old(book)@.placed_all(dense_requests(rounds as nat)),
{
    let ghost before = book@;
    for i in 0..rounds
        invariant
            book.wf(),
            before.next_id + 2 * rounds <= u64::MAX,
            book@ == before.placed_all(dense_requests(i as nat)),
    {
        proof {
            lemma_dense(i as nat);
            lemma_placed_all_ids(before, dense_requests(i as nat));
            lemma_placed_all_add(
                before,
                dense_requests(i as nat),
                seq![
                    SubmitOrderReq {
                        side: Side::Buy,
                        price: (90 + i % 10) as u64,
                        qty: (5 + i % 5) as u64,
                    },
                    SubmitOrderReq {
                        side: Side::Sell,
                        price: (100 + i % 10) as u64,
                        qty: (5 + i % 5) as u64,
                    },
                ],
            );
        }
        place_pair(book, 90 + (i % 10), 100 + (i % 10), 5 + (i % 5));
    }
}

/// Adds a bid and an ask at each price.
fn refill(book: &mut OrderBook)
    requires
        old(book).wf(),
        old(book)@.next_id + 20 <= u64::MAX,
    ensures
        final(book).wf(),
        final(book)@ == old(book)@.placed_all(refill_requests(10)),
{
    let ghost before = book@;
    for j in 0..10u64
        invariant
            book.wf(),
            before.next_id + 20 <= u64::MAX,
            book@ == before.placed_all(refill_requests(j as nat)),
    {
        proof {
            lemma_refill(j as nat);
            lemma_placed_all_ids(before, refill_requests(j as nat));
            lemma_placed_all_add(
                before,
                refill_requests(j as nat),
                seq![
                    SubmitOrderReq { side: Side::Buy, price: (90 + j) as u64, qty: 10 },
                    SubmitOrderReq { side: Side::Sell, price: (100 + j) as u64, qty: 10 },
                ],
            );
        }
        place_pair(book, 90 + j, 100 + j, 10);
    }
}

/// Sweeps the book with `rounds` aggressive orders and replenishes it now and then.
pub fn sweep_book(book: &mut OrderBook, rounds: u64)
    requires
        old(book).wf(),
        old(book)@.next_id + 21 * rounds <= u64::MAX,
    ensures
        final(book).wf(),
        final(book)@ == old(book)@.placed_all(sweep_requests(rounds as nat)),
{
    let ghost before = book@;
    for i in 0..rounds
        invariant
            book.wf(),
            before.next_id + 21 * rounds <= u64::MAX,
            book@ == before.placed_all(sweep_requests(i as nat)),
    {
        let req = if i % 2 == 0 {
            SubmitOrderReq { side: Side::Buy, price: 115, qty: 3 + (i % 8) }
        } else {
            SubmitOrderReq { side: Side::Sell, price: 85, qty: 3 + (i % 8) }
        };
        let ghost swept = sweep_requests(i as nat);
        proof {
            lemma_sweep(i as nat);
            lemma_placed_all_ids(before, swept);
            lemma_placed_all_push(before, swept, req);
            lemma_placed_all_ids(before, swept.push(req));
            lemma_placed_all_add(before, swept.push(req), refill_requests(10));
            assert(req == sweep_request(i as int));
        }
        place(book, &req);
        if i % 50 == 0 {
            refill(book);
        }
    }
}

/// Runs the whole load on an empty book and returns what it leaves.
pub fn run_bench() -> (snapshot: OrderBookSnapshot)
    ensures
        BookView::empty().placed_all(
            dense_requests(DENSE_ROUNDS as nat) + sweep_requests(SWEEP_ROUNDS as nat),
        ).aggregated_by(snapshot),
        BookView::empty().placed_all(
            dense_requests(10_000) + sweep_requests(500_000),
        ).aggregated_by(snapshot),
{
    let mut book = OrderBook::new();
    proof {
        let dense = dense_requests(DENSE_ROUNDS as nat);
        let swept = sweep_requests(SWEEP_ROUNDS as nat);
        lemma_dense(DENSE_ROUNDS as nat);
        lemma_sweep(SWEEP_ROUNDS as nat);
        lemma_placed_all_ids(BookView::empty(), dense);
        lemma_placed_all_add(BookView::empty(), dense, swept);
        lemma_small_qty(dense + swept);
        every_run_is_sound(dense + swept);
        let left = BookView::empty().placed_all(dense + swept);
        assert forall|price: u64| #[trigger] qty_at(left.bids, price) <= u64::MAX by {
            lemma_qty_at_bounded(left.bids, price);
        }
        assert forall|price: u64| #[trigger] qty_at(left.asks, price) <= u64::MAX by {
            lemma_qty_at_bounded(left.asks, price);
        }
    }
    build_dense(&mut book, DENSE_ROUNDS);
    sweep_book(&mut book, SWEEP_ROUNDS);
    book.snapshot()
}

/// The load is built from ten thousand bids and asks each, and swept half a million times.
pub proof fn load_has_its_size()
    ensures
        DENSE_ROUNDS == 10_000,
        SWEEP_ROUNDS == 500_000,
{
}

/// Each round of the dense book brings a bid between 90 and 99 and then an ask ten higher, of
/// the same quantity between 5 and 9, and both go round with the rounds.
pub proof fn dense_book_is_a_ladder(rounds: nat, i: int)
    requires
        0 <= i < rounds,
    ensures
        dense_requests(rounds).len() == 2 * rounds,
        dense_requests(rounds)[2 * i].side is Buy,
        dense_requests(rounds)[2 * i].price == 90 + i % 10,
        dense_requests(rounds)[2 * i].qty == 5 + i % 5,
        dense_requests(rounds)[2 * i + 1].side is Sell,
        dense_requests(rounds)[2 * i + 1].price == 100 + i % 10,
        dense_requests(rounds)[2 * i + 1].qty == 5 + i % 5,
    decreases rounds,
{
    lemma_dense(rounds);
    lemma_dense((rounds - 1) as nat);
    if i < rounds - 1 {
        dense_book_is_a_ladder((rounds - 1) as nat, i);
        let earlier = dense_requests((rounds - 1) as nat);
        assert(dense_requests(rounds)[2 * i] == earlier[2 * i]);
        assert(dense_requests(rounds)[2 * i + 1] == earlier[2 * i + 1]);
    }
}

/// Replenishing brings, price by price, a bid from 90 up and an ask from 100 up, of ten each.
pub proof fn refill_is_a_ladder(prices: nat, j: int)
    requires
        0 <= j < prices,
        prices <= u64::MAX - 100,
    ensures
        refill_requests(prices).len() == 2 * prices,
        refill_requests(prices)[2 * j].side is Buy,
        refill_requests(prices)[2 * j].price == 90 + j,
        refill_requests(prices)[2 * j].qty == 10,
        refill_requests(prices)[2 * j + 1].side is Sell,
        refill_requests(prices)[2 * j + 1].price == 100 + j,
        refill_requests(prices)[2 * j + 1].qty == 10,
    decreases prices,
{
    lemma_refill(prices);
    lemma_refill((prices - 1) as nat);
    if j < prices - 1 {
        refill_is_a_ladder((prices - 1) as nat, j);
        let earlier = refill_requests((prices - 1) as nat);
        assert(refill_requests(prices)[2 * j] == earlier[2 * j]);
        assert(refill_requests(prices)[2 * j + 1] == earlier[2 * j + 1]);
    }
}

/// Every sweeping order reaches past all prices of the load on the other side: even rounds buy
/// above every ask and odd rounds sell below every bid. So wherever an order of the load rests
/// on the other side, it trades.
pub proof fn sweeping_orders_trade(i: int, book: BookView)
    requires
        i >= 0,
        book.valid(),
    ensures
        i % 2 == 0 ==> sweep_request(i).side is Buy && sweep_request(i).price == 115,
        i % 2 == 1 ==> sweep_request(i).side is Sell && sweep_request(i).price == 85,
        sweep_request(i).qty == 3 + i % 8,
        i % 2 == 0 && (exists|k: int|
            0 <= k < book.asks.len() && (#[trigger] book.asks[k]).price <= 109)
            ==> book.fills(book.order_for(sweep_request(i))).len() > 0,
        i % 2 == 1 && (exists|k: int|
            0 <= k < book.bids.len() && (#[trigger] book.bids[k]).price >= 90)
            ==> book.fills(book.order_for(sweep_request(i))).len() > 0,
{
    let order = book.order_for(sweep_request(i));
    assert(book.side_valid(Side::Buy) && book.side_valid(Side::Sell));
    assert(best_first(Side::Buy, book.bids) && best_first(Side::Sell, book.asks));
    if i % 2 == 0 {
        buy_order_trades_then_rests(book, order);
        if exists|k: int| 0 <= k < book.asks.len() && (#[trigger] book.asks[k]).price <= 109 {
            let k = choose|k: int|
                0 <= k < book.asks.len() && (#[trigger] book.asks[k]).price <= 109;
            assert(k == 0 || !better(Side::Sell, book.asks[k].price, book.asks[0].price));
        }
    } else {
        sell_order_trades_then_rests(book, order);
        if exists|k: int| 0 <= k < book.bids.len() && (#[trigger] book.bids[k]).price >= 90 {
            let k = choose|k: int|
                0 <= k < book.bids.len() && (#[trigger] book.bids[k]).price >= 90;
            assert(k == 0 || !better(Side::Buy, book.bids[k].price, book.bids[0].price));
        }
    }
}

/// The sweeping load in full: rounds follow one another, each with one order, which buys at 115
/// in even rounds and sells at 85 in odd ones; every fiftieth round, from the first on, is
/// followed by twenty orders that replenish the ten prices of each side with ten.
pub proof fn sweep_rounds_follow_one_another(rounds: nat, i: int, j: int)
    requires
        0 <= i < rounds,
        0 <= j < 10,
    ensures
        sweep_requests(rounds).len() == rounds + 20 * ((rounds + 49) / 50),
        ({
            let at = i + 20 * ((i + 49) / 50);
            let reqs = sweep_requests(rounds);
            &&& at < reqs.len()
            &&& reqs[at].side == (if i % 2 == 0 {
                Side::Buy
            } else {
                Side::Sell
            })
            &&& reqs[at].price == (if i % 2 == 0 {
                115int
            } else {
                85
            })
            &&& reqs[at].qty == 3 + i % 8
            &&& i % 50 == 0 ==> {
                &&& at + 2 + 2 * j < reqs.len()
                &&& reqs[at + 1 + 2 * j].side is Buy
                &&& reqs[at + 1 + 2 * j].price == 90 + j
                &&& reqs[at + 1 + 2 * j].qty == 10
                &&& reqs[at + 2 + 2 * j].side is Sell
                &&& reqs[at + 2 + 2 * j].price == 100 + j
                &&& reqs[at + 2 + 2 * j].qty == 10
            }
        }),
    decreases rounds,
{
    let fewer = (rounds - 1) as nat;
    let earlier = sweep_requests(fewer);
    let reqs = sweep_requests(rounds);
    let at = i + 20 * ((i + 49) / 50);
    lemma_refill(10);
    refill_is_a_ladder(10, j);
    if fewer > 0 {
        let k = if i < fewer { i } else { fewer - 1 };
        sweep_rounds_follow_one_another(fewer, k, j);
    }
    assert(earlier.len() == fewer + 20 * ((fewer + 49) / 50));
    assert(forall|k: int| 0 <= k < earlier.len() ==> #[trigger] reqs[k] == earlier[k]);
    if i == fewer {
        assert(at == earlier.len());
        assert(reqs[at] == sweep_request(i));
        if i % 50 == 0 {
            assert(reqs[at + 1 + 2 * j] == refill_requests(10)[2 * j]);
            assert(reqs[at + 2 + 2 * j] == refill_requests(10)[2 * j + 1]);
        }
    }
}

} // verus!
