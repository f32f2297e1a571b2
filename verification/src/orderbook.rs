//! The order book: two sides and the ids it hands out.
use vstd::prelude::*;
use crate::half_book::HalfBook;
use crate::laws;
use crate::matching::{
    aggregates, best_first, enqueue, fill_of, ids_below, ids_within, open_on, opposite, sweep,
    total_qty, totals_fit, Sweep,
};
use crate::types::{Fill, Order, OrderBookSnapshot, Side, SubmitOrderReq};

verus! {

/// What a book holds: the resting orders of each side in the order in which they trade, and
/// the id that the next order gets.
#[verifier::ext_equal]
pub struct BookView {
    pub bids: Seq<Order>,
    pub asks: Seq<Order>,
    pub next_id: u64,
}

impl BookView {
    /// The book before anything is submitted.
    pub open spec fn empty() -> Self {
        BookView { bids: Seq::empty(), asks: Seq::empty(), next_id: 1 }
    }

    /// The orders that rest on `side`.
    pub open spec fn resting(self, side: Side) -> Seq<Order> {
        match side {
            Side::Buy => self.bids,
            Side::Sell => self.asks,
        }
    }

    /// The book with the orders on `side` replaced by `orders`.
    pub open spec fn with_resting(self, side: Side, orders: Seq<Order>) -> Self {
        match side {
            Side::Buy => BookView { bids: orders, ..self },
            Side::Sell => BookView { asks: orders, ..self },
        }
    }

    /// The taker is matched against the other side.
    pub open spec fn sweep(self, taker: Order) -> Sweep {
        sweep(opposite(taker.side), self.resting(opposite(taker.side)), taker)
    }

    /// The trades that submitting `taker` brings about.
    pub open spec fn fills(self, taker: Order) -> Seq<Fill> {
        self.sweep(taker).fills
    }

    /// The book after `taker` has been submitted: what is left of it rests on its own side.
    pub open spec fn after(self, taker: Order) -> Self {
        let swept = self.sweep(taker);
        let matched = self.with_resting(opposite(taker.side), swept.makers);
        if swept.left == 0 {
            matched
        } else {
            matched.with_resting(
                taker.side,
                enqueue(taker.side, self.resting(taker.side), Order { qty: swept.left, ..taker }),
            )
        }
    }

    /// The book after all of `orders` have been submitted, the first one first.
    pub open spec fn after_all(self, orders: Seq<Order>) -> Self
        decreases orders.len(),
    {
        if orders.len() == 0 {
            self
        } else {
            self.after_all(orders.drop_last()).after(orders.last())
        }
    }

    /// The trades that submitting all of `orders` brings about.
    pub open spec fn fills_all(self, orders: Seq<Order>) -> Seq<Fill>
        decreases orders.len(),
    {
        if orders.len() == 0 {
            Seq::empty()
        } else {
            self.fills_all(orders.drop_last()) + self.after_all(orders.drop_last()).fills(
                orders.last(),
            )
        }
    }

    /// The order that a request becomes: it gets the next id.
    pub open spec fn order_for(self, req: SubmitOrderReq) -> Order {
        Order { id: self.next_id, side: req.side, price: req.price, qty: req.qty }
    }

    /// The book after the request has been given an id and submitted.
    pub open spec fn placed(self, req: SubmitOrderReq) -> Self {
        BookView { next_id: (self.next_id + 1) as u64, ..self.after(self.order_for(req)) }
    }

    /// The book after all of `reqs` have been placed, the first one first.
    pub open spec fn placed_all(self, reqs: Seq<SubmitOrderReq>) -> Self
        decreases reqs.len(),
    {
        if reqs.len() == 0 {
            self
        } else {
            self.placed_all(reqs.drop_last()).placed(reqs.last())
        }
    }

    /// The ids of the resting orders are among `ids`.
    pub open spec fn ids_within(self, ids: Set<u64>) -> bool {
        ids_within(self.bids, ids) && ids_within(self.asks, ids)
    }

    /// Every id that rests has been handed out before.
    pub open spec fn ids_issued(self) -> bool {
        self.ids_within(ids_below(self.next_id))
    }

    /// The quantity that rests on both sides.
    pub open spec fn resting_qty(self) -> nat {
        total_qty(self.bids) + total_qty(self.asks)
    }

    /// Every bid is below every ask.
    pub open spec fn uncrossed(self) -> bool {
        forall|i: int, j: int|
            0 <= i < self.bids.len() && 0 <= j < self.asks.len() ==> (#[trigger] self.bids[i]).price
                < (#[trigger] self.asks[j]).price
    }

    /// The orders on `side` belong there, have something left to trade, and stand best first.
    pub open spec fn side_valid(self, side: Side) -> bool {
        best_first(side, self.resting(side)) && open_on(side, self.resting(side))
    }

    /// Both sides are in order and do not cross.
    pub open spec fn valid(self) -> bool {
        &&& self.side_valid(Side::Buy)
        &&& self.side_valid(Side::Sell)
        &&& self.uncrossed()
    }

    /// The totals of all price levels fit in a `u64`.
    pub open spec fn totals_fit(self) -> bool {
        totals_fit(self.bids) && totals_fit(self.asks)
    }

    /// `snapshot` aggregates both sides.
    pub open spec fn aggregated_by(self, snapshot: OrderBookSnapshot) -> bool {
        &&& aggregates(Side::Buy, self.bids, snapshot.bids@)
        &&& aggregates(Side::Sell, self.asks, snapshot.asks@)
    }
}

/// Matches the taker against the makers on the other side and reduces both.
fn match_taker(makers: &mut HalfBook, taker: &mut Order) -> (fills: Vec<Fill>)
    requires
        old(makers).wf(),
    ensures
        final(makers).wf(),
        final(makers).side() == old(makers).side(),
        ({
            let swept = sweep(old(makers).side(), old(makers)@, *old(taker));
            &&& fills@ == swept.fills
            &&& final(makers)@ == swept.makers
            &&& *final(taker) == (Order { qty: swept.left, ..*old(taker) })
        }),
{
    let mut fills: Vec<Fill> = Vec::new();
    let ghost side = makers.side();
    let ghost swept = sweep(side, makers@, *taker);
    assert(fills@ + swept.fills =~= swept.fills);
    while taker.qty > 0 && makers.crosses(taker.price)
        invariant
            makers.wf(),
            makers.side() == side,
            *taker == (Order { qty: taker.qty, ..*old(taker) }),
            fills@ + sweep(side, makers@, *taker).fills == swept.fills,
            sweep(side, makers@, *taker).left == swept.left,
            sweep(side, makers@, *taker).makers == swept.makers,
        decreases makers@.len(), taker.qty,
    {
        let (price, maker_id, maker_qty) = makers.peek_best().unwrap();
        let ghost before = makers@;
        let ghost pending = *taker;
        let ghost done = fills@;
        let fill_qty = if taker.qty <= maker_qty { taker.qty } else { maker_qty };
        fills.push(
            Fill { maker_order_id: maker_id, taker_order_id: taker.id, price, qty: fill_qty },
        );
        taker.qty = taker.qty - fill_qty;
        makers.consume(fill_qty);
        proof {
            let step = fill_of(before[0], pending, fill_qty);
            assert(fills@ == done.push(step));
            let now = sweep(side, makers@, *taker);
            let then = sweep(side, before, pending);
            if pending.qty < maker_qty {
                assert(then.fills =~= seq![step] + now.fills);
            } else {
                assert(makers@ == before.drop_first());
                assert(then.fills =~= seq![step] + now.fills);
            }
            assert(done + then.fills =~= fills@ + now.fills);
        }
    }
    proof {
        assert(sweep(side, makers@, *taker).fills =~= Seq::empty());
        assert(fills@ + Seq::empty() =~= fills@);
    }
    fills
}

/// A limit order book with price-time priority.
#[derive(Debug)]
pub struct OrderBook {
    bids: HalfBook,
    asks: HalfBook,
    next_id: u64,
}

impl View for OrderBook {
    type V = BookView;

    closed spec fn view(&self) -> BookView {
        BookView { bids: self.bids@, asks: self.asks@, next_id: self.next_id }
    }
}

impl OrderBook {
    /// Each side is kept as it should be, and what the book holds is valid.
    pub closed spec fn wf(&self) -> bool {
        &&& self.bids.wf()
        &&& self.bids.side() == Side::Buy
        &&& self.asks.wf()
        &&& self.asks.side() == Side::Sell
        &&& self@.valid()
    }

    /// What a well-formed book holds is valid; in particular it is not crossed.
    pub proof fn wf_is_valid(&self)
        requires
            self.wf(),
        ensures
            self@.valid(),
    {
    }

    /// An empty book.
    pub fn new() -> (book: Self)
        ensures
            book.wf(),
            book@ == BookView::empty(),
            book@.bids.len() == 0,
            book@.asks.len() == 0,
            book@.next_id == 1,
    {
        Self { bids: HalfBook::new(Side::Buy), asks: HalfBook::new(Side::Sell), next_id: 1 }
    }

    /// Hands out the next order id.
    pub fn next_id(&mut self) -> (id: u64)
        requires
            old(self).wf(),
            old(self)@.next_id < u64::MAX,
        ensures
            final(self).wf(),
            id == old(self)@.next_id,
            final(self)@ == (BookView { next_id: (id + 1) as u64, ..old(self)@ }),
    {
        let id = self.next_id;
        self.next_id = self.next_id + 1;
        id
    }

    /// Hands out the next order id, unless the ids have run out.
    pub fn try_next_id(&mut self) -> (id: Option<u64>)
        requires
            old(self).wf(),
        ensures
            final(self).wf(),
            id is Some <==> old(self)@.next_id < u64::MAX,
            match id {
                Some(id) => {
                    &&& id == old(self)@.next_id
                    &&& final(self)@ == (BookView { next_id: (id + 1) as u64, ..old(self)@ })
                },
                None => final(self)@ == old(self)@,
            },
    {
        if self.next_id < u64::MAX {
            Some(self.next_id())
        } else {
            None
        }
    }

    /// Matches a taker order and rests what is left of it. Returns every fill, in order.
    ///
    /// The book is not shared: callers submit one order at a time.
    pub fn submit(&mut self, taker: Order) -> (fills: Vec<Fill>)
        requires
            old(self).wf(),
        ensures
            final(self).wf(),
            fills@ == old(self)@.fills(taker),
            final(self)@ == old(self)@.after(taker),
    {
        let mut left = taker;
        proof {
            laws::submit_keeps_valid(self@, taker);
        }
        match left.side {
            Side::Buy => {
                let fills = match_taker(&mut self.asks, &mut left);
                if left.qty > 0 {
                    self.bids.rest(left);
                }
                fills
            },
            Side::Sell => {
                let fills = match_taker(&mut self.bids, &mut left);
                if left.qty > 0 {
                    self.asks.rest(left);
                }
                fills
            },
        }
    }

    /// The highest price at which someone buys.
    pub fn best_bid(&self) -> (price: Option<u64>)
        requires
            self.wf(),
        ensures
            price == (if self@.bids.len() == 0 {
                None
            } else {
                Some(self@.bids[0].price)
            }),
            price matches Some(price) ==> forall|i: int|
                0 <= i < self@.bids.len() ==> (#[trigger] self@.bids[i]).price <= price,
    {
        self.bids.best()
    }

    /// The lowest price at which someone sells.
    pub fn best_ask(&self) -> (price: Option<u64>)
        requires
            self.wf(),
        ensures
            price == (if self@.asks.len() == 0 {
                None
            } else {
                Some(self@.asks[0].price)
            }),
            price matches Some(price) ==> forall|i: int|
                0 <= i < self@.asks.len() ==> (#[trigger] self@.asks[i]).price >= price,
    {
        self.asks.best()
    }

    /// The price levels of both sides, best first, each with its total quantity.
    pub fn snapshot(&self) -> (snapshot: OrderBookSnapshot)
        requires
            self.wf(),
            self@.totals_fit(),
        ensures
            self@.aggregated_by(snapshot),
    {
        OrderBookSnapshot { bids: self.bids.snapshot_levels(), asks: self.asks.snapshot_levels() }
    }

    /// The snapshot, unless the total of a level exceeds what a `u64` holds.
    pub fn try_snapshot(&self) -> (snapshot: Option<OrderBookSnapshot>)
        requires
            self.wf(),
        ensures
            snapshot is Some <==> self@.totals_fit(),
            snapshot matches Some(snapshot) ==> self@.aggregated_by(snapshot),
    {
        let bids = match self.bids.try_snapshot_levels() {
            Some(bids) => bids,
            None => return None,
        };
        let asks = match self.asks.try_snapshot_levels() {
            Some(asks) => asks,
            None => return None,
        };
        Some(OrderBookSnapshot { bids, asks })
    }
}

} // verus!
