//! What price-time priority means, on plain sequences of orders.
//!
//! One side of a book is a sequence of resting orders, the next one to trade first:
//! better prices come before worse ones, and within a price the order that arrived
//! earlier comes before the later one.
use vstd::prelude::*;
use crate::types::{Fill, Order, PriceLevel, Side};

verus! {

/// Price `a` trades strictly before price `b` among the orders that rest on `side`.
pub open spec fn better(side: Side, a: u64, b: u64) -> bool {
    match side {
        Side::Buy => a > b,
        Side::Sell => a < b,
    }
}

/// A maker that rests on `side` at `maker_price` is acceptable to a taker whose limit is `limit`.
pub open spec fn acceptable(side: Side, maker_price: u64, limit: u64) -> bool {
    match side {
        Side::Buy => maker_price >= limit,
        Side::Sell => maker_price <= limit,
    }
}

/// The side that an order of side `side` trades against.
pub open spec fn opposite(side: Side) -> Side {
    match side {
        Side::Buy => Side::Sell,
        Side::Sell => Side::Buy,
    }
}

/// No order stands behind one with a worse price.
pub open spec fn best_first(side: Side, orders: Seq<Order>) -> bool {
    forall|i: int, j: int|
        0 <= i < j < orders.len() ==> !better(
            side,
            (#[trigger] orders[j]).price,
            (#[trigger] orders[i]).price,
        )
}

/// The orders are of `side` and each has something left to trade.
pub open spec fn open_on(side: Side, orders: Seq<Order>) -> bool {
    forall|i: int|
        0 <= i < orders.len() ==> (#[trigger] orders[i]).side == side && orders[i].qty > 0
}

/// The ids of the orders are among `ids`.
pub open spec fn ids_within(orders: Seq<Order>, ids: Set<u64>) -> bool {
    forall|i: int| 0 <= i < orders.len() ==> ids.contains((#[trigger] orders[i]).id)
}

/// The ids below `bound`.
pub open spec fn ids_below(bound: u64) -> Set<u64> {
    Set::new(|id: u64| id < bound)
}

/// The sum of the orders' quantities.
pub open spec fn total_qty(orders: Seq<Order>) -> nat
    decreases orders.len(),
{
    if orders.len() == 0 {
        0
    } else {
        orders[0].qty as nat + total_qty(orders.drop_first())
    }
}

/// The sum of the quantities of the orders at `price`.
pub open spec fn qty_at(orders: Seq<Order>, price: u64) -> nat
    decreases orders.len(),
{
    if orders.len() == 0 {
        0
    } else {
        (if orders[0].price == price {
            orders[0].qty as nat
        } else {
            0
        }) + qty_at(orders.drop_first(), price)
    }
}

/// The sum of the fills' quantities.
pub open spec fn filled_qty(fills: Seq<Fill>) -> nat
    decreases fills.len(),
{
    if fills.len() == 0 {
        0
    } else {
        fills[0].qty as nat + filled_qty(fills.drop_first())
    }
}

/// The sum of the quantities of price levels.
pub open spec fn level_qty(levels: Seq<PriceLevel>) -> nat
    decreases levels.len(),
{
    if levels.len() == 0 {
        0
    } else {
        level_qty(levels.drop_last()) + levels.last().qty as nat
    }
}

/// `orders` with `order` queued behind every order at the same or a better price.
pub open spec fn enqueue(side: Side, orders: Seq<Order>, order: Order) -> Seq<Order>
    decreases orders.len(),
{
    if orders.len() == 0 || better(side, order.price, orders[0].price) {
        seq![order] + orders
    } else {
        seq![orders[0]] + enqueue(side, orders.drop_first(), order)
    }
}

/// `orders` after `qty` of the first one has traded: it leaves once nothing of it remains.
pub open spec fn consume_front(orders: Seq<Order>, qty: u64) -> Seq<Order> {
    if orders.len() == 0 {
        orders
    } else if qty == orders[0].qty {
        orders.drop_first()
    } else {
        orders.update(0, Order { qty: (orders[0].qty - qty) as u64, ..orders[0] })
    }
}

/// The trade of `qty` between `maker` and `taker`, at the maker's price.
pub open spec fn fill_of(maker: Order, taker: Order, qty: u64) -> Fill {
    Fill { maker_order_id: maker.id, taker_order_id: taker.id, price: maker.price, qty }
}

/// What comes of matching a taker against one side of a book.
pub struct Sweep {
    /// The trades, in the order in which they happen.
    pub fills: Seq<Fill>,
    /// What is left of the taker's quantity.
    pub left: u64,
    /// What is left of the makers.
    pub makers: Seq<Order>,
}

/// Matches `taker` against the `makers` that rest on `side`: from the front, each maker is
/// used up before the next one is touched, as long as its price is acceptable.
pub open spec fn sweep(side: Side, makers: Seq<Order>, taker: Order) -> Sweep
    decreases makers.len(),
{
    if taker.qty == 0 || makers.len() == 0 || !acceptable(side, makers[0].price, taker.price) {
        Sweep { fills: Seq::empty(), left: taker.qty, makers }
    } else if makers[0].qty <= taker.qty {
        let next = sweep(
            side,
            makers.drop_first(),
            Order { qty: (taker.qty - makers[0].qty) as u64, ..taker },
        );
        Sweep { fills: seq![fill_of(makers[0], taker, makers[0].qty)] + next.fills, ..next }
    } else {
        Sweep {
            fills: seq![fill_of(makers[0], taker, taker.qty)],
            left: 0,
            makers: consume_front(makers, taker.qty),
        }
    }
}

/// Some order rests at `price`.
pub open spec fn rests_at(orders: Seq<Order>, price: u64) -> bool {
    exists|k: int| 0 <= k < orders.len() && (#[trigger] orders[k]).price == price
}

/// Some level is the one at `price`.
pub open spec fn lists_price(levels: Seq<PriceLevel>, price: u64) -> bool {
    exists|k: int| 0 <= k < levels.len() && (#[trigger] levels[k]).price == price
}

/// What rests at any one price can be counted in a `u64`.
pub open spec fn totals_fit(orders: Seq<Order>) -> bool {
    forall|price: u64| #[trigger] qty_at(orders, price) <= u64::MAX
}

/// `levels` lists the prices at which `orders` rest, best price first and each price once,
/// with the total quantity that rests there.
pub open spec fn aggregates(side: Side, orders: Seq<Order>, levels: Seq<PriceLevel>) -> bool {
    &&& forall|i: int, j: int|
        0 <= i < j < levels.len() ==> better(
            side,
            (#[trigger] levels[i]).price,
            (#[trigger] levels[j]).price,
        )
    &&& forall|price: u64|
        #![trigger rests_at(orders, price)]
        #![trigger lists_price(levels, price)]
        rests_at(orders, price) <==> lists_price(levels, price)
    &&& forall|i: int|
        0 <= i < levels.len() ==> (#[trigger] levels[i]).qty == qty_at(orders, levels[i].price)
}

pub(crate) proof fn lemma_total_qty_add(a: Seq<Order>, b: Seq<Order>)
    ensures
        total_qty(a + b) == total_qty(a) + total_qty(b),
    decreases a.len(),
{
    if a.len() == 0 {
        assert(a + b =~= b);
    } else {
        lemma_total_qty_add(a.drop_first(), b);
        assert((a + b).drop_first() =~= a.drop_first() + b);
    }
}

pub(crate) proof fn lemma_qty_at_add(a: Seq<Order>, b: Seq<Order>, price: u64)
    ensures
        qty_at(a + b, price) == qty_at(a, price) + qty_at(b, price),
    decreases a.len(),
{
    if a.len() == 0 {
        assert(a + b =~= b);
    } else {
        lemma_qty_at_add(a.drop_first(), b, price);
        assert((a + b).drop_first() =~= a.drop_first() + b);
    }
}

pub(crate) proof fn lemma_qty_at_same_price(orders: Seq<Order>, price: u64)
    requires
        forall|i: int| 0 <= i < orders.len() ==> (#[trigger] orders[i]).price == price,
    ensures
        qty_at(orders, price) == total_qty(orders),
    decreases orders.len(),
{
    if orders.len() > 0 {
        lemma_qty_at_same_price(orders.drop_first(), price);
    }
}

pub(crate) proof fn lemma_qty_at_absent(orders: Seq<Order>, price: u64)
    requires
        !rests_at(orders, price),
    ensures
        qty_at(orders, price) == 0,
    decreases orders.len(),
{
    if orders.len() > 0 {
        let rest = orders.drop_first();
        assert(orders[0].price != price);
        assert forall|k: int| 0 <= k < rest.len() implies (#[trigger] rest[k]).price != price by {
            assert(rest[k] == orders[k + 1]);
        }
        lemma_qty_at_absent(rest, price);
    }
}

} // verus!
