//! What holds of the book whatever is submitted to it.
use vstd::prelude::*;
use crate::matching::{
    acceptable, aggregates, best_first, better, consume_front, enqueue, fill_of, filled_qty,
    ids_below, ids_within, lemma_qty_at_add, lemma_total_qty_add, level_qty, lists_price, open_on,
    opposite, qty_at, rests_at, sweep, total_qty,
};
use crate::orderbook::BookView;
use crate::types::{Fill, Order, OrderBookSnapshot, PriceLevel, Side, SubmitOrderReq};

verus! {

/// Every order still has something to trade.
pub open spec fn all_open(orders: Seq<Order>) -> bool {
    forall|i: int| 0 <= i < orders.len() ==> (#[trigger] orders[i]).qty > 0
}

/// No order of `makers`, which rest on `side`, is acceptable to one of `others`.
pub open spec fn apart(side: Side, makers: Seq<Order>, others: Seq<Order>) -> bool {
    forall|i: int, j: int|
        0 <= i < makers.len() && 0 <= j < others.len() ==> !acceptable(
            side,
            (#[trigger] makers[i]).price,
            (#[trigger] others[j]).price,
        )
}

/// Price-time priority among the makers: a taker trades with a prefix of them, in order, each
/// at the maker's own price and within the taker's limit, and a maker is used up before the
/// next one is touched. The makers behind that prefix keep their place and their quantity.
pub proof fn sweep_keeps_priority(side: Side, makers: Seq<Order>, taker: Order)
    requires
        all_open(makers),
    ensures
        ({
            let after = sweep(side, makers, taker);
            let used = makers.len() - after.makers.len();
            &&& 0 <= used <= after.fills.len() <= used + 1
            &&& after.fills.len() <= makers.len()
            &&& after.fills.len() == used + 1 ==> after.left == 0
            &&& forall|i: int|
                0 <= i < after.fills.len() ==> {
                    &&& #[trigger] after.fills[i] == fill_of(makers[i], taker, after.fills[i].qty)
                    &&& acceptable(side, makers[i].price, taker.price)
                    &&& 0 < after.fills[i].qty
                    &&& i < used ==> after.fills[i].qty == makers[i].qty
                    &&& i == used ==> after.fills[i].qty < makers[i].qty
                }
            &&& forall|k: int|
                0 <= k < after.makers.len() ==> #[trigger] after.makers[k] == (if used + k
                    < after.fills.len() {
                    Order {
                        qty: (makers[used + k].qty - after.fills[used + k].qty) as u64,
                        ..makers[used + k]
                    }
                } else {
                    makers[used + k]
                })
        }),
    decreases makers.len(),
{
    let after = sweep(side, makers, taker);
    if taker.qty == 0 || makers.len() == 0 || !acceptable(side, makers[0].price, taker.price) {
    } else if makers[0].qty <= taker.qty {
        let rest = makers.drop_first();
        let smaller = Order { qty: (taker.qty - makers[0].qty) as u64, ..taker };
        sweep_keeps_priority(side, rest, smaller);
        let next = sweep(side, rest, smaller);
        let used = makers.len() - after.makers.len();
        assert forall|i: int| 0 <= i < after.fills.len() implies {
            &&& #[trigger] after.fills[i] == fill_of(makers[i], taker, after.fills[i].qty)
            &&& acceptable(side, makers[i].price, taker.price)
            &&& 0 < after.fills[i].qty
            &&& i < used ==> after.fills[i].qty == makers[i].qty
            &&& i == used ==> after.fills[i].qty < makers[i].qty
        } by {
            if i > 0 {
                assert(after.fills[i] == next.fills[i - 1]);
                assert(makers[i] == rest[i - 1]);
            }
        }
        assert forall|k: int| 0 <= k < after.makers.len() implies #[trigger] after.makers[k] == (
        if used + k < after.fills.len() {
            Order {
                qty: (makers[used + k].qty - after.fills[used + k].qty) as u64,
                ..makers[used + k]
            }
        } else {
            makers[used + k]
        }) by {
            assert(next.makers[k] == after.makers[k]);
            assert(makers[used + k] == rest[used + k - 1]);
            if used + k < after.fills.len() {
                assert(after.fills[used + k] == next.fills[used + k - 1]);
            }
        }
    }
}

/// Nothing is lost or duplicated: what the taker and the makers give up is what was filled.
pub proof fn sweep_conserves(side: Side, makers: Seq<Order>, taker: Order)
    ensures
        ({
            let after = sweep(side, makers, taker);
            &&& taker.qty == after.left + filled_qty(after.fills)
            &&& total_qty(makers) == total_qty(after.makers) + filled_qty(after.fills)
        }),
    decreases makers.len(),
{
    let after = sweep(side, makers, taker);
    if taker.qty == 0 || makers.len() == 0 || !acceptable(side, makers[0].price, taker.price) {
    } else if makers[0].qty <= taker.qty {
        let rest = makers.drop_first();
        let smaller = Order { qty: (taker.qty - makers[0].qty) as u64, ..taker };
        sweep_conserves(side, rest, smaller);
        assert(after.fills.drop_first() =~= sweep(side, rest, smaller).fills);
    } else {
        reveal_with_fuel(filled_qty, 2);
        assert(after.makers.drop_first() =~= makers.drop_first());
    }
}

/// A taker trades as long as it can: if some of it is left, no maker that remains is acceptable.
pub proof fn sweep_is_exhaustive(side: Side, makers: Seq<Order>, taker: Order)
    requires
        best_first(side, makers),
        sweep(side, makers, taker).left > 0,
    ensures
        forall|k: int|
            0 <= k < sweep(side, makers, taker).makers.len() ==> !acceptable(
                side,
                (#[trigger] sweep(side, makers, taker).makers[k]).price,
                taker.price,
            ),
    decreases makers.len(),
{
    if taker.qty == 0 || makers.len() == 0 || !acceptable(side, makers[0].price, taker.price) {
        assert forall|k: int| 0 <= k < makers.len() implies !acceptable(
            side,
            (#[trigger] makers[k]).price,
            taker.price,
        ) by {
            if k > 0 {
                assert(!better(side, makers[k].price, makers[0].price));
            }
        }
    } else if makers[0].qty <= taker.qty {
        let rest = makers.drop_first();
        assert(best_first(side, rest)) by {
            assert forall|i: int, j: int| 0 <= i < j < rest.len() implies !better(
                side,
                (#[trigger] rest[j]).price,
                (#[trigger] rest[i]).price,
            ) by {
                assert(rest[i] == makers[i + 1] && rest[j] == makers[j + 1]);
            }
        }
        sweep_is_exhaustive(
            side,
            rest,
            Order { qty: (taker.qty - makers[0].qty) as u64, ..taker },
        );
    }
}

/// How many of `orders` stand at the front with the same or a better price than `price`.
pub open spec fn queue_position(side: Side, orders: Seq<Order>, price: u64) -> nat
    decreases orders.len(),
{
    if orders.len() == 0 || better(side, price, orders[0].price) {
        0
    } else {
        1 + queue_position(side, orders.drop_first(), price)
    }
}

/// A resting order goes behind every order at the same or a better price and ahead of every
/// order at a worse one; the others keep their relative order.
pub proof fn enqueue_keeps_priority(side: Side, orders: Seq<Order>, order: Order)
    requires
        best_first(side, orders),
    ensures
        ({
            let position = queue_position(side, orders, order.price);
            &&& position <= orders.len()
            &&& enqueue(side, orders, order) == orders.insert(position as int, order)
            &&& forall|i: int|
                0 <= i < position ==> !better(side, order.price, (#[trigger] orders[i]).price)
            &&& forall|i: int|
                position <= i < orders.len() ==> better(
                    side,
                    order.price,
                    (#[trigger] orders[i]).price,
                )
        }),
        best_first(side, enqueue(side, orders, order)),
        total_qty(enqueue(side, orders, order)) == total_qty(orders) + order.qty,
    decreases orders.len(),
{
    let position = queue_position(side, orders, order.price);
    let after = enqueue(side, orders, order);
    if orders.len() == 0 || better(side, order.price, orders[0].price) {
        assert(after =~= orders.insert(0, order));
        assert(after.drop_first() =~= orders);
        assert forall|i: int| 0 <= i < orders.len() implies better(
            side,
            order.price,
            (#[trigger] orders[i]).price,
        ) by {
            if i > 0 {
                assert(!better(side, orders[i].price, orders[0].price));
            }
        }
    } else {
        let rest = orders.drop_first();
        assert forall|i: int, j: int| 0 <= i < j < rest.len() implies !better(
            side,
            (#[trigger] rest[j]).price,
            (#[trigger] rest[i]).price,
        ) by {
            assert(rest[i] == orders[i + 1] && rest[j] == orders[j + 1]);
        }
        enqueue_keeps_priority(side, rest, order);
        assert(after =~= orders.insert(position as int, order));
        assert(after.drop_first() =~= enqueue(side, rest, order));
        assert forall|i: int| 0 <= i < position implies !better(
            side,
            order.price,
            (#[trigger] orders[i]).price,
        ) by {
            if i > 0 {
                assert(orders[i] == rest[i - 1]);
            }
        }
        assert forall|i: int| position <= i < orders.len() implies better(
            side,
            order.price,
            (#[trigger] orders[i]).price,
        ) by {
            assert(orders[i] == rest[i - 1]);
        }
    }
    assert(best_first(side, after)) by {
        assert forall|i: int, j: int| 0 <= i < j < after.len() implies !better(
            side,
            (#[trigger] after[j]).price,
            (#[trigger] after[i]).price,
        ) by {
            let a = if i < position { i } else { i - 1 };
            let b = if j < position { j } else { j - 1 };
            if i != position && j != position {
                assert(after[i] == orders[a] && after[j] == orders[b]);
            } else if i == position {
                assert(after[j] == orders[b]);
            } else {
                assert(after[i] == orders[a]);
            }
        }
    }
}

/// Without its first order a side is still sorted, open and apart from the other side.
proof fn lemma_drop_first(side: Side, orders: Seq<Order>, others: Seq<Order>)
    requires
        orders.len() > 0,
        best_first(side, orders),
        open_on(side, orders),
        apart(side, orders, others),
    ensures
        best_first(side, orders.drop_first()),
        open_on(side, orders.drop_first()),
        apart(side, orders.drop_first(), others),
{
    let rest = orders.drop_first();
    assert(forall|i: int| 0 <= i < rest.len() ==> #[trigger] rest[i] == orders[i + 1]);
}

/// The makers that a sweep leaves are still sorted, open and apart from the taker's side.
proof fn lemma_swept_makers(side: Side, makers: Seq<Order>, others: Seq<Order>, taker: Order)
    requires
        best_first(side, makers),
        open_on(side, makers),
        apart(side, makers, others),
    ensures
        best_first(side, sweep(side, makers, taker).makers),
        open_on(side, sweep(side, makers, taker).makers),
        apart(side, sweep(side, makers, taker).makers, others),
    decreases makers.len(),
{
    if taker.qty == 0 || makers.len() == 0 || !acceptable(side, makers[0].price, taker.price) {
    } else if makers[0].qty <= taker.qty {
        lemma_drop_first(side, makers, others);
        lemma_swept_makers(
            side,
            makers.drop_first(),
            others,
            Order { qty: (taker.qty - makers[0].qty) as u64, ..taker },
        );
    } else {
        let left = consume_front(makers, taker.qty);
        assert(left.len() == makers.len());
        assert(forall|i: int|
            0 <= i < left.len() ==> (#[trigger] left[i]).price == makers[i].price && left[i].side
                == makers[i].side && (left[i].qty == makers[i].qty || i == 0));
        assert(left[0].qty > 0);
    }
}

/// A side that takes in an open order stays sorted, open and apart from the makers that the
/// order did not accept.
proof fn lemma_rested(side: Side, orders: Seq<Order>, order: Order, makers: Seq<Order>)
    requires
        apart(opposite(side), makers, orders),
        forall|k: int|
            0 <= k < makers.len() ==> !acceptable(
                opposite(side),
                (#[trigger] makers[k]).price,
                order.price,
            ),
        best_first(side, orders),
        open_on(side, orders),
        order.side == side,
        order.qty > 0,
    ensures
        best_first(side, enqueue(side, orders, order)),
        open_on(side, enqueue(side, orders, order)),
        apart(opposite(side), makers, enqueue(side, orders, order)),
{
    enqueue_keeps_priority(side, orders, order);
    let position = queue_position(side, orders, order.price) as int;
    let after = enqueue(side, orders, order);
    assert(after == orders.insert(position, order));
    assert forall|i: int| 0 <= i < after.len() implies (#[trigger] after[i]).side == side
        && after[i].qty > 0 by {
        let k = if i < position { i } else { i - 1 };
        assert(i == position || after[i] == orders[k]);
    }
    assert forall|m: int, i: int| 0 <= m < makers.len() && 0 <= i < after.len() implies !acceptable(
        opposite(side),
        (#[trigger] makers[m]).price,
        (#[trigger] after[i]).price,
    ) by {
        let k = if i < position { i } else { i - 1 };
        assert(i == position || after[i] == orders[k]);
    }
}

/// A valid book stays valid: the sides stay sorted, no empty order rests, and no bid ever
/// meets an ask.
pub proof fn submit_keeps_valid(book: BookView, taker: Order)
    requires
        book.valid(),
    ensures
        book.after(taker).valid(),
{
    let side = taker.side;
    let other = opposite(side);
    let makers = book.resting(other);
    let own = book.resting(side);
    let swept = book.sweep(taker);
    let after = book.after(taker);
    assert(book.side_valid(other) && book.side_valid(side));
    assert(apart(other, makers, own));
    lemma_swept_makers(other, makers, own, taker);
    assert(after.resting(other) == swept.makers);
    if swept.left > 0 {
        let rested = Order { qty: swept.left, ..taker };
        sweep_is_exhaustive(other, makers, taker);
        lemma_rested(side, own, rested, swept.makers);
        assert(after.resting(side) == enqueue(side, own, rested));
    } else {
        assert(after.resting(side) == own);
    }
    assert(after.side_valid(other) && after.side_valid(side));
    assert(apart(other, after.resting(other), after.resting(side)));
}

/// Quantity is conserved by a submission: a fill takes its quantity from two orders.
pub proof fn submit_conserves(book: BookView, taker: Order)
    requires
        book.valid(),
    ensures
        book.resting_qty() + taker.qty == book.after(taker).resting_qty() + 2 * filled_qty(
            book.fills(taker),
        ),
{
    let other = opposite(taker.side);
    sweep_conserves(other, book.resting(other), taker);
    if book.sweep(taker).left > 0 {
        assert(book.side_valid(taker.side));
        enqueue_keeps_priority(
            taker.side,
            book.resting(taker.side),
            Order { qty: book.sweep(taker).left, ..taker },
        );
    }
}

/// Every fill is at the price of its maker and within the taker's limit.
pub proof fn fills_respect_limits(book: BookView, taker: Order)
    requires
        book.valid(),
    ensures
        forall|i: int|
            0 <= i < book.fills(taker).len() ==> {
                let fill = #[trigger] book.fills(taker)[i];
                &&& fill.price == book.resting(opposite(taker.side))[i].price
                &&& match taker.side {
                    Side::Buy => fill.price <= taker.price,
                    Side::Sell => fill.price >= taker.price,
                }
            },
{
    let other = opposite(taker.side);
    assert(book.side_valid(other));
    sweep_keeps_priority(other, book.resting(other), taker);
}

/// Time priority: an order that comes later with the same or a worse price rests behind the
/// orders that were there, which keep their place.
pub proof fn later_order_rests_behind(book: BookView, later: Order, i: int)
    requires
        book.valid(),
        0 <= i < book.resting(later.side).len(),
        !better(later.side, later.price, book.resting(later.side)[i].price),
    ensures
        book.after(later).resting(later.side)[i] == book.resting(later.side)[i],
        book.sweep(later).left > 0 ==> {
            let position = queue_position(later.side, book.resting(later.side), later.price);
            &&& i < position < book.after(later).resting(later.side).len()
            &&& book.after(later).resting(later.side)[position as int] == (Order {
                qty: book.sweep(later).left,
                ..later
            })
        },
{
    assert(book.side_valid(later.side));
    enqueue_keeps_priority(
        later.side,
        book.resting(later.side),
        Order { qty: book.sweep(later).left, ..later },
    );
}

/// An order trades nothing and rests whole when no order on the other side meets its limit.
pub proof fn no_fill_across_a_spread(book: BookView, taker: Order)
    requires
        book.valid(),
        taker.qty > 0,
        forall|k: int|
            0 <= k < book.resting(opposite(taker.side)).len() ==> !acceptable(
                opposite(taker.side),
                (#[trigger] book.resting(opposite(taker.side))[k]).price,
                taker.price,
            ),
    ensures
        book.fills(taker) == Seq::<Fill>::empty(),
        book.after(taker) == book.with_resting(
            taker.side,
            enqueue(taker.side, book.resting(taker.side), taker),
        ),
{
}

/// An order with nothing to trade changes nothing.
pub proof fn empty_order_is_ignored(book: BookView, taker: Order)
    requires
        taker.qty == 0,
    ensures
        book.fills(taker) == Seq::<Fill>::empty(),
        book.after(taker) == book,
{
}

/// A book that starts out empty is valid after any submissions: it is never crossed.
pub proof fn every_book_is_valid(orders: Seq<Order>)
    ensures
        BookView::empty().after_all(orders).valid(),
    decreases orders.len(),
{
    if orders.len() > 0 {
        every_book_is_valid(orders.drop_last());
        submit_keeps_valid(BookView::empty().after_all(orders.drop_last()), orders.last());
    }
}

pub(crate) proof fn lemma_filled_qty_add(a: Seq<Fill>, b: Seq<Fill>)
    ensures
        filled_qty(a + b) == filled_qty(a) + filled_qty(b),
    decreases a.len(),
{
    if a.len() == 0 {
        assert(a + b =~= b);
    } else {
        lemma_filled_qty_add(a.drop_first(), b);
        assert((a + b).drop_first() =~= a.drop_first() + b);
    }
}

/// Over any submissions to an empty book, what was submitted is what rests plus twice what
/// was filled.
pub proof fn quantity_is_conserved(orders: Seq<Order>)
    ensures
        total_qty(orders) == BookView::empty().after_all(orders).resting_qty() + 2 * filled_qty(
            BookView::empty().fills_all(orders),
        ),
    decreases orders.len(),
{
    let empty = BookView::empty();
    if orders.len() > 0 {
        let earlier = orders.drop_last();
        quantity_is_conserved(earlier);
        every_book_is_valid(earlier);
        submit_conserves(empty.after_all(earlier), orders.last());
        lemma_filled_qty_add(
            empty.fills_all(earlier),
            empty.after_all(earlier).fills(orders.last()),
        );
        assert(orders =~= earlier + seq![orders.last()]);
        lemma_total_qty_add(earlier, seq![orders.last()]);
        reveal_with_fuel(total_qty, 2);
    }
}

/// The orders at any price other than `price`.
spec fn elsewhere(orders: Seq<Order>, price: u64) -> Seq<Order>
    decreases orders.len(),
{
    if orders.len() == 0 {
        orders
    } else if orders[0].price == price {
        elsewhere(orders.drop_first(), price)
    } else {
        seq![orders[0]] + elsewhere(orders.drop_first(), price)
    }
}

proof fn lemma_elsewhere(orders: Seq<Order>, price: u64)
    ensures
        total_qty(orders) == total_qty(elsewhere(orders, price)) + qty_at(orders, price),
    decreases orders.len(),
{
    if orders.len() > 0 {
        lemma_elsewhere(orders.drop_first(), price);
        if orders[0].price != price {
            assert(elsewhere(orders, price).drop_first() =~= elsewhere(
                orders.drop_first(),
                price,
            ));
        }
    }
}

proof fn lemma_elsewhere_at(orders: Seq<Order>, price: u64, p: u64)
    ensures
        p != price ==> qty_at(elsewhere(orders, price), p) == qty_at(orders, p),
        rests_at(elsewhere(orders, price), p) <==> p != price && rests_at(orders, p),
    decreases orders.len(),
{
    if orders.len() > 0 {
        let rest = orders.drop_first();
        let out = elsewhere(orders, price);
        lemma_elsewhere_at(rest, price, p);
        lemma_rests_at_step(orders, p);
        if orders[0].price != price {
            assert(out.drop_first() =~= elsewhere(rest, price));
            lemma_rests_at_step(out, p);
        }
    }
}

proof fn lemma_rests_at_step(orders: Seq<Order>, p: u64)
    requires
        orders.len() > 0,
    ensures
        rests_at(orders, p) <==> orders[0].price == p || rests_at(orders.drop_first(), p),
{
    let rest = orders.drop_first();
    if rests_at(orders, p) {
        let k = choose|k: int| 0 <= k < orders.len() && (#[trigger] orders[k]).price == p;
        if k > 0 {
            assert(rest[k - 1].price == p);
        }
    }
    if rests_at(rest, p) {
        let k = choose|k: int| 0 <= k < rest.len() && (#[trigger] rest[k]).price == p;
        assert(orders[k + 1].price == p);
    }
}

/// The levels of a snapshot add up to what rests.
pub proof fn snapshot_adds_up(side: Side, orders: Seq<Order>, levels: Seq<PriceLevel>)
    requires
        aggregates(side, orders, levels),
    ensures
        level_qty(levels) == total_qty(orders),
    decreases levels.len(),
{
    if levels.len() == 0 {
        if orders.len() > 0 {
            assert(rests_at(orders, orders[0].price));
            assert(lists_price(levels, orders[0].price));
        }
    } else {
        let price = levels.last().price;
        let fewer = levels.drop_last();
        let rest = elsewhere(orders, price);
        lemma_elsewhere(orders, price);
        assert(levels[levels.len() - 1].price == price);
        assert forall|i: int| 0 <= i < fewer.len() implies (#[trigger] fewer[i]).price != price
            && fewer[i].qty == qty_at(rest, fewer[i].price) by {
            assert(better(side, levels[i].price, levels[levels.len() - 1].price));
            lemma_elsewhere_at(orders, price, levels[i].price);
        }
        assert forall|p: u64|
            #![trigger rests_at(rest, p)]
            #![trigger lists_price(fewer, p)]
            rests_at(rest, p) <==> lists_price(fewer, p) by {
            lemma_elsewhere_at(orders, price, p);
            assert(rests_at(orders, p) <==> lists_price(levels, p));
            if lists_price(levels, p) && p != price {
                let i = choose|i: int| 0 <= i < levels.len() && (#[trigger] levels[i]).price == p;
                assert(fewer[i].price == p);
            }
            if lists_price(fewer, p) {
                let i = choose|i: int| 0 <= i < fewer.len() && (#[trigger] fewer[i]).price == p;
                assert(levels[i].price == p);
            }
        }
        snapshot_adds_up(side, rest, fewer);
    }
}

/// A snapshot says all there is to say about the levels: two snapshots of one side are equal.
pub proof fn snapshot_is_unique(
    side: Side,
    orders: Seq<Order>,
    a: Seq<PriceLevel>,
    b: Seq<PriceLevel>,
)
    requires
        aggregates(side, orders, a),
        aggregates(side, orders, b),
    ensures
        a == b,
{
    lemma_no_longer(side, orders, a, b);
    lemma_no_longer(side, orders, b, a);
    assert forall|i: int| 0 <= i < a.len() implies #[trigger] a[i] == b[i] by {
        lemma_no_better(side, orders, a, b, i);
        lemma_no_better(side, orders, b, a, i);
        assert(a[i].price == b[i].price);
    }
    assert(a =~= b);
}

/// The price of a level of one snapshot occurs in every other.
proof fn lemma_level_in(
    side: Side,
    orders: Seq<Order>,
    a: Seq<PriceLevel>,
    b: Seq<PriceLevel>,
    i: int,
) -> (k: int)
    requires
        aggregates(side, orders, a),
        aggregates(side, orders, b),
        0 <= i < a.len(),
    ensures
        0 <= k < b.len(),
        b[k].price == a[i].price,
{
    let price = a[i].price;
    assert(lists_price(a, price));
    assert(rests_at(orders, price));
    assert(lists_price(b, price));
    choose|k: int| 0 <= k < b.len() && (#[trigger] b[k]).price == price
}

/// A level of one snapshot stands no further back than the same level of another.
proof fn lemma_rank(
    side: Side,
    orders: Seq<Order>,
    a: Seq<PriceLevel>,
    b: Seq<PriceLevel>,
    i: int,
) -> (k: int)
    requires
        aggregates(side, orders, a),
        aggregates(side, orders, b),
        0 <= i < a.len(),
    ensures
        i <= k < b.len(),
        b[k].price == a[i].price,
    decreases i,
{
    let k = lemma_level_in(side, orders, a, b, i);
    if i > 0 {
        let earlier = lemma_rank(side, orders, a, b, i - 1);
        assert(better(side, a[i - 1].price, a[i].price));
        if k < earlier {
            assert(better(side, b[k].price, b[earlier].price));
        }
    }
    k
}

proof fn lemma_no_longer(side: Side, orders: Seq<Order>, a: Seq<PriceLevel>, b: Seq<PriceLevel>)
    requires
        aggregates(side, orders, a),
        aggregates(side, orders, b),
    ensures
        a.len() <= b.len(),
{
    if a.len() > 0 {
        let k = lemma_rank(side, orders, a, b, a.len() - 1);
    }
}

proof fn lemma_no_better(
    side: Side,
    orders: Seq<Order>,
    a: Seq<PriceLevel>,
    b: Seq<PriceLevel>,
    i: int,
)
    requires
        aggregates(side, orders, a),
        aggregates(side, orders, b),
        0 <= i < a.len(),
        i < b.len(),
    ensures
        !better(side, a[i].price, b[i].price),
{
    let k = lemma_rank(side, orders, a, b, i);
    if i < k {
        assert(better(side, b[i].price, b[k].price));
    }
}

/// The snapshot of a valid book is not crossed: its best bid is below its best ask.
pub proof fn snapshot_is_uncrossed(book: BookView, snapshot: OrderBookSnapshot)
    requires
        book.valid(),
        book.aggregated_by(snapshot),
        snapshot.bids@.len() > 0,
        snapshot.asks@.len() > 0,
    ensures
        snapshot.bids@[0].price < snapshot.asks@[0].price,
{
    let bid = snapshot.bids@[0].price;
    let ask = snapshot.asks@[0].price;
    assert(lists_price(snapshot.bids@, bid) && lists_price(snapshot.asks@, ask));
    assert(rests_at(book.bids, bid) && rests_at(book.asks, ask));
    let i = choose|i: int| 0 <= i < book.bids.len() && (#[trigger] book.bids[i]).price == bid;
    let j = choose|j: int| 0 <= j < book.asks.len() && (#[trigger] book.asks[j]).price == ask;
    assert(book.bids[i].price < book.asks[j].price);
}

proof fn lemma_swept_ids(side: Side, makers: Seq<Order>, taker: Order, ids: Set<u64>)
    requires
        ids_within(makers, ids),
    ensures
        ids_within(sweep(side, makers, taker).makers, ids),
        forall|i: int|
            0 <= i < sweep(side, makers, taker).fills.len() ==> ids.contains(
                (#[trigger] sweep(side, makers, taker).fills[i]).maker_order_id,
            ) && sweep(side, makers, taker).fills[i].taker_order_id == taker.id,
    decreases makers.len(),
{
    if taker.qty == 0 || makers.len() == 0 || !acceptable(side, makers[0].price, taker.price) {
    } else if makers[0].qty <= taker.qty {
        let rest = makers.drop_first();
        let smaller = Order { qty: (taker.qty - makers[0].qty) as u64, ..taker };
        assert(forall|i: int| 0 <= i < rest.len() ==> #[trigger] rest[i] == makers[i + 1]);
        lemma_swept_ids(side, rest, smaller, ids);
        let next = sweep(side, rest, smaller);
        let fills = sweep(side, makers, taker).fills;
        assert forall|i: int| 0 <= i < fills.len() implies ids.contains(
            (#[trigger] fills[i]).maker_order_id,
        ) && fills[i].taker_order_id == taker.id by {
            if i > 0 {
                assert(fills[i] == next.fills[i - 1]);
            }
        }
    } else {
        let left = consume_front(makers, taker.qty);
        assert(forall|i: int| 0 <= i < left.len() ==> (#[trigger] left[i]).id == makers[i].id);
    }
}

proof fn lemma_enqueued_ids(side: Side, orders: Seq<Order>, order: Order, ids: Set<u64>)
    requires
        ids_within(orders, ids),
    ensures
        ids_within(enqueue(side, orders, order), ids.insert(order.id)),
    decreases orders.len(),
{
    let after = enqueue(side, orders, order);
    if orders.len() == 0 || better(side, order.price, orders[0].price) {
        assert(forall|i: int| 1 <= i < after.len() ==> #[trigger] after[i] == orders[i - 1]);
    } else {
        let rest = orders.drop_first();
        assert(forall|i: int| 0 <= i < rest.len() ==> #[trigger] rest[i] == orders[i + 1]);
        lemma_enqueued_ids(side, rest, order, ids);
        assert(forall|i: int|
            1 <= i < after.len() ==> #[trigger] after[i] == enqueue(side, rest, order)[i - 1]);
    }
}

/// A fill names a maker that was resting and the taker itself; afterwards only ids that were
/// resting before, and the taker's, are resting.
pub proof fn submit_tracks_ids(book: BookView, taker: Order, ids: Set<u64>)
    requires
        book.ids_within(ids),
    ensures
        book.after(taker).ids_within(ids.insert(taker.id)),
        forall|i: int|
            0 <= i < book.fills(taker).len() ==> ids.contains(
                (#[trigger] book.fills(taker)[i]).maker_order_id,
            ) && book.fills(taker)[i].taker_order_id == taker.id,
{
    let other = opposite(taker.side);
    lemma_swept_ids(other, book.resting(other), taker, ids);
    lemma_enqueued_ids(
        taker.side,
        book.resting(taker.side),
        Order { qty: book.sweep(taker).left, ..taker },
        ids,
    );
}

/// An order never trades with itself when its id is new to the book.
pub proof fn no_self_match(book: BookView, taker: Order, ids: Set<u64>)
    requires
        book.ids_within(ids),
        !ids.contains(taker.id),
    ensures
        forall|i: int|
            0 <= i < book.fills(taker).len() ==> (#[trigger] book.fills(taker)[i]).maker_order_id
                != book.fills(taker)[i].taker_order_id,
{
    submit_tracks_ids(book, taker, ids);
}

/// Placing a request gives it an id that no resting order has, and keeps it that way.
pub proof fn placing_keeps_ids(book: BookView, req: SubmitOrderReq)
    requires
        book.ids_issued(),
        book.next_id < u64::MAX,
    ensures
        book.placed(req).ids_issued(),
        forall|i: int|
            0 <= i < book.fills(book.order_for(req)).len() ==> (#[trigger] book.fills(
                book.order_for(req),
            )[i]).maker_order_id < book.next_id,
{
    submit_tracks_ids(book, book.order_for(req), ids_below(book.next_id));
    assert(ids_below(book.next_id).insert(book.next_id) =~= ids_below((book.next_id + 1) as u64));
}

/// The makers that a sweep leaves are those it did not reach, behind what is left of the last
/// one that it traded with.
proof fn lemma_sweep_shape(side: Side, makers: Seq<Order>, taker: Order)
    requires
        open_on(side, makers),
    ensures
        ({
            let swept = sweep(side, makers, taker);
            let fills = swept.fills;
            let n = fills.len() as int;
            &&& n <= makers.len()
            &&& forall|i: int|
                0 <= i < n ==> {
                    &&& #[trigger] fills[i] == fill_of(makers[i], taker, fills[i].qty)
                    &&& acceptable(side, makers[i].price, taker.price)
                    &&& 0 < fills[i].qty <= makers[i].qty
                    &&& i + 1 < n ==> fills[i].qty == makers[i].qty
                }
            &&& swept.left > 0 && n > 0 ==> fills[n - 1].qty == makers[n - 1].qty
            &&& swept.left > 0 && n < makers.len() ==> !acceptable(
                side,
                makers[n].price,
                taker.price,
            )
            &&& swept.makers == (if n > 0 && fills[n - 1].qty < makers[n - 1].qty {
                seq![
                    Order {
                        qty: (makers[n - 1].qty - fills[n - 1].qty) as u64,
                        ..makers[n - 1]
                    },
                ] + makers.skip(n)
            } else {
                makers.skip(n)
            })
        }),
    decreases makers.len(),
{
    let swept = sweep(side, makers, taker);
    let fills = swept.fills;
    let n = fills.len() as int;
    if taker.qty == 0 || makers.len() == 0 || !acceptable(side, makers[0].price, taker.price) {
        assert(makers.skip(0) =~= makers);
    } else if makers[0].qty <= taker.qty {
        let rest = makers.drop_first();
        let smaller = Order { qty: (taker.qty - makers[0].qty) as u64, ..taker };
        assert(forall|i: int| 0 <= i < rest.len() ==> #[trigger] rest[i] == makers[i + 1]);
        lemma_sweep_shape(side, rest, smaller);
        let next = sweep(side, rest, smaller);
        assert(fills == seq![fill_of(makers[0], taker, makers[0].qty)] + next.fills);
        assert(n == next.fills.len() + 1);
        assert(rest.skip(n - 1) =~= makers.skip(n));
        if n > 1 {
            assert(fills[n - 1] == next.fills[n - 2]);
            assert(makers[n - 1] == rest[n - 2]);
        }
        if n < makers.len() {
            assert(makers[n] == rest[n - 1]);
        }
        assert forall|i: int| 0 <= i < n implies {
            &&& #[trigger] fills[i] == fill_of(makers[i], taker, fills[i].qty)
            &&& acceptable(side, makers[i].price, taker.price)
            &&& 0 < fills[i].qty <= makers[i].qty
            &&& i + 1 < n ==> fills[i].qty == makers[i].qty
        } by {
            if i > 0 {
                assert(fills[i] == next.fills[i - 1]);
                assert(makers[i] == rest[i - 1]);
            }
        }
    } else {
        assert(swept.makers =~= seq![
            Order { qty: (makers[0].qty - taker.qty) as u64, ..makers[0] },
        ] + makers.skip(1));
    }
}

/// What a buy order does, on the orders themselves. It trades with the first asks, in their
/// order and at their prices, as long as these are no higher than its limit and it has
/// something left; only the last of them may be left with a part, which keeps its place. The
/// other asks stay as they are. What is left of it joins the bids as one order with its own
/// id and limit, behind the bids at its price or higher and ahead of the lower ones.
pub proof fn buy_order_trades_then_rests(book: BookView, taker: Order)
    requires
        book.valid(),
        taker.side is Buy,
    ensures
        ({
            let fills = book.fills(taker);
            let after = book.after(taker);
            let n = fills.len() as int;
            let filled = filled_qty(fills);
            &&& n <= book.asks.len()
            &&& forall|i: int|
                0 <= i < n ==> {
                    &&& (#[trigger] fills[i]).maker_order_id == book.asks[i].id
                    &&& fills[i].taker_order_id == taker.id
                    &&& fills[i].price == book.asks[i].price
                    &&& fills[i].price <= taker.price
                    &&& 0 < fills[i].qty <= book.asks[i].qty
                    &&& i + 1 < n ==> fills[i].qty == book.asks[i].qty
                }
            &&& filled <= taker.qty
            &&& filled < taker.qty && n > 0 ==> fills[n - 1].qty == book.asks[n - 1].qty
            &&& filled < taker.qty && n < book.asks.len() ==> book.asks[n].price > taker.price
            &&& after.asks == (if n > 0 && fills[n - 1].qty < book.asks[n - 1].qty {
                seq![
                    Order {
                        id: book.asks[n - 1].id,
                        side: book.asks[n - 1].side,
                        price: book.asks[n - 1].price,
                        qty: (book.asks[n - 1].qty - fills[n - 1].qty) as u64,
                    },
                ] + book.asks.skip(n)
            } else {
                book.asks.skip(n)
            })
            &&& after.next_id == book.next_id
            &&& filled == taker.qty ==> after.bids == book.bids
            &&& filled < taker.qty ==> exists|place: int|
                {
                    &&& 0 <= place <= book.bids.len()
                    &&& after.bids == #[trigger] book.bids.insert(
                        place,
                        Order {
                            id: taker.id,
                            side: Side::Buy,
                            price: taker.price,
                            qty: (taker.qty - filled) as u64,
                        },
                    )
                    &&& forall|i: int|
                        0 <= i < place ==> (#[trigger] book.bids[i]).price >= taker.price
                    &&& forall|i: int|
                        place <= i < book.bids.len() ==> (#[trigger] book.bids[i]).price
                            < taker.price
                }
        }),
{
    let swept = book.sweep(taker);
    assert(book.side_valid(Side::Buy) && book.side_valid(Side::Sell));
    assert(open_on(opposite(taker.side), book.asks));
    lemma_sweep_shape(opposite(taker.side), book.asks, taker);
    sweep_conserves(opposite(taker.side), book.asks, taker);
    let rested = Order { qty: swept.left, ..taker };
    enqueue_keeps_priority(taker.side, book.bids, rested);
    let place = queue_position(taker.side, book.bids, taker.price) as int;
    if swept.left > 0 {
        assert(book.after(taker).bids == book.bids.insert(place, rested));
    }
}

/// What a sell order does, on the orders themselves. It trades with the first bids, in their
/// order and at their prices, as long as these are no lower than its limit and it has
/// something left; only the last of them may be left with a part, which keeps its place. The
/// other bids stay as they are. What is left of it joins the asks as one order with its own
/// id and limit, behind the asks at its price or lower and ahead of the higher ones.
pub proof fn sell_order_trades_then_rests(book: BookView, taker: Order)
    requires
        book.valid(),
        taker.side is Sell,
    ensures
        ({
            let fills = book.fills(taker);
            let after = book.after(taker);
            let n = fills.len() as int;
            let filled = filled_qty(fills);
            &&& n <= book.bids.len()
            &&& forall|i: int|
                0 <= i < n ==> {
                    &&& (#[trigger] fills[i]).maker_order_id == book.bids[i].id
                    &&& fills[i].taker_order_id == taker.id
                    &&& fills[i].price == book.bids[i].price
                    &&& fills[i].price >= taker.price
                    &&& 0 < fills[i].qty <= book.bids[i].qty
                    &&& i + 1 < n ==> fills[i].qty == book.bids[i].qty
                }
            &&& filled <= taker.qty
            &&& filled < taker.qty && n > 0 ==> fills[n - 1].qty == book.bids[n - 1].qty
            &&& filled < taker.qty && n < book.bids.len() ==> book.bids[n].price < taker.price
            &&& after.bids == (if n > 0 && fills[n - 1].qty < book.bids[n - 1].qty {
                seq![
                    Order {
                        id: book.bids[n - 1].id,
                        side: book.bids[n - 1].side,
                        price: book.bids[n - 1].price,
                        qty: (book.bids[n - 1].qty - fills[n - 1].qty) as u64,
                    },
                ] + book.bids.skip(n)
            } else {
                book.bids.skip(n)
            })
            &&& after.next_id == book.next_id
            &&& filled == taker.qty ==> after.asks == book.asks
            &&& filled < taker.qty ==> exists|place: int|
                {
                    &&& 0 <= place <= book.asks.len()
                    &&& after.asks == #[trigger] book.asks.insert(
                        place,
                        Order {
                            id: taker.id,
                            side: Side::Sell,
                            price: taker.price,
                            qty: (taker.qty - filled) as u64,
                        },
                    )
                    &&& forall|i: int|
                        0 <= i < place ==> (#[trigger] book.asks[i]).price <= taker.price
                    &&& forall|i: int|
                        place <= i < book.asks.len() ==> (#[trigger] book.asks[i]).price
                            > taker.price
                }
        }),
{
    let swept = book.sweep(taker);
    assert(book.side_valid(Side::Buy) && book.side_valid(Side::Sell));
    assert(open_on(opposite(taker.side), book.bids));
    lemma_sweep_shape(opposite(taker.side), book.bids, taker);
    sweep_conserves(opposite(taker.side), book.bids, taker);
    let rested = Order { qty: swept.left, ..taker };
    enqueue_keeps_priority(taker.side, book.asks, rested);
    let place = queue_position(taker.side, book.asks, taker.price) as int;
    if swept.left > 0 {
        assert(book.after(taker).asks == book.asks.insert(place, rested));
    }
}

/// A request becomes an order with the next id and exactly the side, price and quantity that
/// it asks for, whatever the book holds; placing it submits that order and uses up the id.
pub proof fn request_is_placed_as_asked(book: BookView, req: SubmitOrderReq)
    ensures
        book.order_for(req).id == book.next_id,
        book.order_for(req).side == req.side,
        book.order_for(req).price == req.price,
        book.order_for(req).qty == req.qty,
        ({
            let order = Order {
                id: book.next_id,
                side: req.side,
                price: req.price,
                qty: req.qty,
            };
            &&& book.placed(req).bids == book.after(order).bids
            &&& book.placed(req).asks == book.after(order).asks
        }),
        book.next_id < u64::MAX ==> book.placed(req).next_id == book.next_id + 1,
{
}

/// Submitting or placing more is submitting or placing what came before and then the rest:
/// one order at a time, the last one last.
pub proof fn orders_come_one_at_a_time(
    book: BookView,
    orders: Seq<Order>,
    order: Order,
    reqs: Seq<SubmitOrderReq>,
    req: SubmitOrderReq,
)
    ensures
        book.after_all(Seq::empty()) == book,
        book.fills_all(Seq::empty()) == Seq::<Fill>::empty(),
        book.placed_all(Seq::empty()) == book,
        book.after_all(orders.push(order)) == book.after_all(orders).after(order),
        book.fills_all(orders.push(order)) == book.fills_all(orders) + book.after_all(orders).fills(
            order,
        ),
        book.placed_all(reqs.push(req)) == book.placed_all(reqs).placed(req),
{
    assert(orders.push(order).drop_last() =~= orders);
    assert(reqs.push(req).drop_last() =~= reqs);
}

/// The book starts out with nothing on either side, and its first id is one.
pub proof fn book_starts_empty()
    ensures
        BookView::empty().bids.len() == 0,
        BookView::empty().asks.len() == 0,
        BookView::empty().next_id == 1,
{
}

/// After any submissions to an empty book, the bids stand from the highest price to the
/// lowest, the asks from the lowest to the highest, every order stands on its own side with
/// something left to trade, and every bid is below every ask.
pub proof fn every_book_is_sorted_and_uncrossed(orders: Seq<Order>)
    ensures
        ({
            let book = BookView::empty().after_all(orders);
            &&& forall|i: int, j: int|
                0 <= i < j < book.bids.len() ==> (#[trigger] book.bids[i]).price >= (
                #[trigger] book.bids[j]).price
            &&& forall|i: int, j: int|
                0 <= i < j < book.asks.len() ==> (#[trigger] book.asks[i]).price <= (
                #[trigger] book.asks[j]).price
            &&& forall|i: int|
                0 <= i < book.bids.len() ==> (#[trigger] book.bids[i]).side is Buy
                    && book.bids[i].qty > 0
            &&& forall|i: int|
                0 <= i < book.asks.len() ==> (#[trigger] book.asks[i]).side is Sell
                    && book.asks[i].qty > 0
            &&& forall|i: int, j: int|
                0 <= i < book.bids.len() && 0 <= j < book.asks.len() ==> (
                #[trigger] book.bids[i]).price < (#[trigger] book.asks[j]).price
        }),
{
    every_book_is_valid(orders);
    let book = BookView::empty().after_all(orders);
    assert(book.side_valid(Side::Buy) && book.side_valid(Side::Sell));
    assert(best_first(Side::Buy, book.bids) && open_on(Side::Buy, book.bids));
    assert(best_first(Side::Sell, book.asks) && open_on(Side::Sell, book.asks));
}

/// A total counts every order, fill or level once and with its own quantity: nothing totals
/// zero, and one more adds what it holds.
pub proof fn totals_count_each_once(
    orders: Seq<Order>,
    order: Order,
    price: u64,
    fills: Seq<Fill>,
    fill: Fill,
    levels: Seq<PriceLevel>,
    level: PriceLevel,
)
    ensures
        total_qty(Seq::empty()) == 0,
        qty_at(Seq::empty(), price) == 0,
        filled_qty(Seq::empty()) == 0,
        level_qty(Seq::empty()) == 0,
        total_qty(orders.push(order)) == total_qty(orders) + order.qty,
        qty_at(orders.push(order), price) == qty_at(orders, price) + (if order.price == price {
            order.qty as int
        } else {
            0
        }),
        filled_qty(fills.push(fill)) == filled_qty(fills) + fill.qty,
        level_qty(levels.push(level)) == level_qty(levels) + level.qty,
{
    assert(orders.push(order) =~= orders + seq![order]);
    assert(fills.push(fill) =~= fills + seq![fill]);
    assert(levels.push(level).drop_last() =~= levels);
    lemma_total_qty_add(orders, seq![order]);
    lemma_qty_at_add(orders, seq![order], price);
    lemma_filled_qty_add(fills, seq![fill]);
    assert(seq![order].drop_first() =~= Seq::empty());
    assert(seq![fill].drop_first() =~= Seq::empty());
    assert(total_qty(Seq::empty()) == 0);
    assert(qty_at(Seq::empty(), price) == 0);
    assert(filled_qty(Seq::empty()) == 0);
}

/// What a snapshot shows, on its prices and quantities: bid prices fall and ask prices rise
/// from level to level; there is a level at a price exactly when an order rests there; and a
/// level holds the total of the orders at its price.
pub proof fn snapshot_shows_the_book(book: BookView, snapshot: OrderBookSnapshot, price: u64)
    requires
        book.aggregated_by(snapshot),
    ensures
        forall|i: int, j: int|
            0 <= i < j < snapshot.bids@.len() ==> (#[trigger] snapshot.bids@[i]).price > (
            #[trigger] snapshot.bids@[j]).price,
        forall|i: int, j: int|
            0 <= i < j < snapshot.asks@.len() ==> (#[trigger] snapshot.asks@[i]).price < (
            #[trigger] snapshot.asks@[j]).price,
        (exists|k: int| 0 <= k < book.bids.len() && (#[trigger] book.bids[k]).price == price)
            <==> (exists|i: int|
            0 <= i < snapshot.bids@.len() && (#[trigger] snapshot.bids@[i]).price == price),
        (exists|k: int| 0 <= k < book.asks.len() && (#[trigger] book.asks[k]).price == price)
            <==> (exists|i: int|
            0 <= i < snapshot.asks@.len() && (#[trigger] snapshot.asks@[i]).price == price),
        forall|i: int|
            0 <= i < snapshot.bids@.len() ==> (#[trigger] snapshot.bids@[i]).qty == qty_at(
                book.bids,
                snapshot.bids@[i].price,
            ),
        forall|i: int|
            0 <= i < snapshot.asks@.len() ==> (#[trigger] snapshot.asks@[i]).qty == qty_at(
                book.asks,
                snapshot.asks@[i].price,
            ),
{
    assert(rests_at(book.bids, price) <==> lists_price(snapshot.bids@, price));
    assert(rests_at(book.asks, price) <==> lists_price(snapshot.asks@, price));
}

/// The totals of a book fit exactly when no price, on either side, has more resting at it
/// than a `u64` holds.
pub proof fn totals_fit_at_every_price(book: BookView)
    ensures
        book.totals_fit() <==> forall|price: u64|
            #![trigger qty_at(book.bids, price)]
            #![trigger qty_at(book.asks, price)]
            qty_at(book.bids, price) <= u64::MAX && qty_at(book.asks, price) <= u64::MAX,
{
    if book.totals_fit() {
        assert(forall|price: u64|
            #![trigger qty_at(book.bids, price)]
            qty_at(book.bids, price) <= u64::MAX);
        assert(forall|price: u64|
            #![trigger qty_at(book.asks, price)]
            qty_at(book.asks, price) <= u64::MAX);
    }
}

/// The first fill of a sweep takes what the taker and the first maker both have.
proof fn lemma_first_fill(side: Side, makers: Seq<Order>, taker: Order)
    ensures
        sweep(side, makers, taker).fills.len() > 0 ==> sweep(side, makers, taker).fills[0].qty == (
        if taker.qty < makers[0].qty {
            taker.qty
        } else {
            makers[0].qty
        }),
{
}

/// Two buy orders in a row: a maker that the first one filled in part is the one that the
/// second one trades with first, at the same price.
pub proof fn next_buy_order_meets_the_partly_filled_maker(
    book: BookView,
    first: Order,
    second: Order,
)
    requires
        book.valid(),
        first.side is Buy,
        second.side is Buy,
        second.qty > 0,
        book.fills(first).len() > 0,
        book.fills(first).last().qty < book.asks[book.fills(first).len() - 1].qty,
        book.fills(first).last().price <= second.price,
    ensures
        ({
            let last = book.fills(first).last();
            let next = book.after(first).fills(second);
            &&& next.len() > 0
            &&& next[0].maker_order_id == last.maker_order_id
            &&& next[0].price == last.price
        }),
{
    buy_order_trades_then_rests(book, first);
    submit_keeps_valid(book, first);
    buy_order_trades_then_rests(book.after(first), second);
    let n = book.fills(first).len() as int;
    let fill = book.fills(first)[n - 1];
    assert(fill.price == book.asks[n - 1].price);
    assert(book.after(first).asks[0].price == fill.price);
    assert(book.after(first).asks[0].id == fill.maker_order_id);
    let next = book.after(first).fills(second);
    if next.len() > 0 {
        assert(next[0].maker_order_id == book.after(first).asks[0].id);
    }
}

/// Two sell orders in a row: a maker that the first one filled in part is the one that the
/// second one trades with first, at the same price.
pub proof fn next_sell_order_meets_the_partly_filled_maker(
    book: BookView,
    first: Order,
    second: Order,
)
    requires
        book.valid(),
        first.side is Sell,
        second.side is Sell,
        second.qty > 0,
        book.fills(first).len() > 0,
        book.fills(first).last().qty < book.bids[book.fills(first).len() - 1].qty,
        book.fills(first).last().price >= second.price,
    ensures
        ({
            let last = book.fills(first).last();
            let next = book.after(first).fills(second);
            &&& next.len() > 0
            &&& next[0].maker_order_id == last.maker_order_id
            &&& next[0].price == last.price
        }),
{
    sell_order_trades_then_rests(book, first);
    submit_keeps_valid(book, first);
    sell_order_trades_then_rests(book.after(first), second);
    let n = book.fills(first).len() as int;
    let fill = book.fills(first)[n - 1];
    assert(fill.price == book.bids[n - 1].price);
    assert(book.after(first).bids[0].price == fill.price);
    assert(book.after(first).bids[0].id == fill.maker_order_id);
    let next = book.after(first).fills(second);
    if next.len() > 0 {
        assert(next[0].maker_order_id == book.after(first).bids[0].id);
    }
}

/// A buy order that trades and has something left is the first that the next sell order meets,
/// at its own limit and for what is left of it.
pub proof fn next_sell_order_meets_the_rest_of_a_buy_order(
    book: BookView,
    taker: Order,
    next: Order,
)
    requires
        book.valid(),
        taker.side is Buy,
        next.side is Sell,
        next.qty > 0,
        book.fills(taker).len() > 0,
        filled_qty(book.fills(taker)) < taker.qty,
        next.price <= taker.price,
    ensures
        ({
            let left = taker.qty - filled_qty(book.fills(taker));
            let fills = book.after(taker).fills(next);
            &&& fills.len() > 0
            &&& fills[0].maker_order_id == taker.id
            &&& fills[0].taker_order_id == next.id
            &&& fills[0].price == taker.price
            &&& fills[0].qty == (if next.qty < left {
                next.qty as int
            } else {
                left
            })
        }),
{
    buy_order_trades_then_rests(book, taker);
    submit_keeps_valid(book, taker);
    sell_order_trades_then_rests(book.after(taker), next);
    let after = book.after(taker);
    let fills = after.fills(next);
    assert(book.fills(taker)[0].price == book.asks[0].price);
    assert(forall|i: int|
        0 <= i < book.bids.len() ==> (#[trigger] book.bids[i]).price < book.asks[0].price);
    assert(after.bids[0].id == taker.id && after.bids[0].price == taker.price);
    assert(after.bids[0].qty == taker.qty - filled_qty(book.fills(taker)));
    lemma_first_fill(Side::Buy, after.bids, next);
    assert(fills[0].maker_order_id == after.bids[0].id);
}

/// A sell order that trades and has something left is the first that the next buy order meets,
/// at its own limit and for what is left of it.
pub proof fn next_buy_order_meets_the_rest_of_a_sell_order(
    book: BookView,
    taker: Order,
    next: Order,
)
    requires
        book.valid(),
        taker.side is Sell,
        next.side is Buy,
        next.qty > 0,
        book.fills(taker).len() > 0,
        filled_qty(book.fills(taker)) < taker.qty,
        next.price >= taker.price,
    ensures
        ({
            let left = taker.qty - filled_qty(book.fills(taker));
            let fills = book.after(taker).fills(next);
            &&& fills.len() > 0
            &&& fills[0].maker_order_id == taker.id
            &&& fills[0].taker_order_id == next.id
            &&& fills[0].price == taker.price
            &&& fills[0].qty == (if next.qty < left {
                next.qty as int
            } else {
                left
            })
        }),
{
    sell_order_trades_then_rests(book, taker);
    submit_keeps_valid(book, taker);
    buy_order_trades_then_rests(book.after(taker), next);
    let after = book.after(taker);
    let fills = after.fills(next);
    assert(book.fills(taker)[0].price == book.bids[0].price);
    assert(forall|i: int|
        0 <= i < book.asks.len() ==> book.bids[0].price < (#[trigger] book.asks[i]).price);
    assert(after.asks[0].id == taker.id && after.asks[0].price == taker.price);
    assert(after.asks[0].qty == taker.qty - filled_qty(book.fills(taker)));
    lemma_first_fill(Side::Sell, after.asks, next);
    assert(fills[0].maker_order_id == after.asks[0].id);
}

/// A buy request with a better price than every order on its side, and that meets no order on
/// the other side, becomes the first of its side at its own price.
pub proof fn better_buy_request_comes_first(book: BookView, req: SubmitOrderReq)
    requires
        book.valid(),
        req.side is Buy,
        req.qty > 0,
        forall|i: int|
            0 <= i < book.bids.len() ==> (#[trigger] book.bids[i]).price < req.price,
        forall|i: int|
            0 <= i < book.asks.len() ==> (#[trigger] book.asks[i]).price > req.price,
    ensures
        book.fills(book.order_for(req)).len() == 0,
        book.placed(req).asks == book.asks,
        book.placed(req).bids == seq![
            Order { id: book.next_id, side: Side::Buy, price: req.price, qty: req.qty },
        ] + book.bids,
{
    let order = book.order_for(req);
    request_is_placed_as_asked(book, req);
    buy_order_trades_then_rests(book, order);
    if book.fills(order).len() > 0 {
        assert(book.fills(order)[0].price == book.asks[0].price);
    }
    assert(book.asks.skip(0) =~= book.asks);
    assert(filled_qty(book.fills(order)) == 0);
    let rested = Order { id: book.next_id, side: Side::Buy, price: req.price, qty: req.qty };
    let place = choose|place: int|
        {
            &&& 0 <= place <= book.bids.len()
            &&& book.after(order).bids == #[trigger] book.bids.insert(place, rested)
            &&& forall|i: int|
                0 <= i < place ==> (#[trigger] book.bids[i]).price >= req.price
        };
    if place > 0 {
        assert(book.bids[0].price >= req.price);
    }
    assert(book.bids.insert(0, rested) =~= seq![rested] + book.bids);
}

/// A sell request with a better price than every order on its side, and that meets no order on
/// the other side, becomes the first of its side at its own price.
pub proof fn better_sell_request_comes_first(book: BookView, req: SubmitOrderReq)
    requires
        book.valid(),
        req.side is Sell,
        req.qty > 0,
        forall|i: int|
            0 <= i < book.asks.len() ==> (#[trigger] book.asks[i]).price > req.price,
        forall|i: int|
            0 <= i < book.bids.len() ==> (#[trigger] book.bids[i]).price < req.price,
    ensures
        book.fills(book.order_for(req)).len() == 0,
        book.placed(req).bids == book.bids,
        book.placed(req).asks == seq![
            Order { id: book.next_id, side: Side::Sell, price: req.price, qty: req.qty },
        ] + book.asks,
{
    let order = book.order_for(req);
    request_is_placed_as_asked(book, req);
    sell_order_trades_then_rests(book, order);
    if book.fills(order).len() > 0 {
        assert(book.fills(order)[0].price == book.bids[0].price);
    }
    assert(book.bids.skip(0) =~= book.bids);
    assert(filled_qty(book.fills(order)) == 0);
    let rested = Order { id: book.next_id, side: Side::Sell, price: req.price, qty: req.qty };
    let place = choose|place: int|
        {
            &&& 0 <= place <= book.asks.len()
            &&& book.after(order).asks == #[trigger] book.asks.insert(place, rested)
            &&& forall|i: int|
                0 <= i < place ==> (#[trigger] book.asks[i]).price <= req.price
        };
    if place > 0 {
        assert(book.asks[0].price <= req.price);
    }
    assert(book.asks.insert(0, rested) =~= seq![rested] + book.asks);
}

} // verus!
