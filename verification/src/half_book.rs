//! One side of the book: price levels in a B-tree, each a queue of orders.
use std::collections::{BTreeMap, VecDeque};
use vstd::prelude::*;
use crate::laws::{enqueue_keeps_priority, queue_position};
use crate::matching::{
    acceptable, aggregates, best_first, better, consume_front, enqueue, lemma_qty_at_absent,
    lemma_qty_at_add, lemma_qty_at_same_price, lemma_total_qty_add, lists_price, qty_at, rests_at,
    total_qty, totals_fit,
};
use crate::types::{Order, PriceLevel, Side};

verus! {

/// `price` is the best of the prices in `levels`.
spec fn is_best(levels: Map<u64, VecDeque<Order>>, side: Side, price: u64) -> bool {
    &&& levels.contains_key(price)
    &&& forall|p: u64| #[trigger] levels.contains_key(p) ==> !better(side, p, price)
}

/// The best of the prices in `levels`, where there is one.
spec fn best_of(levels: Map<u64, VecDeque<Order>>, side: Side) -> u64 {
    choose|p: u64| is_best(levels, side, p)
}

/// The orders in `levels`, best level first and each level from front to back.
spec fn in_priority(levels: Map<u64, VecDeque<Order>>, side: Side) -> Seq<Order>
    decreases levels.dom().len(),
{
    let best = best_of(levels, side);
    if levels.dom().finite() && levels.contains_key(best) {
        levels[best]@ + in_priority(levels.remove(best), side)
    } else {
        Seq::empty()
    }
}

/// Every level holds an order, and every order stands at the level of its price.
spec fn filed_by_price(levels: Map<u64, VecDeque<Order>>) -> bool {
    &&& levels.dom().finite()
    &&& forall|p: u64| #[trigger] levels.contains_key(p) ==> levels[p]@.len() > 0
    &&& forall|p: u64, i: int|
        #![trigger levels[p]@[i]]
        levels.contains_key(p) && 0 <= i < levels[p]@.len() ==> levels[p]@[i].price == p
}

proof fn lemma_best_exists(levels: Map<u64, VecDeque<Order>>, side: Side)
    requires
        levels.dom().finite(),
        levels.dom().len() > 0,
    ensures
        is_best(levels, side, best_of(levels, side)),
    decreases levels.dom().len(),
{
    let some = levels.dom().choose();
    assert(levels.contains_key(some));
    let rest = levels.remove(some);
    if rest.dom().len() == 0 {
        assert forall|p: u64| #[trigger] levels.contains_key(p) implies p == some by {
            if p != some {
                assert(rest.dom().contains(p));
            }
        }
        assert(is_best(levels, side, some));
    } else {
        lemma_best_exists(rest, side);
        let best = best_of(rest, side);
        assert(levels.contains_key(best));
        assert forall|p: u64| #[trigger] levels.contains_key(p) && p != some implies
            rest.contains_key(p) by {}
        if better(side, some, best) {
            assert(is_best(levels, side, some));
        } else {
            assert(is_best(levels, side, best));
        }
    }
}

proof fn lemma_best_unique(levels: Map<u64, VecDeque<Order>>, side: Side, price: u64)
    requires
        is_best(levels, side, price),
    ensures
        best_of(levels, side) == price,
{
    let best = best_of(levels, side);
    assert(is_best(levels, side, best));
}

/// The best level comes first, and what follows it is what remains without it.
proof fn lemma_in_priority_step(levels: Map<u64, VecDeque<Order>>, side: Side, best: u64)
    requires
        levels.dom().finite(),
        is_best(levels, side, best),
    ensures
        in_priority(levels, side) == levels[best]@ + in_priority(levels.remove(best), side),
{
    lemma_best_unique(levels, side, best);
}

proof fn lemma_in_priority_empty(levels: Map<u64, VecDeque<Order>>, side: Side)
    requires
        levels.dom().len() == 0,
        levels.dom().finite(),
    ensures
        in_priority(levels, side) == Seq::<Order>::empty(),
{
}

/// Every order of the sequence stands at some level.
proof fn lemma_in_priority_prices(levels: Map<u64, VecDeque<Order>>, side: Side)
    requires
        filed_by_price(levels),
    ensures
        forall|i: int|
            0 <= i < in_priority(levels, side).len() ==> levels.contains_key(
                (#[trigger] in_priority(levels, side)[i]).price,
            ),
    decreases levels.dom().len(),
{
    if levels.dom().len() > 0 {
        lemma_best_exists(levels, side);
        let best = best_of(levels, side);
        let rest = levels.remove(best);
        lemma_in_priority_prices(rest, side);
        let all = in_priority(levels, side);
        assert forall|i: int| 0 <= i < all.len() implies levels.contains_key(
            (#[trigger] all[i]).price,
        ) by {
            if i < levels[best]@.len() {
                assert(all[i] == levels[best]@[i]);
            } else {
                let k = i - levels[best]@.len();
                assert(all[i] == in_priority(rest, side)[k]);
                assert(rest.contains_key(in_priority(rest, side)[k].price));
            }
        }
    }
}

/// The sequence never goes from a price to a better one.
proof fn lemma_in_priority_sorted(levels: Map<u64, VecDeque<Order>>, side: Side)
    requires
        filed_by_price(levels),
    ensures
        best_first(side, in_priority(levels, side)),
    decreases levels.dom().len(),
{
    if levels.dom().len() > 0 {
        lemma_best_exists(levels, side);
        let best = best_of(levels, side);
        let rest = levels.remove(best);
        let front = levels[best]@;
        let back = in_priority(rest, side);
        let all = in_priority(levels, side);
        lemma_in_priority_step(levels, side, best);
        lemma_in_priority_prices(rest, side);
        lemma_in_priority_sorted(rest, side);
        assert forall|i: int, j: int| 0 <= i < j < all.len() implies !better(
            side,
            (#[trigger] all[j]).price,
            (#[trigger] all[i]).price,
        ) by {
            let n = front.len();
            assert(if i < n { all[i] == front[i] } else { all[i] == back[i - n] });
            assert(if j < n { all[j] == front[j] } else { all[j] == back[j - n] });
            if j >= n {
                assert(rest.contains_key(back[j - n].price));
            }
        }
    } else {
        lemma_in_priority_empty(levels, side);
    }
}

proof fn lemma_enqueue_behind(side: Side, ahead: Seq<Order>, behind: Seq<Order>, order: Order)
    requires
        forall|i: int|
            0 <= i < ahead.len() ==> !better(side, order.price, (#[trigger] ahead[i]).price),
    ensures
        enqueue(side, ahead + behind, order) == ahead + enqueue(side, behind, order),
    decreases ahead.len(),
{
    if ahead.len() == 0 {
        assert(ahead + behind =~= behind);
        assert(ahead + enqueue(side, behind, order) =~= enqueue(side, behind, order));
    } else {
        lemma_enqueue_behind(side, ahead.drop_first(), behind, order);
        assert((ahead + behind).drop_first() =~= ahead.drop_first() + behind);
        assert(seq![ahead[0]] + (ahead.drop_first() + enqueue(side, behind, order)) =~= ahead
            + enqueue(side, behind, order));
    }
}

/// Pushing an order to the back of its level queues it by price and time.
proof fn lemma_rest(
    levels: Map<u64, VecDeque<Order>>,
    side: Side,
    order: Order,
    queue: VecDeque<Order>,
)
    requires
        filed_by_price(levels),
        queue@ == (if levels.contains_key(order.price) {
            levels[order.price]@
        } else {
            Seq::empty()
        }).push(order),
    ensures
        filed_by_price(levels.insert(order.price, queue)),
        in_priority(levels.insert(order.price, queue), side) == enqueue(
            side,
            in_priority(levels, side),
            order,
        ),
    decreases levels.dom().len(),
{
    let price = order.price;
    let after = levels.insert(price, queue);
    let all = in_priority(levels, side);
    if levels.dom().len() > 0 {
        lemma_best_exists(levels, side);
    }
    let best = best_of(levels, side);
    if levels.dom().len() == 0 || better(side, price, best) {
        assert(!levels.contains_key(price));
        assert(is_best(after, side, price));
        lemma_in_priority_step(after, side, price);
        assert(after.remove(price) =~= levels);
        assert(queue@ =~= seq![order]);
        if levels.dom().len() > 0 {
            lemma_in_priority_step(levels, side, best);
            assert(all[0] == levels[best]@[0]);
        } else {
            lemma_in_priority_empty(levels, side);
        }
    } else if price == best {
        let rest = levels.remove(best);
        assert(is_best(after, side, price));
        lemma_in_priority_step(levels, side, best);
        lemma_in_priority_step(after, side, best);
        assert(after.remove(best) =~= rest);
        lemma_enqueue_behind(side, levels[best]@, in_priority(rest, side), order);
        lemma_in_priority_prices(rest, side);
        if in_priority(rest, side).len() > 0 {
            assert(rest.contains_key(in_priority(rest, side)[0].price));
        }
        assert(levels[best]@ + (seq![order] + in_priority(rest, side)) =~= queue@ + in_priority(
            rest,
            side,
        ));
    } else {
        let rest = levels.remove(best);
        assert(is_best(after, side, best));
        lemma_in_priority_step(levels, side, best);
        lemma_in_priority_step(after, side, best);
        assert(after.remove(best) =~= rest.insert(price, queue));
        assert(filed_by_price(rest));
        lemma_rest(rest, side, order, queue);
        lemma_enqueue_behind(side, levels[best]@, in_priority(rest, side), order);
    }
}

/// What rests at a price is what its level holds.
proof fn lemma_qty_at_level(levels: Map<u64, VecDeque<Order>>, side: Side, price: u64)
    requires
        filed_by_price(levels),
        levels.contains_key(price),
    ensures
        qty_at(in_priority(levels, side), price) == total_qty(levels[price]@),
        rests_at(in_priority(levels, side), price),
    decreases levels.dom().len(),
{
    lemma_best_exists(levels, side);
    let best = best_of(levels, side);
    let rest = levels.remove(best);
    let all = in_priority(levels, side);
    lemma_in_priority_step(levels, side, best);
    lemma_qty_at_add(levels[best]@, in_priority(rest, side), price);
    if price == best {
        lemma_qty_at_same_price(levels[best]@, price);
        lemma_in_priority_prices(rest, side);
        lemma_qty_at_absent(in_priority(rest, side), price);
        assert(all[0] == levels[best]@[0]);
    } else {
        lemma_qty_at_absent(levels[best]@, price);
        lemma_qty_at_level(rest, side, price);
        let k = choose|k: int|
            0 <= k < in_priority(rest, side).len() && (#[trigger] in_priority(rest, side)[k]).price
                == price;
        assert(all[levels[best]@.len() + k] == in_priority(rest, side)[k]);
    }
}

/// The total quantity of a queue, unless it exceeds what a `u64` holds.
fn queue_total(queue: &VecDeque<Order>) -> (total: Option<u64>)
    ensures
        total == (if total_qty(queue@) <= u64::MAX {
            Some(total_qty(queue@) as u64)
        } else {
            None
        }),
{
    let mut total: u64 = 0;
    assert(queue@.take(0) =~= Seq::empty());
    for i in 0..queue.len()
        invariant
            total == total_qty(queue@.take(i as int)),
    {
        proof {
            let counted = queue@.take(i as int);
            let next = seq![queue@[i as int]];
            let later = queue@.skip(i + 1);
            assert(queue@.take(i + 1) =~= counted + next);
            assert(queue@ =~= (counted + next) + later);
            lemma_total_qty_add(counted, next);
            lemma_total_qty_add(counted + next, later);
            reveal_with_fuel(total_qty, 2);
        }
        total = total.checked_add(queue[i].qty)?;
    }
    assert(queue@.take(queue@.len() as int) =~= queue@);
    Some(total)
}

/// `rows` are levels of the book with their totals, best price first.
spec fn lists(levels: Map<u64, VecDeque<Order>>, side: Side, rows: Seq<PriceLevel>) -> bool {
    &&& forall|i: int, j: int|
        0 <= i < j < rows.len() ==> better(
            side,
            (#[trigger] rows[i]).price,
            (#[trigger] rows[j]).price,
        )
    &&& forall|i: int|
        0 <= i < rows.len() ==> levels.contains_key((#[trigger] rows[i]).price) && rows[i].qty
            == total_qty(levels[rows[i].price]@)
}

/// As many rows as there are levels list every level.
proof fn lemma_lists_all(levels: Map<u64, VecDeque<Order>>, side: Side, rows: Seq<PriceLevel>)
    requires
        levels.dom().finite(),
        lists(levels, side, rows),
        rows.len() == levels.dom().len(),
    ensures
        forall|p: u64| #[trigger] levels.contains_key(p) ==> lists_price(rows, p),
    decreases rows.len(),
{
    if rows.len() > 0 {
        let last = rows.last().price;
        assert(rows[rows.len() - 1].price == last);
        let fewer = rows.drop_last();
        assert(lists(levels.remove(last), side, fewer)) by {
            assert forall|i: int| 0 <= i < fewer.len() implies levels.remove(last).contains_key(
                (#[trigger] fewer[i]).price,
            ) by {
                assert(better(side, rows[i].price, rows[rows.len() - 1].price));
            }
        }
        lemma_lists_all(levels.remove(last), side, fewer);
        assert forall|p: u64| #[trigger] levels.contains_key(p) implies lists_price(rows, p) by {
            if p != last {
                assert(levels.remove(last).contains_key(p));
                let i = choose|i: int|
                    0 <= i < fewer.len() && (#[trigger] fewer[i]).price == p;
                assert(rows[i].price == p);
            }
        }
    }
}

/// The next item that `items` yields.
fn first_item<I: Iterator>(items: &mut I) -> (item: Option<I::Item>)
    requires
        vstd::std_specs::iter::IteratorSpec::obeys_prophetic_iter_laws(old(items)),
    ensures
        item == (if vstd::std_specs::iter::IteratorSpec::remaining(old(items)).len() > 0 {
            Some(vstd::std_specs::iter::IteratorSpec::remaining(old(items)).first())
        } else {
            None
        }),
{
    items.next()
}

/// The last item that `items` would yield.
fn last_item<I: DoubleEndedIterator>(items: &mut I) -> (item: Option<I::Item>)
    requires
        vstd::std_specs::iter::IteratorSpec::obeys_prophetic_iter_laws(old(items)),
    ensures
        item == (if vstd::std_specs::iter::IteratorSpec::remaining(old(items)).len() > 0 {
            Some(vstd::std_specs::iter::IteratorSpec::remaining(old(items)).last())
        } else {
            None
        }),
{
    items.next_back()
}

/// The entries that a B-tree yields are those of the map, from the lowest key to the highest.
proof fn lemma_entries_ascend(
    levels: Map<u64, VecDeque<Order>>,
    entries: Seq<(&u64, &VecDeque<Order>)>,
)
    requires
        entries.len() == levels.dom().len(),
        forall|i: int|
            0 <= i < entries.len() ==> levels.contains_key(*(#[trigger] entries[i]).0)
                && levels[*entries[i].0] == *entries[i].1,
        forall|p: u64| #[trigger]
            levels.contains_key(p) ==> entries.contains((&p, &levels[p])),
        vstd::std_specs::btree::increasing_seq(
            entries.map_values(|entry: (&u64, &VecDeque<Order>)| *entry.0),
        ),
    ensures
        forall|i: int, j: int|
            0 <= i < j < entries.len() ==> *(#[trigger] entries[i]).0 < *(#[trigger] entries[j]).0,
        forall|p: u64| #[trigger]
            levels.contains_key(p) ==> exists|i: int|
                0 <= i < entries.len() && *(#[trigger] entries[i]).0 == p,
{
    let keys = entries.map_values(|entry: (&u64, &VecDeque<Order>)| *entry.0);
    assert forall|i: int, j: int| 0 <= i < j < entries.len() implies *(#[trigger] entries[i]).0
        < *(#[trigger] entries[j]).0 by {
        assert(vstd::std_specs::cmp::OrdSpec::cmp_spec(&keys[i], &keys[j]) is Less);
    }
    assert forall|p: u64| #[trigger] levels.contains_key(p) implies exists|i: int|
        0 <= i < entries.len() && *(#[trigger] entries[i]).0 == p by {
        let i = entries.index_of((&p, &levels[p]));
        assert(entries[i] == (&p, &levels[p]));
    }
}

/// The best of the prices in `levels`: the highest bid or the lowest ask.
fn best_price(levels: &BTreeMap<u64, VecDeque<Order>>, side: Side) -> (price: Option<u64>)
    ensures
        match price {
            Some(price) => is_best(levels@, side, price),
            None => levels@.dom().len() == 0,
        },
{
    let mut entries = levels.iter();
    proof {
        lemma_entries_ascend(levels@, vstd::std_specs::iter::IteratorSpec::remaining(&entries));
    }
    let best = match side {
        Side::Buy => last_item(&mut entries),
        Side::Sell => first_item(&mut entries),
    };
    match best {
        Some(entry) => Some(*entry.0),
        None => None,
    }
}

/// One side of the order book.
///
/// Its view is the sequence of the resting orders in the order in which they trade.
#[derive(Debug)]
pub struct HalfBook {
    /// The price levels that hold an order; a level's front order is the oldest.
    levels: BTreeMap<u64, VecDeque<Order>>,
    /// The best price in `levels`, kept so that the top of the book is read at once.
    best: Option<u64>,
    side: Side,
}

impl View for HalfBook {
    type V = Seq<Order>;

    closed spec fn view(&self) -> Seq<Order> {
        in_priority(self.levels@, self.side)
    }
}

impl HalfBook {
    /// The side whose orders rest here.
    pub closed spec fn side(&self) -> Side {
        self.side
    }

    /// The levels are filed by price and `best` points at the best one.
    pub closed spec fn wf(&self) -> bool {
        &&& filed_by_price(self.levels@)
        &&& match self.best {
            Some(price) => is_best(self.levels@, self.side, price),
            None => self.levels@.dom().len() == 0,
        }
    }

    /// A well-formed side stands best price first.
    pub proof fn wf_is_sorted(&self)
        requires
            self.wf(),
        ensures
            best_first(self.side(), self@),
    {
        lemma_in_priority_sorted(self.levels@, self.side);
    }

    /// The first order of the view is the front of the best level.
    proof fn lemma_front(&self)
        requires
            self.wf(),
        ensures
            self.best is None <==> self@.len() == 0,
            self.best matches Some(price) ==> {
                &&& self.levels@.contains_key(price)
                &&& self.levels@[price]@.len() > 0
                &&& self@[0] == self.levels@[price]@[0]
                &&& self@[0].price == price
                &&& self@ == self.levels@[price]@ + in_priority(
                    self.levels@.remove(price),
                    self.side,
                )
            },
    {
        match self.best {
            Some(price) => {
                lemma_in_priority_step(self.levels@, self.side, price);
                assert(self@[0] == self.levels@[price]@[0]);
            },
            None => {
                lemma_in_priority_empty(self.levels@, self.side);
            },
        }
    }

    /// A level whose total exceeds a `u64` shows in the view.
    proof fn lemma_overflow(&self, price: u64)
        requires
            self.wf(),
            self.levels@.contains_key(price),
            total_qty(self.levels@[price]@) > u64::MAX,
        ensures
            !totals_fit(self@),
    {
        lemma_qty_at_level(self.levels@, self.side, price);
    }

    /// A list of all levels aggregates the view.
    proof fn lemma_listed(&self, rows: Seq<PriceLevel>)
        requires
            self.wf(),
            lists(self.levels@, self.side, rows),
            rows.len() == self.levels@.dom().len(),
        ensures
            totals_fit(self@),
            aggregates(self.side, self@, rows),
    {
        lemma_lists_all(self.levels@, self.side, rows);
        lemma_in_priority_prices(self.levels@, self.side);
        assert forall|i: int| 0 <= i < rows.len() implies (#[trigger] rows[i]).qty == qty_at(
            self@,
            rows[i].price,
        ) by {
            lemma_qty_at_level(self.levels@, self.side, rows[i].price);
        }
        assert forall|p: u64| lists_price(rows, p) implies #[trigger] rests_at(self@, p) by {
            lemma_qty_at_level(self.levels@, self.side, p);
        }
        assert forall|p: u64| rests_at(self@, p) implies #[trigger] lists_price(rows, p) by {
            assert(self.levels@.contains_key(p));
        }
        assert forall|p: u64| #[trigger] qty_at(self@, p) <= u64::MAX by {
            if rests_at(self@, p) {
                assert(lists_price(rows, p));
            } else {
                lemma_qty_at_absent(self@, p);
            }
        }
    }

    /// An empty side.
    pub fn new(side: Side) -> (book: Self)
        ensures
            book.wf(),
            book.side() == side,
            book@ == Seq::<Order>::empty(),
    {
        let book = Self { levels: BTreeMap::new(), best: None, side };
        proof {
            lemma_in_priority_empty(book.levels@, side);
        }
        book
    }

    /// The best price at which an order rests.
    pub fn best(&self) -> (price: Option<u64>)
        requires
            self.wf(),
        ensures
            price == (if self@.len() == 0 {
                None
            } else {
                Some(self@[0].price)
            }),
            price matches Some(price) ==> forall|i: int|
                0 <= i < self@.len() ==> match self.side() {
                    Side::Buy => (#[trigger] self@[i]).price <= price,
                    Side::Sell => self@[i].price >= price,
                },
    {
        proof {
            self.lemma_front();
            self.wf_is_sorted();
            if self@.len() > 0 {
                assert(forall|i: int|
                    0 < i < self@.len() ==> !better(
                        self.side,
                        (#[trigger] self@[i]).price,
                        self@[0].price,
                    ));
            }
        }
        self.best
    }

    /// Does the best resting price cross the limit of an incoming taker?
    pub fn crosses(&self, taker_limit: u64) -> (crossed: bool)
        requires
            self.wf(),
        ensures
            crossed == (self@.len() > 0 && acceptable(self.side(), self@[0].price, taker_limit)),
            crossed <==> exists|i: int|
                0 <= i < self@.len() && match self.side() {
                    Side::Buy => (#[trigger] self@[i]).price >= taker_limit,
                    Side::Sell => self@[i].price <= taker_limit,
                },
    {
        proof {
            self.lemma_front();
            self.wf_is_sorted();
            if self@.len() > 0 {
                assert(forall|i: int|
                    0 < i < self@.len() ==> !better(
                        self.side,
                        (#[trigger] self@[i]).price,
                        self@[0].price,
                    ));
            }
        }
        match (self.best, self.side) {
            (Some(best), Side::Sell) => best <= taker_limit,
            (Some(best), Side::Buy) => best >= taker_limit,
            (None, _) => false,
        }
    }

    /// The price, id and quantity of the next order to trade.
    pub fn peek_best(&self) -> (front: Option<(u64, u64, u64)>)
        requires
            self.wf(),
        ensures
            front == (if self@.len() == 0 {
                None
            } else {
                Some((self@[0].price, self@[0].id, self@[0].qty))
            }),
    {
        proof {
            self.lemma_front();
        }
        let best = self.best?;
        let queue = self.levels.get(&best)?;
        let front = &queue[0];
        Some((best, front.id, front.qty))
    }

    /// Takes `qty` from the next order to trade, which leaves once nothing of it remains.
    ///
    /// A level without orders leaves with its last order, and the best price moves on.
    pub fn consume(&mut self, qty: u64)
        requires
            old(self).wf(),
            old(self)@.len() > 0 ==> qty <= old(self)@[0].qty,
        ensures
            final(self).wf(),
            final(self).side() == old(self).side(),
            final(self)@ == consume_front(old(self)@, qty),
            old(self)@.len() == 0 ==> final(self)@ == old(self)@,
            old(self)@.len() > 0 && qty == old(self)@[0].qty ==> final(self)@
                == old(self)@.drop_first(),
            old(self)@.len() > 0 && qty < old(self)@[0].qty ==> final(self)@
                == old(self)@.update(
                0,
                Order {
                    id: old(self)@[0].id,
                    side: old(self)@[0].side,
                    price: old(self)@[0].price,
                    qty: (old(self)@[0].qty - qty) as u64,
                },
            ),
    {
        proof {
            self.lemma_front();
        }
        let best = match self.best {
            Some(best) => best,
            None => return,
        };
        let ghost before = self.levels@;
        let ghost rest = before.remove(best);
        let mut queue = match self.levels.remove(&best) {
            Some(queue) => queue,
            None => return,
        };
        if let Some(mut front) = queue.pop_front() {
            front.qty = front.qty - qty;
            if front.qty > 0 {
                queue.push_front(front);
            }
        }
        if queue.len() == 0 {
            self.best = best_price(&self.levels, self.side);
            assert(self@ =~= consume_front(old(self)@, qty));
        } else {
            self.levels.insert(best, queue);
            proof {
                assert(self.levels@.remove(best) =~= rest);
                assert forall|p: u64| #[trigger] self.levels@.contains_key(p) implies
                    before.contains_key(p) by {}
                assert(is_best(self.levels@, self.side, best));
                lemma_in_priority_step(self.levels@, self.side, best);
                assert(self@ =~= consume_front(old(self)@, qty));
            }
        }
    }

    /// Rests an order behind every order at the same or a better price.
    pub fn rest(&mut self, order: Order)
        requires
            old(self).wf(),
        ensures
            final(self).wf(),
            final(self).side() == old(self).side(),
            final(self)@ == enqueue(old(self).side(), old(self)@, order),
            exists|place: int|
                {
                    &&& 0 <= place <= old(self)@.len()
                    &&& final(self)@ == #[trigger] old(self)@.insert(place, order)
                    &&& forall|i: int|
                        0 <= i < place ==> match old(self).side() {
                            Side::Buy => (#[trigger] old(self)@[i]).price >= order.price,
                            Side::Sell => old(self)@[i].price <= order.price,
                        }
                    &&& forall|i: int|
                        place <= i < old(self)@.len() ==> match old(self).side() {
                            Side::Buy => (#[trigger] old(self)@[i]).price < order.price,
                            Side::Sell => old(self)@[i].price > order.price,
                        }
                },
    {
        proof {
            self.wf_is_sorted();
            enqueue_keeps_priority(self.side, self@, order);
        }
        let ghost queued = self@;
        let ghost place = queue_position(self.side, self@, order.price) as int;
        let price = order.price;
        let ghost before = self.levels@;
        let mut queue = match self.levels.remove(&price) {
            Some(queue) => queue,
            None => VecDeque::new(),
        };
        queue.push_back(order);
        proof {
            lemma_rest(before, self.side, order, queue);
            assert(before.remove(price).insert(price, queue) =~= before.insert(price, queue));
        }
        self.levels.insert(price, queue);
        self.best = Some(
            match self.best {
                Some(best) => match self.side {
                    Side::Buy => if best >= price { best } else { price },
                    Side::Sell => if best <= price { best } else { price },
                },
                None => price,
            },
        );
        assert(self@ == queued.insert(place, order));
    }

    /// The levels from the best price to the worst, unless a total exceeds what a `u64` holds.
    pub fn try_snapshot_levels(&self) -> (levels: Option<Vec<PriceLevel>>)
        requires
            self.wf(),
        ensures
            levels is Some <==> totals_fit(self@),
            levels matches Some(levels) ==> aggregates(self.side(), self@, levels@),
    {
        let mut levels: Vec<PriceLevel> = Vec::new();
        let entries = self.levels.iter();
        proof {
            lemma_entries_ascend(
                self.levels@,
                vstd::std_specs::iter::IteratorSpec::remaining(&entries),
            );
        }
        match self.side {
            Side::Buy => {
                for entry in walk: entries.rev()
                    invariant
                        self.wf(),
                        self.side == Side::Buy,
                        walk.seq().len() == self.levels@.dom().len(),
                        forall|i: int|
                            0 <= i < walk.seq().len() ==> self.levels@.contains_key(
                                *(#[trigger] walk.seq()[i]).0,
                            ) && self.levels@[*walk.seq()[i].0] == *walk.seq()[i].1,
                        forall|i: int, j: int|
                            0 <= i < j < walk.seq().len() ==> better(
                                self.side,
                                *(#[trigger] walk.seq()[i]).0,
                                *(#[trigger] walk.seq()[j]).0,
                            ),
                        levels@.len() == walk.index(),
                        forall|i: int|
                            0 <= i < levels@.len() ==> (#[trigger] levels@[i]).price
                                == *walk.seq()[i].0,
                        lists(self.levels@, self.side, levels@),
                {
                    let qty = match queue_total(entry.1) {
                        Some(qty) => qty,
                        None => {
                            proof {
                                self.lemma_overflow(*entry.0);
                            }
                            return None;
                        },
                    };
                    levels.push(PriceLevel { price: *entry.0, qty });
                }
            },
            Side::Sell => {
                for entry in walk: entries
                    invariant
                        self.wf(),
                        self.side == Side::Sell,
                        walk.seq().len() == self.levels@.dom().len(),
                        forall|i: int|
                            0 <= i < walk.seq().len() ==> self.levels@.contains_key(
                                *(#[trigger] walk.seq()[i]).0,
                            ) && self.levels@[*walk.seq()[i].0] == *walk.seq()[i].1,
                        forall|i: int, j: int|
                            0 <= i < j < walk.seq().len() ==> better(
                                self.side,
                                *(#[trigger] walk.seq()[i]).0,
                                *(#[trigger] walk.seq()[j]).0,
                            ),
                        levels@.len() == walk.index(),
                        forall|i: int|
                            0 <= i < levels@.len() ==> (#[trigger] levels@[i]).price
                                == *walk.seq()[i].0,
                        lists(self.levels@, self.side, levels@),
                {
                    let qty = match queue_total(entry.1) {
                        Some(qty) => qty,
                        None => {
                            proof {
                                self.lemma_overflow(*entry.0);
                            }
                            return None;
                        },
                    };
                    levels.push(PriceLevel { price: *entry.0, qty });
                }
            },
        }
        proof {
            self.lemma_listed(levels@);
        }
        Some(levels)
    }

    /// The levels from the best price to the worst, each with its total quantity.
    pub fn snapshot_levels(&self) -> (levels: Vec<PriceLevel>)
        requires
            self.wf(),
            totals_fit(self@),
        ensures
            aggregates(self.side(), self@, levels@),
    {
        self.try_snapshot_levels().unwrap()
    }
}

} // verus!
