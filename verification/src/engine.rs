//! The engine: it owns the book and serves one command at a time.
use vstd::prelude::*;
use crate::laws;
use crate::orderbook::{BookView, OrderBook};
use crate::types::{Fill, Order, OrderBookSnapshot, SubmitOrderReq};

verus! {

/// What clients ask of the engine.
#[derive(Debug)]
pub enum EngineCmd {
    /// Place an order.
    Submit(SubmitOrderReq),
    /// Read the aggregated book.
    Snapshot,
}

/// What the engine answers.
#[derive(Debug)]
pub enum EngineReply {
    /// The id that the order got, and its fills, which are to be published in this order.
    Submitted { id: u64, fills: Vec<Fill> },
    /// The aggregated book.
    Snapshot(OrderBookSnapshot),
}

/// Gives the request the next id and submits it, unless the ids have run out.
pub fn place(book: &mut OrderBook, req: &SubmitOrderReq) -> (placed: Option<(u64, Vec<Fill>)>)
    requires
        old(book).wf(),
    ensures
        final(book).wf(),
        placed is Some <==> old(book)@.next_id < u64::MAX,
        match placed {
            Some((id, fills)) => {
                &&& id == old(book)@.next_id
                &&& fills@ == old(book)@.fills(old(book)@.order_for(*req))
                &&& fills@ == old(book)@.fills(
                    Order { id, side: req.side, price: req.price, qty: req.qty },
                )
                &&& final(book)@ == old(book)@.placed(*req)
            },
            None => final(book)@ == old(book)@,
        },
{
    let ghost before = book@;
    match book.try_next_id() {
        Some(id) => {
            let order = Order { id, side: req.side, price: req.price, qty: req.qty };
            let fills = book.submit(order);
            assert(book@ == before.placed(*req));
            Some((id, fills))
        },
        None => None,
    }
}

/// The single owner of an order book.
#[derive(Debug)]
pub struct Engine {
    book: OrderBook,
}

impl View for Engine {
    type V = BookView;

    closed spec fn view(&self) -> BookView {
        self.book@
    }
}

impl Engine {
    /// The book is well formed, and every id in it has been handed out.
    pub closed spec fn wf(&self) -> bool {
        self.book.wf() && self.book@.ids_issued()
    }

    /// What a well-formed engine holds is a valid book with issued ids.
    pub proof fn wf_is_valid(&self)
        requires
            self.wf(),
        ensures
            self@.valid(),
            self@.ids_issued(),
    {
        self.book.wf_is_valid();
    }

    /// An engine with an empty book.
    pub fn new() -> (engine: Self)
        ensures
            engine.wf(),
            engine@ == BookView::empty(),
            engine@.bids.len() == 0,
            engine@.asks.len() == 0,
            engine@.next_id == 1,
    {
        Self { book: OrderBook::new() }
    }

    /// Serves one command.
    ///
    /// There is no answer, and nothing changes, when the order ids have run out or when the
    /// total of a price level exceeds what a `u64` holds.
    pub fn handle(&mut self, cmd: EngineCmd) -> (reply: Option<EngineReply>)
        requires
            old(self).wf(),
        ensures
            final(self).wf(),
            match cmd {
                EngineCmd::Submit(req) => {
                    &&& reply is Some <==> old(self)@.next_id < u64::MAX
                    &&& match reply {
                        Some(EngineReply::Submitted { id, fills }) => {
                            &&& id == old(self)@.next_id
                            &&& fills@ == old(self)@.fills(old(self)@.order_for(req))
                            &&& forall|i: int|
                                0 <= i < fills@.len() ==> (#[trigger] fills@[i]).maker_order_id < id
                                    && fills@[i].taker_order_id == id
                            &&& final(self)@ == old(self)@.placed(req)
                        },
                        Some(EngineReply::Snapshot(_)) => false,
                        None => final(self)@ == old(self)@,
                    }
                },
                EngineCmd::Snapshot => {
                    &&& reply is Some <==> old(self)@.totals_fit()
                    &&& final(self)@ == old(self)@
                    &&& match reply {
                        Some(EngineReply::Snapshot(snapshot)) => old(self)@.aggregated_by(snapshot),
                        Some(EngineReply::Submitted { .. }) => false,
                        None => true,
                    }
                },
            },
    {
        match cmd {
            EngineCmd::Submit(req) => {
                proof {
                    let view = self.book@;
                    if view.next_id < u64::MAX {
                        laws::placing_keeps_ids(view, req);
                        laws::submit_tracks_ids(
                            view,
                            view.order_for(req),
                            crate::matching::ids_below(view.next_id),
                        );
                    }
                }
                let placed = place(&mut self.book, &req);
                match placed {
                    Some((id, fills)) => Some(EngineReply::Submitted { id, fills }),
                    None => None,
                }
            },
            EngineCmd::Snapshot => {
                match self.book.try_snapshot() {
                    Some(snapshot) => Some(EngineReply::Snapshot(snapshot)),
                    None => None,
                }
            },
        }
    }
}

/// What has to be done about a reply.
#[derive(Debug)]
pub enum Effect {
    /// Publish the fill to every subscriber.
    Publish(Fill),
    /// Answer the client that placed the order.
    AnswerOrder { id: u64, fills: Vec<Fill> },
    /// Answer the client that asked for the book.
    AnswerSnapshot(OrderBookSnapshot),
}

/// The effects of a reply, in the order in which they are to be carried out: every fill of an
/// order is published, in order, before the client is answered.
pub fn effects(reply: EngineReply) -> (effects: Vec<Effect>)
    ensures
        match reply {
            EngineReply::Submitted { id, fills } => {
                &&& effects@.len() == fills@.len() + 1
                &&& forall|i: int|
                    0 <= i < fills@.len() ==> #[trigger] effects@[i] == Effect::Publish(fills@[i])
                &&& effects@.last() == (Effect::AnswerOrder { id, fills })
            },
            EngineReply::Snapshot(snapshot) => effects@ == seq![Effect::AnswerSnapshot(snapshot)],
        },
{
    let mut effects: Vec<Effect> = Vec::new();
    match reply {
        EngineReply::Submitted { id, fills } => {
            for i in 0..fills.len()
                invariant
                    effects@.len() == i,
                    forall|k: int|
                        0 <= k < i ==> #[trigger] effects@[k] == Effect::Publish(fills@[k]),
            {
                let fill = &fills[i];
                effects.push(
                    Effect::Publish(
                        Fill {
                            maker_order_id: fill.maker_order_id,
                            taker_order_id: fill.taker_order_id,
                            price: fill.price,
                            qty: fill.qty,
                        },
                    ),
                );
            }
            effects.push(Effect::AnswerOrder { id, fills });
        },
        EngineReply::Snapshot(snapshot) => {
            effects.push(Effect::AnswerSnapshot(snapshot));
        },
    }
    effects
}

} // verus!
