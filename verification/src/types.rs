//! The values that the book, the engine and their clients exchange.
use vstd::prelude::*;

verus! {

/// The direction of an order.
#[derive(Debug, Clone, Copy, PartialEq, Eq, Structural)]
pub enum Side {
    Buy,
    Sell,
}

/// A limit order: trade up to `qty` at `price` or better.
#[derive(Debug, Clone)]
pub struct Order {
    pub id: u64,
    pub side: Side,
    pub price: u64,
    pub qty: u64,
}

/// One trade between a resting order (the maker) and an incoming one (the taker).
#[derive(Debug, Clone)]
pub struct Fill {
    pub maker_order_id: u64,
    pub taker_order_id: u64,
    pub price: u64,
    pub qty: u64,
}

/// The total quantity that rests at one price.
#[derive(Debug, Clone)]
pub struct PriceLevel {
    pub price: u64,
    pub qty: u64,
}

/// The aggregated book: each side from its best price to its worst.
#[derive(Debug, Clone)]
pub struct OrderBookSnapshot {
    pub bids: Vec<PriceLevel>,
    pub asks: Vec<PriceLevel>,
}

/// A client's request to place an order; the engine assigns the id.
#[derive(Debug, Clone)]
pub struct SubmitOrderReq {
    pub side: Side,
    pub price: u64,
    pub qty: u64,
}

/// The engine's answer to a [`SubmitOrderReq`].
#[derive(Debug, Clone)]
pub struct SubmitOrderResp {
    pub id: u64,
}

} // verus!
