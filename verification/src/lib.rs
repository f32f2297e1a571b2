//! A price-time priority limit order book and the services around it.

pub mod bench;
pub mod demo;
pub mod engine;
pub mod half_book;
pub mod http;
pub mod laws;
pub mod matching;
pub mod orderbook;
pub mod session;
pub mod stress;
pub mod types;

pub use types::{
    Fill, Order, OrderBookSnapshot, PriceLevel, Side, SubmitOrderReq, SubmitOrderResp,
};
