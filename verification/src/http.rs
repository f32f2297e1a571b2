//! The HTTP side of the services: where requests go and how failures are answered.
use vstd::prelude::*;
use crate::types::{Fill, SubmitOrderResp};

verus! {

/// The status of an answer when the engine could not serve the request.
pub const INTERNAL_SERVER_ERROR: u16 = 500;

/// The status of an answer when the engine could not be reached or understood.
pub const BAD_GATEWAY: u16 = 502;

/// A failed request: the status and the body of the answer.
#[derive(Debug, Clone)]
pub struct Failure {
    pub status: u16,
    pub message: String,
}

/// What the engine's HTTP handlers answer: a failure becomes an internal error with its message.
pub fn engine_answer<T>(outcome: Result<T, String>) -> (answer: Result<T, Failure>)
    ensures
        match outcome {
            Ok(value) => answer == Ok::<T, Failure>(value),
            Err(message) => answer matches Err(failure) && failure.status == INTERNAL_SERVER_ERROR
                && failure.status == 500 && failure.message == message,
        },
{
    match outcome {
        Ok(value) => Ok(value),
        Err(message) => Err(Failure { status: INTERNAL_SERVER_ERROR, message }),
    }
}

/// What the API's HTTP handlers answer: a failure becomes a gateway error with its message.
pub fn gateway_answer<T>(outcome: Result<T, String>) -> (answer: Result<T, Failure>)
    ensures
        match outcome {
            Ok(value) => answer == Ok::<T, Failure>(value),
            Err(message) => answer matches Err(failure) && failure.status == BAD_GATEWAY
                && failure.status == 502 && failure.message == message,
        },
{
    match outcome {
        Ok(value) => Ok(value),
        Err(message) => Err(Failure { status: BAD_GATEWAY, message }),
    }
}

/// What the client that placed an order gets back: its id, and not its fills.
pub fn order_response(placed: (u64, Vec<Fill>)) -> (response: SubmitOrderResp)
    ensures
        response == (SubmitOrderResp { id: placed.0 }),
{
    SubmitOrderResp { id: placed.0 }
}

/// Where orders are posted, below the address of a service.
pub fn orders_url(base: &str) -> (url: String)
    ensures
        url@ == base@ + "/orders"@,
{
    let mut url = String::from_str(base);
    url.append("/orders");
    url
}

/// Where the book is read, below the address of a service.
pub fn orderbook_url(base: &str) -> (url: String)
    ensures
        url@ == base@ + "/orderbook"@,
{
    let mut url = String::from_str(base);
    url.append("/orderbook");
    url
}

} // verus!
