//! Error taxonomy of the matching engine.
//!
//! Trade-level errors (`TradeError` and its three kinds) are non-fatal
//! signals: the crossing loop uses them to stop iterating and they are never
//! surfaced to the output.  Order-level errors (`OrderError`) indicate a
//! matcher bug; the verified code rules the offending inputs out by
//! precondition instead of panicking.

use vstd::prelude::*;

verus! {

/// Failure to convert an order request into a limit order.
#[derive(Debug, PartialEq)]
pub enum OrderRequestError {
    /// The request was not a creation request.
    MismatchType,
    /// The side field held neither `"B"` nor `"S"`.
    InvalidOrderSide(String),
}

/// Failure to fill an order.
#[derive(Clone, Copy, Debug, PartialEq, Eq, Structural)]
pub enum OrderError {
    /// Filling by a zero amount is not allowed.
    NoFill,
    /// The filling amount exceeds the remaining amount.
    Overfill,
}

/// Why two orders do not trade.
#[derive(Clone, Copy, Debug, PartialEq, Eq, Structural)]
pub enum TradeError {
    Price(PriceError),
    Side(SideError),
    Status(StatusError),
}

/// The limit prices do not cross.
#[derive(Clone, Copy, Debug, PartialEq, Eq, Structural)]
pub enum PriceError {
    Incompatible,
}

/// Taker and maker must stand at opposite sides.
#[derive(Clone, Copy, Debug, PartialEq, Eq, Structural)]
pub enum SideError {
    Conflict,
}

/// Neither taker nor maker may be closed.
#[derive(Clone, Copy, Debug, PartialEq, Eq, Structural)]
pub enum StatusError {
    Closed,
}

} // verus!
