//! Order taxonomy: the order kinds and time-in-force policies the wider
//! exchange vocabulary knows, beyond the plain good-till-cancel limit
//! orders the matching core handles.

use vstd::prelude::*;

verus! {

/// The kind of an order.
#[derive(Clone, Copy, Debug, PartialEq, Eq, Structural)]
pub enum OrderType {
    /// A limit order names a price and a size and fills at that price or
    /// better.
    Limit { limit_price: u64, time_in_force: TimeInForce, amount: u64, filled: u64 },
    /// A market order names no price: it executes immediately at the best
    /// available price and never rests on the book.
    Market {
        /// Reject the order unless the entire size can be matched.
        all_or_none: bool,
        amount: u64,
        filled: u64,
    },
}

/// How long an order lives.
#[derive(Clone, Copy, Debug, PartialEq, Eq, Structural)]
pub enum TimeInForce {
    /// The order rests on the book until it is cancelled.
    GoodTillCancel {
        /// Only make liquidity: reject the order if any part of it would
        /// take liquidity.
        post_only: bool,
    },
    /// Fill as much as possible immediately, then expire.
    ImmediateOrCancel {
        /// Reject the order unless the entire size can be matched.
        all_or_none: bool,
    },
}

impl Default for TimeInForce {
    /// The default policy: plain good-till-cancel.
    fn default() -> (r: Self)
        ensures
            r == (TimeInForce::GoodTillCancel { post_only: false }),
    {
        TimeInForce::GoodTillCancel { post_only: false }
    }
}

/// A raw inbound order, before validation.
#[derive(Debug)]
pub struct InboundOrder {}

} // verus!
