//! A single-symbol limit order book matching engine.
//!
//! The library keeps a price-time-priority order book, matches incoming
//! limit orders against resting liquidity, and reports every operation as a
//! stream of events.  The data-structure invariants and the observable
//! behaviour of each operation are stated as contracts and verified.

use vstd::prelude::*;

pub mod book;
pub mod engine;
pub mod errors;
pub mod laws;
pub mod matcher;
pub mod order;
pub mod trade;
pub mod types;

verus! {

/// A generic output row: a label and its numeric columns.
#[derive(Debug, PartialEq)]
pub struct Row {
    pub label: String,
    pub values: Vec<u64>,
}

impl Row {
    pub fn get_label(&self) -> (r: &String)
        ensures
            r == &self.label,
    {
        &self.label
    }
}

/// An acknowledgement (label `"A"`) or rejection (label `"R"`) of one
/// operation, naming the user and the user's order id.
#[derive(Debug, PartialEq)]
pub struct Acknowledgment {
    pub label: String,
    pub user_id: u64,
    pub user_order_id: u64,
}

impl Acknowledgment {
    pub fn get_label(&self) -> (r: &String)
        ensures
            r == &self.label,
    {
        &self.label
    }
}

/// A top-of-book report (label `"B"`): the reported side (`"S"`, `"B"`, or
/// `"-"` for an empty book), the price at its head, and the total remaining
/// quantity resting on that side.
#[derive(Debug, PartialEq)]
pub struct BookTop {
    pub label: String,
    pub side: String,
    pub price: u64,
    pub total_qty: u64,
}

impl BookTop {
    pub fn get_label(&self) -> (r: &String)
        ensures
            r == &self.label,
    {
        &self.label
    }
}

/// One output event of the engine.
#[derive(Debug, PartialEq)]
pub enum Event {
    Ack(Acknowledgment),
    Reject(Acknowledgment),
    BookTop(BookTop),
}

} // verus!
