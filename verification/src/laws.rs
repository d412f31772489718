//! Laws of the book, proved from the operation contracts: the round trip
//! of placing and cancelling, the emptiness of a flushed book, the
//! idempotence of cancel, and the positive spread of a well-formed
//! uncrossed book.

use vstd::prelude::*;

use crate::book::{ids_at, lemma_level_at, total_ids, Book};
use crate::order::{LimitOrder, Side};

verus! {

/// Cancelling an order immediately after placing it restores the resting
/// count and the resting volume of both sides to their values before the
/// placement.
///
/// `b0` is the book before `place(o)`, `b1` the book after it, and `b2`
/// the book after `cancel(o.order_id)`; the premises are exactly the
/// contracts of the two operations.
pub proof fn lemma_place_cancel_roundtrip(b0: Book, o: LimitOrder, b1: Book, b2: Book)
    requires
        b0.wf(),
        !b0.spec_contains(o.order_id),
        Book::place_effect(b0, o, b1),
        Book::remove_effect(b1, o.order_id, b2),
    ensures
        b2.count_of(Side::Ask) == b0.count_of(Side::Ask),
        b2.count_of(Side::Bid) == b0.count_of(Side::Bid),
        b2.volume_of(Side::Ask) == b0.volume_of(Side::Ask),
        b2.volume_of(Side::Bid) == b0.volume_of(Side::Bid),
{
    assert(b1.spec_get(o.order_id) == o);
}

/// A flushed book answers every query with the empty state: both sides
/// are empty, nothing is indexed, every level is empty, and counts and
/// volumes are zero.
pub proof fn lemma_empty_book_queries(b: Book)
    requires
        b.wf(),
        b.spec_is_empty(),
    ensures
        b.side_book(Side::Ask).spec_is_empty(),
        b.side_book(Side::Bid).spec_is_empty(),
        b.count_of(Side::Ask) == 0,
        b.count_of(Side::Bid) == 0,
        b.volume_of(Side::Ask) == 0,
        b.volume_of(Side::Bid) == 0,
        forall|id: u64| !b.spec_contains(id),
        forall|p: u64| #[trigger] ids_at(b.levels_of(Side::Ask), p) == Seq::<u64>::empty(),
        forall|p: u64| #[trigger] ids_at(b.levels_of(Side::Bid), p) == Seq::<u64>::empty(),
{
    assert(forall|p: u64| !crate::book::has_level(b.levels_of(Side::Ask), p));
    assert(forall|p: u64| !crate::book::has_level(b.levels_of(Side::Bid), p));
}

/// Two cancels of the same id: after the first succeeds the id no longer
/// rests, so the contract of `cancel` makes the second a no-op that
/// returns nothing.
pub proof fn lemma_cancel_idempotent(b0: Book, id: u64, b1: Book)
    requires
        b0.wf(),
        b0.spec_contains(id),
        Book::remove_effect(b0, id, b1),
    ensures
        !b1.spec_contains(id),
{
}

/// In a well-formed uncrossed book with both sides resting, the top ask
/// price strictly exceeds the top bid price.
pub proof fn lemma_spread_positive(b: Book)
    requires
        b.wf(),
        b.uncrossed(),
        !b.side_book(Side::Ask).spec_is_empty(),
        !b.side_book(Side::Bid).spec_is_empty(),
    ensures
        b.side_book(Side::Ask).spec_top_price() > b.side_book(Side::Bid).spec_top_price(),
{
    let sa = b.side_book(Side::Ask);
    let sb = b.side_book(Side::Bid);
    lemma_level_at(sa, 0);
    lemma_level_at(sb, 0);
    let aid = sa.spec_top_id();
    let bid_ = sb.spec_top_id();
    assert(ids_at(sa.levels@, sa.spec_top_price())[0] == aid);
    assert(ids_at(sb.levels@, sb.spec_top_price())[0] == bid_);
    assert(b.side_to_index_ok(Side::Ask));
    assert(b.side_to_index_ok(Side::Bid));
    let i = b.orders_by_id.spec_index_of(aid);
    let j = b.orders_by_id.spec_index_of(bid_);
    assert(b.orders()[i] == b.spec_get(aid));
    assert(b.orders()[j] == b.spec_get(bid_));
}

/// The two structures agree: every id resting at price `p` on `side` is
/// indexed with that side and price, and per side the level sizes sum to
/// the number of indexed orders.
pub proof fn lemma_book_agreement(b: Book, side: Side, p: u64, j: int)
    requires
        b.wf(),
        0 <= j < ids_at(b.levels_of(side), p).len(),
    ensures
        b.spec_contains(ids_at(b.levels_of(side), p)[j]),
        b.spec_get(ids_at(b.levels_of(side), p)[j]).side == side,
        b.spec_get(ids_at(b.levels_of(side), p)[j]).price == p,
        total_ids(b.levels_of(side)) == b.count_of(side),
{
    assert(b.side_to_index_ok(side));
}

} // verus!
