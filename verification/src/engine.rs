//! The matching engine: the crossing loop that matches an incoming order
//! against the opposite side of the book, and the engine that dispatches
//! operations and emits events.

use vstd::prelude::*;

use crate::book::{
    ids_at, lemma_isum_pointwise, lemma_isum_pointwise_except, lemma_isum_zero, lemma_level_at,
    lemma_top_price_best, price_before, same_identity, seq_isum, Book,
};
use crate::order::{LimitOrder, OrderRequest, OrderStatus, Side};
use crate::trade::TradeImpl;
use crate::{Acknowledgment, BookTop, Event};

verus! {

/// An error of the default exchange.  Matching itself cannot fail: no
/// function ever produces this value, and the matching contract says so.
#[derive(Debug)]
#[non_exhaustive]
pub struct DefaultExchangeError;

/// The errors the engine reports.
#[derive(Clone, Copy, Debug, PartialEq, Eq, Structural)]
pub enum EngineError {
    /// A creation request carried price zero, which marks a market order;
    /// the core does not support market orders.
    MarketUnsupported,
}

/// Whether the incoming order's limit price permits trading against a
/// resting order at `maker_price`: the bid price must reach the ask price.
pub open spec fn crosses(taker: LimitOrder, maker_price: u64) -> bool {
    match taker.side {
        Side::Bid => taker.price >= maker_price,
        Side::Ask => taker.price <= maker_price,
    }
}

/// What the crossing loop owes of its inputs: a well-formed, uncrossed
/// book; a fresh, open, unfilled, valid order; and room for its quantity
/// in the book's total volume.
pub open spec fn match_requires(book: Book, o: LimitOrder) -> bool {
    &&& book.wf()
    &&& book.uncrossed()
    &&& o.valid()
    &&& o.status == OrderStatus::Open
    &&& o.filled == 0
    &&& !book.spec_contains(o.order_id)
    &&& book.volume_of(Side::Ask) + book.volume_of(Side::Bid) + o.quantity <= u64::MAX
}

/// `post` is what is left of the FIFO `pre` after consuming some prefix.
pub open spec fn fifo_suffix(post: Seq<u64>, pre: Seq<u64>) -> bool {
    post.len() <= pre.len() && post == pre.skip(pre.len() - post.len())
}

/// Consuming one more element keeps the suffix relation.
pub proof fn lemma_fifo_suffix_drop(post: Seq<u64>, pre: Seq<u64>)
    requires
        fifo_suffix(post, pre),
        post.len() > 0,
    ensures
        fifo_suffix(post.drop_first(), pre),
{
    assert(post.drop_first() =~= pre.skip(pre.len() - post.len() + 1));
}

/// The suffix relation is reflexive, and the empty FIFO is a suffix of
/// anything.
pub proof fn lemma_fifo_suffix_basics(s: Seq<u64>)
    ensures
        fifo_suffix(s, s),
        fifo_suffix(Seq::<u64>::empty(), s),
{
    assert(s.skip(0) =~= s);
    assert(s.skip(s.len() as int) =~= Seq::<u64>::empty());
}

/// The per-order term of [`consumed_from`]: what the matcher took from one
/// pre-book order — its whole remaining quantity if it departed, the
/// growth of its fill if it survived, nothing if it stands on the other
/// side.
pub open spec fn consumed_term(post: Book, opp: Side) -> spec_fn(LimitOrder) -> int {
    |x: LimitOrder|
        if x.side == opp {
            if post.spec_contains(x.order_id) {
                post.spec_get(x.order_id).filled - x.filled
            } else {
                x.spec_remaining()
            }
        } else {
            0int
        }
}

/// What the matcher took from the `opp` side of the pre-book, summed per
/// pre-book order.  Equating this with the incoming order's own fill
/// growth says that a maker departs only once its whole remainder was
/// traded, and that every traded lot came from some maker.
pub open spec fn consumed_from(pre: Book, post: Book, opp: Side) -> int {
    seq_isum(pre.orders(), consumed_term(post, opp))
}

/// What matching changes, stated over the book model.
///
/// - The book stays well formed and uncrossed.
/// - `rested` holds exactly when the incoming order (with residue) now
///   rests: then it stands at the back of the FIFO at its own side and
///   price, partly filled at most, and no other level of its side moved.
///   When it does not rest, its side of the book is untouched and the
///   opposite side paid out the order's full quantity.
/// - Each opposite FIFO is consumed from the front only, and the volume
///   the opposite side loses is exactly what the incoming order gained.
/// - Resting orders never appear from nowhere, never change identity, and
///   never lose fill; at most the order now at the head of the best
///   opposite level was partly filled, and only with every better level
///   exhausted.
/// - An order departs or changes only when the incoming limit crosses its
///   price (so nothing trades outside the limit), and a level is touched
///   only once every better-priced level has been exhausted.
/// - Per order, the incoming fill is exactly the remainders of the
///   departed makers plus the fill growth of the surviving one
///   ([`consumed_from`]): a maker departs only once fully consumed.
pub open spec fn match_effect(pre: Book, o: LimitOrder, post: Book, rested: bool) -> bool {
    let opp = o.side.spec_opposite();
    &&& post.wf()
    &&& post.uncrossed()
    &&& (rested <==> post.spec_contains(o.order_id))
    &&& (rested ==> {
        let res = post.spec_get(o.order_id);
        &&& ids_at(post.levels_of(o.side), o.price) == ids_at(pre.levels_of(o.side), o.price).push(
            o.order_id,
        )
        &&& forall|p: u64|
            p != o.price ==> #[trigger] ids_at(post.levels_of(o.side), p) == ids_at(
                pre.levels_of(o.side),
                p,
            )
        &&& post.count_of(o.side) == pre.count_of(o.side) + 1
        &&& same_identity(res, o)
        &&& res.valid()
        &&& !res.spec_is_closed()
        &&& res.filled < res.quantity
        &&& post.volume_of(opp) == pre.volume_of(opp) - res.filled
        &&& post.volume_of(o.side) == pre.volume_of(o.side) + res.spec_remaining()
    })
    &&& (!rested ==> {
        &&& post.side_book(o.side) == pre.side_book(o.side)
        &&& post.count_of(o.side) == pre.count_of(o.side)
        &&& post.volume_of(o.side) == pre.volume_of(o.side)
        &&& post.volume_of(opp) == pre.volume_of(opp) - o.quantity
    })
    &&& forall|p: u64|
        #[trigger] fifo_suffix(ids_at(post.levels_of(opp), p), ids_at(pre.levels_of(opp), p))
    &&& forall|id: u64|
        #[trigger] post.spec_contains(id) && id != o.order_id ==> pre.spec_contains(id)
            && same_identity(post.spec_get(id), pre.spec_get(id)) && post.spec_get(id).filled
            >= pre.spec_get(id).filled
    &&& forall|id: u64|
        #[trigger] pre.spec_contains(id) && id != o.order_id && !post.spec_contains(id) ==> pre.spec_get(
            id,
        ).side == opp && crosses(o, pre.spec_get(id).price)
    &&& forall|id: u64|
        #[trigger] post.spec_contains(id) && id != o.order_id && post.spec_get(id)
            != pre.spec_get(id) ==> {
            let m = post.spec_get(id);
            &&& m.side == opp
            &&& crosses(o, m.price)
            &&& ids_at(post.levels_of(opp), m.price).len() > 0
            &&& ids_at(post.levels_of(opp), m.price)[0] == id
            &&& forall|q: u64|
                price_before(opp, q, m.price) ==> #[trigger] ids_at(post.levels_of(opp), q).len()
                    == 0
        }
    &&& forall|p: u64, q: u64|
        price_before(opp, q, p) && #[trigger] ids_at(post.levels_of(opp), p) != ids_at(
            pre.levels_of(opp),
            p,
        ) ==> #[trigger] ids_at(post.levels_of(opp), q).len() == 0
    &&& consumed_from(pre, post, opp) == (if rested {
        post.spec_get(o.order_id).filled as int
    } else {
        o.quantity as int
    }) - o.filled
}

/// The default matching engine: price-time-priority crossing against the
/// opposite side of the book.
#[derive(Debug)]
pub struct MatchingEngine;

impl MatchingEngine {
    /// Match `incoming_order` against the book.
    ///
    /// The crossing loop repeatedly takes the order at the priority head of
    /// the opposite side; while the prices cross, both orders fill by the
    /// smaller remaining quantity at the resting order's price, and a
    /// completed resting order leaves the book.  Afterwards the incoming
    /// order rests at its limit price exactly when residue remains.
    ///
    /// Either way the operation is acknowledged positively (label `"A"`);
    /// the boolean reports whether residue rested, and gates the engine's
    /// top-of-book report.
    #[verifier::rlimit(100)]
    pub fn matching(book: &mut Book, incoming_order: LimitOrder) -> (r: Result<
        (Acknowledgment, bool),
        DefaultExchangeError,
    >)
        requires
            match_requires(*old(book), incoming_order),
        ensures
            match r {
                Ok((ack, rested)) => {
                    &&& ack.label@ == "A"@
                    &&& ack.user_id == incoming_order.user_id
                    &&& ack.user_order_id == incoming_order.order_id
                    &&& match_effect(*old(book), incoming_order, *final(book), rested)
                },
                Err(_) => false,
            },
    {
        let ghost pre = *book;
        let ghost side = incoming_order.side;
        let ghost opp = incoming_order.side.spec_opposite();
        let mut taker = incoming_order;
        let opposite = taker.side().opposite();
        proof {
            assert forall|p: u64| #[trigger]
                fifo_suffix(
                    ids_at(book.levels_of(opp), p),
                    ids_at(pre.levels_of(opp), p),
                ) by {
                lemma_fifo_suffix_basics(ids_at(pre.levels_of(opp), p));
            }
            // nothing is consumed yet
            assert forall|k: int| 0 <= k < pre.orders().len() implies #[trigger] consumed_term(
                pre,
                opp,
            )(pre.orders()[k]) == 0 by {
                crate::book::lemma_index_found(pre.orders_by_id, k);
            }
            lemma_isum_zero(pre.orders(), consumed_term(pre, opp));
        }
        loop
            invariant_except_break
                forall|id: u64|
                    #[trigger] book.spec_contains(id) ==> pre.spec_contains(id) && book.spec_get(id)
                        == pre.spec_get(id),
            invariant
                book.wf(),
                book.uncrossed(),
                opposite == opp,
                opp == side.spec_opposite(),
                side == incoming_order.side,
                same_identity(taker, incoming_order),
                taker.valid(),
                taker.status == OrderStatus::Open || taker.status == OrderStatus::Partial
                    || taker.status == OrderStatus::Completed,
                !book.spec_contains(taker.order_id),
                book.side_book(side) == pre.side_book(side),
                book.count_of(side) == pre.count_of(side),
                book.volume_of(side) == pre.volume_of(side),
                book.volume_of(opp) == pre.volume_of(opp) - taker.filled,
                consumed_from(pre, *book, opp) == taker.filled,
                match_requires(pre, incoming_order),
                forall|p: u64|
                    #[trigger] fifo_suffix(
                        ids_at(book.levels_of(opp), p),
                        ids_at(pre.levels_of(opp), p),
                    ),
                forall|id: u64|
                    #[trigger] pre.spec_contains(id) && !book.spec_contains(id) ==> pre.spec_get(
                        id,
                    ).side == opp && crosses(taker, pre.spec_get(id).price),
                forall|p: u64, q: u64|
                    price_before(opp, q, p) && #[trigger] ids_at(book.levels_of(opp), p) != ids_at(
                        pre.levels_of(opp),
                        p,
                    ) ==> #[trigger] ids_at(book.levels_of(opp), q).len() == 0,
            ensures
                book.wf(),
                book.uncrossed(),
                same_identity(taker, incoming_order),
                taker.valid(),
                taker.status == OrderStatus::Open || taker.status == OrderStatus::Partial
                    || taker.status == OrderStatus::Completed,
                !book.spec_contains(taker.order_id),
                book.side_book(side) == pre.side_book(side),
                book.count_of(side) == pre.count_of(side),
                book.volume_of(side) == pre.volume_of(side),
                book.volume_of(opp) == pre.volume_of(opp) - taker.filled,
                consumed_from(pre, *book, opp) == taker.filled,
                forall|p: u64|
                    #[trigger] fifo_suffix(
                        ids_at(book.levels_of(opp), p),
                        ids_at(pre.levels_of(opp), p),
                    ),
                forall|id: u64|
                    #[trigger] book.spec_contains(id) ==> pre.spec_contains(id) && same_identity(
                        book.spec_get(id),
                        pre.spec_get(id),
                    ) && book.spec_get(id).filled >= pre.spec_get(id).filled,
                forall|id: u64|
                    #[trigger] book.spec_contains(id) && book.spec_get(id) != pre.spec_get(id)
                        ==> {
                        let m = book.spec_get(id);
                        &&& m.side == opp
                        &&& crosses(taker, m.price)
                        &&& ids_at(book.levels_of(opp), m.price).len() > 0
                        &&& ids_at(book.levels_of(opp), m.price)[0] == id
                        &&& forall|q: u64|
                            price_before(opp, q, m.price) ==> #[trigger] ids_at(
                                book.levels_of(opp),
                                q,
                            ).len() == 0
                    },
                forall|id: u64|
                    #[trigger] pre.spec_contains(id) && !book.spec_contains(id) ==> pre.spec_get(
                        id,
                    ).side == opp && crosses(taker, pre.spec_get(id).price),
                forall|p: u64, q: u64|
                    price_before(opp, q, p) && #[trigger] ids_at(book.levels_of(opp), p) != ids_at(
                        pre.levels_of(opp),
                        p,
                    ) ==> #[trigger] ids_at(book.levels_of(opp), q).len() == 0,
                taker.spec_is_closed() || book.side_book(opp).spec_is_empty() || !crosses(
                    taker,
                    book.side_book(opp).spec_top_price(),
                ),
            decreases book.orders().len() + (if taker.spec_is_closed() {
                0int
            } else {
                1int
            }),
        {
            if taker.is_closed() {
                break ;
            }
            let ghost book0 = *book;
            let maker_clone: LimitOrder;
            match book.peek(&opposite) {
                None => {
                    break ;
                },
                Some(top_order) => {
                    maker_clone = top_order.clone();
                },
            }
            let ghost maker0 = maker_clone;
            let ghost taker0 = taker;
            let mut maker = maker_clone;
            proof {
                // the resting head is a valid open opposite order at the top
                // price
                assert(book0.spec_get(maker0.order_id) == maker0);
                let k = book0.orders_by_id.spec_index_of(maker0.order_id);
                assert(book0.orders()[k] == maker0);
                assert(maker0.valid() && !maker0.spec_is_closed());
                assert(maker0.side == opp && maker0.price == book0.side_book(
                    opp,
                ).spec_top_price());
            }
            match TradeImpl::try_new(&mut maker, &mut taker) {
                Err(_) => {
                    proof {
                        // both orders are open and at opposite sides, so only
                        // a price miss stops the loop here
                        assert(!crosses(taker, maker0.price));
                    }
                    break ;
                },
                Ok(_trade) => {
                    if maker.is_closed() {
                        let _ = book.pop(&opposite);
                        proof {
                            let tp = book0.side_book(opp).spec_top_price();
                            assert(Book::pop_effect(book0, opp, *book));
                            let k = book0.orders_by_id.spec_index_of(maker0.order_id);
                            book0.orders().remove_ensures(k);
                            // maker completed: its whole remainder was exchanged
                            assert(maker.filled == maker.quantity);
                            // suffixes: the top FIFO lost its head, others stand
                            assert forall|p: u64| #[trigger]
                                fifo_suffix(
                                    ids_at(book.levels_of(opp), p),
                                    ids_at(pre.levels_of(opp), p),
                                ) by {
                                if p == tp {
                                    assert(ids_at(book.levels_of(opp), p) == ids_at(
                                        book0.levels_of(opp),
                                        p,
                                    ).drop_first());
                                    lemma_fifo_suffix_drop(
                                        ids_at(book0.levels_of(opp), p),
                                        ids_at(pre.levels_of(opp), p),
                                    );
                                } else {
                                    assert(ids_at(book.levels_of(opp), p) == ids_at(
                                        book0.levels_of(opp),
                                        p,
                                    ));
                                }
                            }
                            // uncrossed: removal keeps every remaining pair
                            assert forall|i: int, j: int|
                                0 <= i < book.orders().len() && 0 <= j < book.orders().len() && (
                                #[trigger] book.orders()[i]).side == Side::Ask && (
                                #[trigger] book.orders()[j]).side == Side::Bid implies book.orders()[i].price
                                > book.orders()[j].price by {
                                let i0 = if i < k {
                                    i
                                } else {
                                    i + 1
                                };
                                let j0 = if j < k {
                                    j
                                } else {
                                    j + 1
                                };
                                assert(book.orders()[i] == book0.orders()[i0]);
                                assert(book.orders()[j] == book0.orders()[j0]);
                            }
                            // the departed maker's price was crossed
                            assert(crosses(taker0, maker0.price));
                            assert(crosses(taker, maker0.price));
                            // per-order accounting: only the maker's term
                            // grew, by its whole remainder
                            let km = pre.orders_by_id.spec_index_of(maker0.order_id);
                            assert(pre.spec_contains(maker0.order_id) && pre.spec_get(
                                maker0.order_id,
                            ) == maker0);
                            assert(0 <= km < pre.orders().len() && pre.orders()[km] == maker0);
                            assert forall|m: int|
                                0 <= m < pre.orders().len() && m != km implies #[trigger] consumed_term(
                                *book,
                                opp,
                            )(pre.orders()[m]) == consumed_term(book0, opp)(pre.orders()[m]) by {
                                let x = pre.orders()[m];
                                assert(x.order_id != maker0.order_id);
                            }
                            lemma_isum_pointwise_except(
                                pre.orders(),
                                consumed_term(*book, opp),
                                consumed_term(book0, opp),
                                km,
                            );
                            assert(consumed_term(book0, opp)(maker0) == 0);
                            assert(consumed_term(*book, opp)(maker0) == maker0.spec_remaining());
                            assert forall|id: u64|
                                #[trigger] pre.spec_contains(id) && !book.spec_contains(id) implies pre.spec_get(
                                id,
                            ).side == opp && crosses(taker, pre.spec_get(id).price) by {
                                if book0.spec_contains(id) {
                                    assert(id == maker0.order_id);
                                    assert(pre.spec_get(id) == maker0);
                                }
                            }
                            // a level is touched only with every better one spent
                            assert forall|p: u64, q: u64|
                                price_before(opp, q, p) && #[trigger] ids_at(
                                    book.levels_of(opp),
                                    p,
                                ) != ids_at(pre.levels_of(opp), p) implies #[trigger] ids_at(
                                book.levels_of(opp),
                                q,
                            ).len() == 0 by {
                                lemma_level_at(book0.side_book(opp), 0);
                                assert(ids_at(book0.levels_of(opp), tp).len() > 0);
                                if ids_at(book0.levels_of(opp), p) != ids_at(
                                    pre.levels_of(opp),
                                    p,
                                ) {
                                    assert(ids_at(book0.levels_of(opp), q).len() == 0);
                                    assert(q != tp);
                                    assert(ids_at(book.levels_of(opp), q) == ids_at(
                                        book0.levels_of(opp),
                                        q,
                                    ));
                                } else {
                                    if p != tp {
                                        assert(ids_at(book.levels_of(opp), p) == ids_at(
                                            book0.levels_of(opp),
                                            p,
                                        ));
                                        assert(false);
                                    }
                                    if ids_at(book0.levels_of(opp), q).len() > 0 {
                                        lemma_top_price_best(book0.side_book(opp), q);
                                        assert(false);
                                    }
                                    assert(q != tp);
                                    assert(ids_at(book.levels_of(opp), q) == ids_at(
                                        book0.levels_of(opp),
                                        q,
                                    ));
                                }
                            }
                        }
                    } else {
                        book.update_order(maker);
                        proof {
                            assert(Book::update_effect(book0, maker, *book));
                            assert(taker.spec_is_closed());
                            // the partly filled maker traded within the limit
                            assert(crosses(taker0, maker0.price));
                            assert(maker.price == maker0.price);
                            assert(crosses(taker, maker.price));
                            // per-order accounting: only the maker's term
                            // grew, by the amount exchanged
                            let km = pre.orders_by_id.spec_index_of(maker0.order_id);
                            assert(pre.spec_contains(maker0.order_id) && pre.spec_get(
                                maker0.order_id,
                            ) == maker0);
                            assert(0 <= km < pre.orders().len() && pre.orders()[km] == maker0);
                            assert forall|m: int|
                                0 <= m < pre.orders().len() && m != km implies #[trigger] consumed_term(
                                *book,
                                opp,
                            )(pre.orders()[m]) == consumed_term(book0, opp)(pre.orders()[m]) by {
                                let x = pre.orders()[m];
                                assert(x.order_id != maker0.order_id);
                            }
                            lemma_isum_pointwise_except(
                                pre.orders(),
                                consumed_term(*book, opp),
                                consumed_term(book0, opp),
                                km,
                            );
                            assert(consumed_term(book0, opp)(maker0) == 0);
                            assert(consumed_term(*book, opp)(maker0) == maker.filled
                                - maker0.filled);
                            // the side books did not move at all
                            assert(book.side_book(opp) == book0.side_book(opp));
                            assert(forall|p: u64| #[trigger]
                                ids_at(book.levels_of(opp), p) == ids_at(
                                    book0.levels_of(opp),
                                    p,
                                ));
                            // nothing departed in this step
                            assert forall|id: u64| #[trigger]
                                book.spec_contains(id) <==> book0.spec_contains(id) by {
                                if id == maker.order_id {
                                    assert(book.spec_contains(id) && book0.spec_contains(id));
                                }
                            }
                            assert forall|p: u64| #[trigger]
                                fifo_suffix(
                                    ids_at(book.levels_of(opp), p),
                                    ids_at(pre.levels_of(opp), p),
                                ) by {
                                assert(ids_at(book.levels_of(opp), p) == ids_at(
                                    book0.levels_of(opp),
                                    p,
                                ));
                            }
                            // uncrossed: only the fill state of one order moved
                            let k = book0.orders_by_id.spec_index_of(maker.order_id);
                            assert forall|i: int, j: int|
                                0 <= i < book.orders().len() && 0 <= j < book.orders().len() && (
                                #[trigger] book.orders()[i]).side == Side::Ask && (
                                #[trigger] book.orders()[j]).side == Side::Bid implies book.orders()[i].price
                                > book.orders()[j].price by {
                                assert(book.orders()[i].price == book0.orders()[i].price
                                    && book.orders()[i].side == book0.orders()[i].side);
                                assert(book.orders()[j].price == book0.orders()[j].price
                                    && book.orders()[j].side == book0.orders()[j].side);
                            }
                            // the partly filled maker is the head of the best
                            // level, and nothing rests ahead of it
                            assert forall|id: u64|
                                #[trigger] book.spec_contains(id) && book.spec_get(id)
                                    != pre.spec_get(id) implies {
                                let m = book.spec_get(id);
                                &&& m.side == opp
                                &&& ids_at(book.levels_of(opp), m.price).len() > 0
                                &&& ids_at(book.levels_of(opp), m.price)[0] == id
                                &&& forall|q: u64|
                                    price_before(opp, q, m.price) ==> #[trigger] ids_at(
                                        book.levels_of(opp),
                                        q,
                                    ).len() == 0
                            } by {
                                assert(id == maker.order_id);
                                let m = book.spec_get(id);
                                assert(m == maker);
                                let sb = book.side_book(opp);
                                lemma_level_at(sb, 0);
                                assert(ids_at(book.levels_of(opp), m.price)[0] == id);
                                assert forall|q: u64|
                                    price_before(opp, q, m.price) implies #[trigger] ids_at(
                                    book.levels_of(opp),
                                    q,
                                ).len() == 0 by {
                                    if ids_at(book.levels_of(opp), q).len() > 0 {
                                        lemma_top_price_best(sb, q);
                                        assert(false);
                                    }
                                }
                            }
                        }
                        break ;
                    }
                },
            }
        }
        let rested = !taker.is_closed();
        let ghost mid = *book;
        let ack = Acknowledgment {
            label: "A".to_owned(),
            user_id: taker.user_id(),
            user_order_id: taker.id(),
        };
        if rested {
            proof {
                assert(taker.filled < taker.quantity);
                assert(mid.volume_of(Side::Ask) + mid.volume_of(Side::Bid) + taker.spec_remaining()
                    <= u64::MAX);
            }
            book.insert(taker.clone());
            proof {
                let post = *book;
                assert(Book::place_effect(mid, taker, post));
                // resting the residue consumes nothing further
                assert forall|k: int| 0 <= k < pre.orders().len() implies #[trigger] consumed_term(
                    post,
                    opp,
                )(pre.orders()[k]) == consumed_term(mid, opp)(pre.orders()[k]) by {
                    let x = pre.orders()[k];
                    crate::book::lemma_index_found(pre.orders_by_id, k);
                    assert(x.order_id != taker.order_id);
                }
                lemma_isum_pointwise(pre.orders(), consumed_term(post, opp), consumed_term(mid, opp));
                // nothing on the opposite side crosses the rested residue
                assert forall|i: int, j: int|
                    0 <= i < post.orders().len() && 0 <= j < post.orders().len() && (
                    #[trigger] post.orders()[i]).side == Side::Ask && (
                    #[trigger] post.orders()[j]).side == Side::Bid implies post.orders()[i].price
                    > post.orders()[j].price by {
                    let n = mid.orders().len() as int;
                    if i < n && j < n {
                        assert(post.orders()[i] == mid.orders()[i]);
                        assert(post.orders()[j] == mid.orders()[j]);
                    } else if i < n || j < n {
                        let other = if i < n {
                            mid.orders()[i]
                        } else {
                            mid.orders()[j]
                        };
                        assert(other.side == opp);
                        assert(ids_at(mid.levels_of(other.side), other.price).contains(
                            other.order_id,
                        ));
                        if mid.side_book(opp).spec_is_empty() {
                            assert(!crate::book::has_level(mid.levels_of(opp), other.price));
                            assert(false);
                        } else {
                            let tp = mid.side_book(opp).spec_top_price();
                            assert(!crosses(taker, tp));
                            lemma_top_price_best(mid.side_book(opp), other.price);
                        }
                    }
                }
                assert(post.uncrossed());
            }
        }
        proof {
            assert(match_effect(pre, incoming_order, *book, rested));
        }
        Ok((ack, rested))
    }
}

impl Book {
    /// Match an incoming order against this book with the default matching
    /// engine; see [`MatchingEngine::matching`].
    pub fn matching(&mut self, incoming_order: LimitOrder) -> (r: Result<
        (Acknowledgment, bool),
        DefaultExchangeError,
    >)
        requires
            match_requires(*old(self), incoming_order),
        ensures
            match r {
                Ok((ack, rested)) => {
                    &&& ack.label@ == "A"@
                    &&& ack.user_id == incoming_order.user_id
                    &&& ack.user_order_id == incoming_order.order_id
                    &&& match_effect(*old(self), incoming_order, *final(self), rested)
                },
                Err(_) => false,
            },
    {
        MatchingEngine::matching(self, incoming_order)
    }
}

/// The acknowledgement event of one operation: label `"A"` with the user
/// and user order ids.
pub open spec fn ack_event_ok(e: Event, user_id: u64, user_order_id: u64) -> bool {
    match e {
        Event::Ack(a) => a.label@ == "A"@ && a.user_id == user_id && a.user_order_id
            == user_order_id,
        _ => false,
    }
}

/// The top-of-book event over the state after an operation: when both
/// sides rest the bid side is reported (the lower price); with one side,
/// that side; with an empty book, the placeholder `"-"` with zeros.
pub open spec fn top_event_ok(book: Book, e: Event) -> bool {
    match e {
        Event::BookTop(t) => {
            &&& t.label@ == "B"@
            &&& if !book.side_book(Side::Bid).spec_is_empty() {
                t.side@ == "B"@ && t.price == book.side_book(Side::Bid).spec_top_price()
                    && t.total_qty == book.volume_of(Side::Bid)
            } else if !book.side_book(Side::Ask).spec_is_empty() {
                t.side@ == "S"@ && t.price == book.side_book(Side::Ask).spec_top_price()
                    && t.total_qty == book.volume_of(Side::Ask)
            } else {
                t.side@ == "-"@ && t.price == 0 && t.total_qty == 0
            }
        },
        _ => false,
    }
}

/// What the engine owes of an operation before processing it: a creation
/// with a real (non-zero) price must carry a positive quantity, an id that
/// is not already resting, and a quantity the book still has room for.
/// The producer guarantees these; the zero price itself is rejected by the
/// engine.
pub open spec fn admissible(book: Book, req: OrderRequest) -> bool {
    match req {
        OrderRequest::Create { price, qty, user_order_id, .. } => price > 0 ==> {
            &&& qty > 0
            &&& !book.spec_contains(user_order_id)
            &&& book.volume_of(Side::Ask) + book.volume_of(Side::Bid) + qty <= u64::MAX
        },
        _ => true,
    }
}

/// The observable behaviour of one engine operation, over the book model
/// and the emitted events.
///
/// - A creation with price zero fails with `MarketUnsupported` and leaves
///   the book alone.  Any other creation is matched: the acknowledgement
///   comes first, and a top-of-book event follows exactly when residue
///   rested.
/// - A cancel of a resting id removes it and acknowledges; a cancel of an
///   unknown id emits nothing and changes nothing.
/// - A flush empties the book and emits nothing.
pub open spec fn process_effect(
    pre: Book,
    req: OrderRequest,
    post: Book,
    r: Result<Vec<Event>, EngineError>,
) -> bool {
    match req {
        OrderRequest::Create { user_id, symbol, price, qty, side, user_order_id, unix_nano } => {
            if price == 0 {
                r == Err::<Vec<Event>, EngineError>(EngineError::MarketUnsupported) && post == pre
            } else {
                match r {
                    Ok(events) => {
                        let o = LimitOrder {
                            user_id,
                            order_id: user_order_id,
                            price,
                            quantity: qty,
                            side,
                            order_symbol: symbol,
                            timestamp: unix_nano,
                            filled: 0,
                            status: OrderStatus::Open,
                        };
                        let rested = events@.len() == 2;
                        &&& (events@.len() == 1 || events@.len() == 2)
                        &&& ack_event_ok(events@[0], user_id, user_order_id)
                        &&& match_effect(pre, o, post, rested)
                        &&& (rested ==> top_event_ok(post, events@[1]))
                    },
                    Err(_) => false,
                }
            }
        },
        OrderRequest::Cancel { user_id, user_order_id, .. } => match r {
            Ok(events) => {
                if pre.spec_contains(user_order_id) {
                    &&& events@.len() == 1
                    &&& ack_event_ok(events@[0], user_id, user_order_id)
                    &&& Book::remove_effect(pre, user_order_id, post)
                } else {
                    events@.len() == 0 && post == pre
                }
            },
            Err(_) => false,
        },
        OrderRequest::FlushBook => match r {
            Ok(events) => events@.len() == 0 && post.spec_is_empty(),
            Err(_) => false,
        },
    }
}

/// The engine: the single owner and only mutator of the book.  It consumes
/// a serial stream of operations and returns, for each, the events to
/// emit, in emission order.
#[derive(Debug)]
pub struct Engine {
    pub orderbook: Book,
}

impl Engine {
    /// The engine invariant: a well-formed book that the matcher has kept
    /// uncrossed.
    pub open spec fn wf(self) -> bool {
        self.orderbook.wf() && self.orderbook.uncrossed()
    }

    /// A fresh engine over an empty book.
    pub fn new() -> (r: Engine)
        ensures
            r.wf(),
            r.orderbook.spec_is_empty(),
            forall|id: u64| !r.orderbook.spec_contains(id),
            r.orderbook.volume_of(Side::Ask) == 0,
            r.orderbook.volume_of(Side::Bid) == 0,
    {
        Engine { orderbook: Book::new() }
    }

    /// The book under the engine.
    pub fn orderbook(&self) -> (r: &Book)
        ensures
            r == &self.orderbook,
    {
        &self.orderbook
    }

    /// Apply one operation and return the events it emits, in order; see
    /// [`process_effect`] for the exact behaviour.
    #[verifier::rlimit(100)]
    #[verifier::spinoff_prover]
    pub fn process(&mut self, incoming_order: OrderRequest) -> (r: Result<Vec<Event>, EngineError>)
        requires
            old(self).wf(),
            admissible(old(self).orderbook, incoming_order),
        ensures
            final(self).wf(),
            process_effect(old(self).orderbook, incoming_order, final(self).orderbook, r),
    {
        let ghost pre = self.orderbook;
        match incoming_order {
            OrderRequest::Create { user_id, symbol, price, qty, side, user_order_id, unix_nano } => {
                if price == 0 {
                    return Err(EngineError::MarketUnsupported);
                }
                let order = LimitOrder {
                    user_id,
                    order_id: user_order_id,
                    price,
                    quantity: qty,
                    side,
                    order_symbol: symbol,
                    timestamp: unix_nano,
                    filled: 0,
                    status: OrderStatus::Open,
                };
                let (ack, rested) = match MatchingEngine::matching(&mut self.orderbook, order) {
                    Ok(p) => p,
                    Err(e) => {
                        proof {
                            assert(false);
                        }
                        return Ok(Vec::new());
                    },
                };
                let mut events: Vec<Event> = Vec::new();
                events.push(Event::Ack(ack));
                if rested {
                    let (top_ask, top_bid) = self.orderbook.spread_option();
                    let (ask_volume, bid_volume) = self.orderbook.volume();
                    let top = match (top_ask, top_bid) {
                        (_, Some(bid_price)) => BookTop {
                            label: "B".to_owned(),
                            side: "B".to_owned(),
                            price: bid_price,
                            total_qty: bid_volume,
                        },
                        (Some(ask_price), None) => BookTop {
                            label: "B".to_owned(),
                            side: "S".to_owned(),
                            price: ask_price,
                            total_qty: ask_volume,
                        },
                        (None, None) => BookTop {
                            label: "B".to_owned(),
                            side: "-".to_owned(),
                            price: 0,
                            total_qty: 0,
                        },
                    };
                    events.push(Event::BookTop(top));
                }
                Ok(events)
            },
            OrderRequest::Cancel { user_id, user_order_id, .. } => {
                match self.orderbook.cancel(&user_order_id) {
                    Some(_removed) => {
                        proof {
                            // removal keeps the book uncrossed
                            let k = pre.orders_by_id.spec_index_of(user_order_id);
                            pre.orders().remove_ensures(k);
                            assert forall|i: int, j: int|
                                0 <= i < self.orderbook.orders().len() && 0 <= j
                                    < self.orderbook.orders().len() && (
                                #[trigger] self.orderbook.orders()[i]).side == Side::Ask && (
                                #[trigger] self.orderbook.orders()[j]).side == Side::Bid implies self.orderbook.orders()[i].price
                                > self.orderbook.orders()[j].price by {
                                let i0 = if i < k {
                                    i
                                } else {
                                    i + 1
                                };
                                let j0 = if j < k {
                                    j
                                } else {
                                    j + 1
                                };
                                assert(self.orderbook.orders()[i] == pre.orders()[i0]);
                                assert(self.orderbook.orders()[j] == pre.orders()[j0]);
                            }
                        }
                        let mut events: Vec<Event> = Vec::new();
                        events.push(
                            Event::Ack(
                                Acknowledgment { label: "A".to_owned(), user_id, user_order_id },
                            ),
                        );
                        Ok(events)
                    },
                    None => Ok(Vec::new()),
                }
            },
            OrderRequest::FlushBook => {
                self.orderbook.flush();
                Ok(Vec::new())
            },
        }
    }
}

} // verus!
