//! The queue-driven matcher: it takes an order and its book and finds the
//! set of matching trades, walking the opposite priority queue.

use vstd::prelude::*;

use crate::book::Books;
use crate::engine::crosses;
use crate::order::{LimitOrder, Side, TradeS};

verus! {

/// The outcome state of one matching run.
#[derive(Debug, Clone, Copy, PartialEq, Eq, Structural)]
pub enum MatchState {
    /// The incoming order was matched in full.
    Full,
    /// Part of the incoming order was matched; the rest is left over.
    Partial,
    /// Nothing was matched.
    NoMatch,
}

/// A match: the executed trades found by the matcher, whether the run was
/// full or partial, and the quantity left to complete a full match.
#[derive(Debug)]
pub struct Match<T> {
    pub matches: Vec<T>,
    pub state: MatchState,
    pub qty_left: u64,
}

impl<T: Copy> Match<T> {
    /// An empty match: no trades found yet.
    pub fn new() -> (r: Self)
        ensures
            r.matches@.len() == 0,
            r.state == MatchState::NoMatch,
            r.qty_left == 0,
    {
        Self { matches: Vec::with_capacity(4), state: MatchState::NoMatch, qty_left: 0 }
    }

    /// Record one executed trade.
    pub fn add_match(&mut self, trade: T)
        ensures
            final(self).matches@ == old(self).matches@.push(trade),
            final(self).state == old(self).state,
            final(self).qty_left == old(self).qty_left,
    {
        self.matches.push(trade)
    }

    /// The executed trades, in the order they were found.
    pub fn get_matches(&self) -> (r: Vec<T>)
        ensures
            r@ == self.matches@,
    {
        let mut r: Vec<T> = Vec::new();
        let mut i: usize = 0;
        while i < self.matches.len()
            invariant
                0 <= i <= self.matches@.len(),
                r@ == self.matches@.take(i as int),
            decreases self.matches@.len() - i,
        {
            r.push(self.matches[i]);
            proof {
                assert(self.matches@.take(i as int + 1) =~= self.matches@.take(i as int).push(
                    self.matches@[i as int],
                ));
            }
            i = i + 1;
        }
        proof {
            assert(self.matches@.take(self.matches@.len() as int) =~= self.matches@);
        }
        r
    }

    /// Set the run state; a `Full` or `NoMatch` state clears the leftover
    /// quantity.
    pub fn update_state(&mut self, state: MatchState)
        ensures
            final(self).state == state,
            final(self).matches@ == old(self).matches@,
            final(self).qty_left == match state {
                MatchState::Full | MatchState::NoMatch => 0u64,
                MatchState::Partial => old(self).qty_left,
            },
    {
        match state {
            MatchState::Full | MatchState::NoMatch => self.update_qty_left(0),
            MatchState::Partial => (),
        }
        self.state = state
    }

    /// The run state.
    pub fn get_state(&self) -> (r: MatchState)
        ensures
            r == self.state,
    {
        self.state
    }

    /// Set the quantity left to complete a full match.
    pub fn update_qty_left(&mut self, qty: u64)
        ensures
            final(self).qty_left == qty,
            final(self).state == old(self).state,
            final(self).matches@ == old(self).matches@,
    {
        self.qty_left = qty
    }

    /// The quantity left to complete a full match.
    pub fn get_qty_left(&self) -> (r: u64)
        ensures
            r == self.qty_left,
    {
        self.qty_left
    }

    /// Whether the run matched only part of the incoming order.
    pub fn is_partial(&self) -> (r: bool)
        ensures
            r == (self.state == MatchState::Partial),
    {
        self.state == MatchState::Partial
    }
}

/// The walked queue loses a prefix and nothing else: what is left is the
/// untouched tail.
pub open spec fn queue_consumed_from_front(
    pre: Seq<crate::order::OrderIndex>,
    post: Seq<crate::order::OrderIndex>,
) -> bool {
    post.len() <= pre.len() && post == pre.skip(pre.len() - post.len())
}

/// One recorded pair of trade legs: first the incoming (taker) leg, then
/// the resting (maker) leg.  Both carry the same positive quantity, priced
/// at the maker's resting price, which the incoming limit crosses; the
/// maker leg names an order that rested in the walked book, and no leg
/// trades more than either order's quantity.
pub open spec fn trade_pair_ok(a: TradeS, b: TradeS, incoming: LimitOrder, pre: Books) -> bool {
    &&& a.order_id == incoming.order_id
    &&& a.side == incoming.side
    &&& b.side == incoming.side.spec_opposite()
    &&& a.price == b.price
    &&& a.quantity == b.quantity
    &&& a.quantity > 0
    &&& crosses(incoming, b.price)
    &&& pre.orders.spec_contains(b.order_id)
    &&& pre.orders.spec_get(b.order_id).price == b.price
    &&& pre.orders.spec_get(b.order_id).side == incoming.side.spec_opposite()
    &&& a.quantity <= pre.orders.spec_get(b.order_id).quantity
    &&& a.quantity <= incoming.quantity
}

/// The incoming order's open quantity before pair `m` of the trade legs
/// appended from position `n0`: the starting quantity `q0` less what the
/// earlier pairs traded.
pub open spec fn open_qty_before(trades: Seq<TradeS>, n0: int, m: int, q0: int) -> int
    decreases m,
{
    if m <= 0 {
        q0
    } else {
        open_qty_before(trades, n0, m - 1, q0) - trades[n0 + 2 * (m - 1)].quantity
    }
}

/// Stepping the pair window past its first pair moves that pair's quantity
/// into the starting budget.
pub proof fn lemma_open_qty_shift(trades: Seq<TradeS>, n0: int, m: int, q0: int)
    requires
        m >= 1,
    ensures
        open_qty_before(trades, n0, m, q0) == open_qty_before(
            trades,
            n0 + 2,
            m - 1,
            q0 - trades[n0].quantity,
        ),
    decreases m,
{
    if m == 1 {
        assert(open_qty_before(trades, n0, 0, q0) == q0);
        assert(open_qty_before(trades, n0 + 2, 0, q0 - trades[n0].quantity) == q0 - trades[n0].quantity);
        assert(open_qty_before(trades, n0, 1, q0) == q0 - trades[n0].quantity);
    } else {
        lemma_open_qty_shift(trades, n0, m - 1, q0);
        assert(open_qty_before(trades, n0, m, q0) == open_qty_before(trades, n0, m - 1, q0)
            - trades[n0 + 2 * (m - 1)].quantity);
        assert(open_qty_before(trades, n0 + 2, m - 1, q0 - trades[n0].quantity)
            == open_qty_before(trades, n0 + 2, m - 2, q0 - trades[n0].quantity) - trades[n0 + 2 + 2
            * (m - 2)].quantity);
        assert(n0 + 2 + 2 * (m - 2) == n0 + 2 * (m - 1));
    }
}

/// The matcher: takes an order and its book and attempts to find a set of
/// matching trades (bids to asks and vice-versa).
#[derive(Debug)]
pub struct Matcher;

impl Matcher {
    /// The resting order the incoming side would trade against: the head
    /// of the opposite queue.
    pub fn get_opposite_order(side: Side, orderbook: &Books) -> (r: Option<&LimitOrder>)
        requires
            orderbook.wf(),
        ensures
            r == None::<&LimitOrder> <==> orderbook.queue_of(side.spec_opposite()).len() == 0,
            match r {
                Some(o) => *o == orderbook.orders.spec_get(
                    orderbook.queue_of(side.spec_opposite())[0].order_id,
                ),
                None => true,
            },
    {
        match side {
            Side::Bid => orderbook.peek_top_ask(),
            Side::Ask => orderbook.peek_top_bid(),
        }
    }

    /// Whether the incoming order's limit permits trading at the opposite
    /// order's price.
    pub fn is_within_price_limit(order: &LimitOrder, opp_order: &LimitOrder) -> (r: bool)
        ensures
            r == crosses(*order, opp_order.price),
    {
        match order.side {
            Side::Bid => order.price >= opp_order.price,
            Side::Ask => order.price <= opp_order.price,
        }
    }

    /// Match one order against the book.
    ///
    /// If the head of the opposite queue is within the price limit, the
    /// matcher executes trades against it and, on a partial fill of the
    /// incoming order, on down the queue — re-checking the limit against
    /// each next maker; leftovers rest on the book at the recorded
    /// leftover quantity.  An order that cannot trade at all rests whole,
    /// with no trades recorded.
    pub fn match_order(&self, order: LimitOrder, orderbook: &mut Books) -> (m: Match<TradeS>)
        requires
            old(orderbook).wf(),
            order.quantity > 0,
            !old(orderbook).orders.spec_contains(order.order_id),
        ensures
            final(orderbook).wf(),
            m.state == MatchState::NoMatch ==> m.matches@.len() == 0 && m.qty_left == 0 && final(orderbook).orders.spec_contains(order.order_id) && final(orderbook).orders.spec_get(
                order.order_id,
            ) == order,
            m.state == MatchState::Partial ==> {
                &&& 0 < m.qty_left < order.quantity
                &&& final(orderbook).orders.spec_contains(order.order_id)
                &&& final(orderbook).orders.spec_get(order.order_id) == (LimitOrder {
                    quantity: m.qty_left,
                    ..order
                })
            },
            m.state == MatchState::Full ==> m.qty_left == 0 && !final(orderbook).orders.spec_contains(order.order_id),
            forall|t: int| 0 <= t < m.matches@.len() ==> (#[trigger] m.matches@[t]).quantity > 0,
            queue_consumed_from_front(
                old(orderbook).queue_of(order.side.spec_opposite()),
                final(orderbook).queue_of(order.side.spec_opposite()),
            ),
            forall|id: u64|
                id != order.order_id && #[trigger] final(orderbook).orders.spec_contains(id)
                    ==> old(orderbook).orders.spec_contains(id),
            m.state == MatchState::Full ==> final(orderbook).queue_of(order.side) == old(orderbook).queue_of(order.side),
            m.state != MatchState::Full ==> forall|x: crate::order::OrderIndex|
                #[trigger] final(orderbook).queue_of(order.side).contains(x) <==> (old(orderbook).queue_of(order.side).contains(x) || x == crate::order::key_of(order)),
            // nothing is matched exactly when there is no opposite head or
            // its price misses the incoming limit
            m.state == MatchState::NoMatch <==> (old(orderbook).queue_of(
                order.side.spec_opposite(),
            ).len() == 0 || !crosses(
                order,
                old(orderbook).orders.spec_get(
                    old(orderbook).queue_of(order.side.spec_opposite())[0].order_id,
                ).price,
            )),
            // recorded legs come in (taker, maker) pairs against resting
            // makers, each within the incoming limit and by the smaller
            // open quantity of its step
            m.matches@.len() % 2 == 0,
            forall|t: int|
                0 <= t < m.matches@.len() && t % 2 == 0 ==> t + 1 < m.matches@.len()
                    && trade_pair_ok(
                    #[trigger] m.matches@[t],
                    m.matches@[t + 1],
                    order,
                    *old(orderbook),
                ),
            forall|k: int|
                0 <= k && 2 * k < m.matches@.len() ==> {
                    let a = m.matches@[2 * k];
                    let b = m.matches@[2 * k + 1];
                    let budget = #[trigger] open_qty_before(
                        m.matches@,
                        0,
                        k,
                        order.quantity as int,
                    );
                    a.quantity == if budget <= old(orderbook).orders.spec_get(
                        b.order_id,
                    ).quantity as int {
                        budget
                    } else {
                        old(orderbook).orders.spec_get(b.order_id).quantity as int
                    }
                },
            // when trading happened, the head maker departed or keeps its
            // place with its quantity reduced by the first pair's amount
            m.state != MatchState::NoMatch ==> {
                let h = old(orderbook).queue_of(order.side.spec_opposite())[0].order_id;
                let was = old(orderbook).orders.spec_get(h);
                &&& m.matches@.len() >= 2
                &&& m.matches@[1].order_id == h
                &&& (!final(orderbook).orders.spec_contains(h) || final(orderbook).orders.spec_get(h) == (LimitOrder {
                    quantity: (was.quantity - m.matches@[0].quantity) as u64,
                    ..was
                }))
            },
    {
        let ghost pre = *orderbook;
        proof {
            assert(pre.queue_of(order.side.spec_opposite()).skip(0) =~= pre.queue_of(
                order.side.spec_opposite(),
            ));
        }
        let mut matches = Match::new();
        let opp: LimitOrder;
        match Matcher::get_opposite_order(order.side(), orderbook) {
            Some(opp_order) => {
                opp = opp_order.clone();
            },
            None => {
                let _ = orderbook.place(order);
                return matches;
            },
        }
        if Matcher::is_within_price_limit(&order, &opp) {
            Matcher::do_match(order.clone(), opp, orderbook, &mut matches);
            if matches.get_state() == MatchState::Partial {
                let mut left_over = order.clone();
                left_over.quantity = matches.get_qty_left();
                proof {
                    assert(crate::order::key_of(LimitOrder {
                        quantity: matches.qty_left,
                        ..order
                    }) == crate::order::key_of(order));
                }
                let _ = orderbook.place(left_over);
            }
            return matches;
        }
        let _ = orderbook.place(order);
        matches
    }

    /// Execute trades between the incoming order and the head of the
    /// opposite queue, and keep walking that queue — re-checking the price
    /// cross against each next maker — while the incoming order has
    /// quantity left.  Trades are recorded in (taker, maker) pairs at the
    /// resting order's price, each by the smaller of the two open
    /// quantities at that step; an exhausted maker is popped from the head
    /// of its queue, a partly matched one keeps its place with its
    /// quantity reduced.
    #[verifier::rlimit(100)]
    #[verifier::spinoff_prover]
    fn do_match(
        incoming_order: LimitOrder,
        opposite_order: LimitOrder,
        orderbook: &mut Books,
        matches: &mut Match<TradeS>,
    )
        requires
            old(orderbook).wf(),
            incoming_order.quantity > 0,
            !old(orderbook).orders.spec_contains(incoming_order.order_id),
            old(orderbook).queue_of(incoming_order.side.spec_opposite()).len() > 0,
            opposite_order == old(orderbook).orders.spec_get(
                old(orderbook).queue_of(incoming_order.side.spec_opposite())[0].order_id,
            ),
            crosses(incoming_order, opposite_order.price),
        ensures
            final(orderbook).wf(),
            !final(orderbook).orders.spec_contains(incoming_order.order_id),
            final(orderbook).queue_of(incoming_order.side) == old(orderbook).queue_of(
                incoming_order.side,
            ),
            queue_consumed_from_front(
                old(orderbook).queue_of(incoming_order.side.spec_opposite()),
                final(orderbook).queue_of(incoming_order.side.spec_opposite()),
            ),
            forall|id: u64|
                #[trigger] final(orderbook).orders.spec_contains(id) ==> old(orderbook).orders.spec_contains(id),
            final(matches).state == MatchState::Full || final(matches).state
                == MatchState::Partial,
            final(matches).state == MatchState::Full ==> final(matches).qty_left == 0,
            final(matches).state == MatchState::Partial ==> 0 < final(matches).qty_left
                < incoming_order.quantity,
            final(matches).matches@.len() >= old(matches).matches@.len() + 2,
            forall|t: int|
                0 <= t < old(matches).matches@.len() ==> #[trigger] final(matches).matches@[t]
                    == old(matches).matches@[t],
            forall|t: int|
                old(matches).matches@.len() <= t < final(matches).matches@.len() ==> (
                #[trigger] final(matches).matches@[t]).quantity > 0,
            // the appended legs form (taker, maker) pairs against resting
            // makers of the walked book, each within the incoming limit
            (final(matches).matches@.len() - old(matches).matches@.len()) % 2 == 0,
            forall|t: int|
                old(matches).matches@.len() <= t < final(matches).matches@.len() && (t - old(matches).matches@.len()) % 2 == 0 ==> t + 1 < final(matches).matches@.len()
                    && trade_pair_ok(
                    #[trigger] final(matches).matches@[t],
                    final(matches).matches@[t + 1],
                    incoming_order,
                    *old(orderbook),
                ),
            // the first pair trades the given head maker by the smaller
            // open quantity
            final(matches).matches@[old(matches).matches@.len() as int].quantity == (
            if incoming_order.quantity <= opposite_order.quantity {
                incoming_order.quantity
            } else {
                opposite_order.quantity
            }),
            final(matches).matches@[old(matches).matches@.len() + 1int].order_id
                == opposite_order.order_id,
            // every pair trades the smaller of the incoming order's open
            // quantity at that step and its maker's resting quantity
            forall|m: int|
                0 <= m && old(matches).matches@.len() + 2 * m < final(matches).matches@.len()
                    ==> {
                    let a = final(matches).matches@[old(matches).matches@.len() + 2 * m];
                    let b = final(matches).matches@[old(matches).matches@.len() + 2 * m + 1];
                    let budget = #[trigger] open_qty_before(
                        final(matches).matches@,
                        old(matches).matches@.len() as int,
                        m,
                        incoming_order.quantity as int,
                    );
                    a.quantity == if budget <= old(orderbook).orders.spec_get(
                        b.order_id,
                    ).quantity as int {
                        budget
                    } else {
                        old(orderbook).orders.spec_get(b.order_id).quantity as int
                    }
                },
            // a partly matched head keeps its place with its quantity
            // reduced; an exhausted head leaves its queue from the front
            incoming_order.quantity < opposite_order.quantity ==> {
                &&& final(matches).state == MatchState::Full
                &&& final(matches).matches@.len() == old(matches).matches@.len() + 2
                &&& final(orderbook).queue_of(incoming_order.side.spec_opposite()) == old(orderbook).queue_of(incoming_order.side.spec_opposite())
                &&& final(orderbook).orders.spec_contains(opposite_order.order_id)
                &&& final(orderbook).orders.spec_get(opposite_order.order_id) == (LimitOrder {
                    quantity: (opposite_order.quantity - incoming_order.quantity) as u64,
                    ..opposite_order
                })
                &&& forall|id: u64|
                    id != opposite_order.order_id ==> (#[trigger] final(orderbook).orders.spec_contains(id) <==> old(orderbook).orders.spec_contains(id))
                &&& forall|id: u64|
                    id != opposite_order.order_id && old(orderbook).orders.spec_contains(id)
                        ==> #[trigger] final(orderbook).orders.spec_get(id) == old(orderbook).orders.spec_get(id)
            },
            incoming_order.quantity == opposite_order.quantity ==> {
                &&& final(matches).state == MatchState::Full
                &&& final(matches).matches@.len() == old(matches).matches@.len() + 2
                &&& final(orderbook).queue_of(incoming_order.side.spec_opposite()) == old(orderbook).queue_of(incoming_order.side.spec_opposite()).drop_first()
                &&& !final(orderbook).orders.spec_contains(opposite_order.order_id)
                &&& forall|id: u64|
                    id != opposite_order.order_id ==> (#[trigger] final(orderbook).orders.spec_contains(id) <==> old(orderbook).orders.spec_contains(id))
                &&& forall|id: u64|
                    id != opposite_order.order_id && old(orderbook).orders.spec_contains(id)
                        ==> #[trigger] final(orderbook).orders.spec_get(id) == old(orderbook).orders.spec_get(id)
            },
            incoming_order.quantity > opposite_order.quantity ==> {
                &&& !final(orderbook).orders.spec_contains(opposite_order.order_id)
                &&& final(orderbook).queue_of(incoming_order.side.spec_opposite()).len() <= old(orderbook).queue_of(incoming_order.side.spec_opposite()).len() - 1
            },
        decreases orderbook.queue_of(incoming_order.side.spec_opposite()).len(),
    {
        let ghost pre = *orderbook;
        let ghost opp_side = incoming_order.side.spec_opposite();
        let ghost inc0 = incoming_order;
        let ghost n0 = matches.matches@.len() as int;
        proof {
            // the head of the opposite queue is an opposite-side order with
            // positive quantity
            let ix = pre.queue_of(opp_side)[0];
            assert(pre.queue_of(opp_side).contains(ix));
            let m = pre.orders.spec_index_of(ix.order_id);
            assert(pre.orders.orders@[m] == opposite_order);
            assert(opposite_order.order_id == ix.order_id);
            assert(pre.orders.spec_contains(opposite_order.order_id));
            assert(pre.orders.spec_get(opposite_order.order_id) == opposite_order);
            assert(opposite_order.side == opp_side);
            assert(opposite_order.quantity > 0);
        }
        let mut incoming_order = incoming_order;
        if incoming_order.quantity < opposite_order.quantity {
            matches.add_match(
                TradeS {
                    order_id: incoming_order.order_id,
                    side: incoming_order.side,
                    price: opposite_order.price,
                    quantity: incoming_order.quantity,
                    timestamp: 0,
                },
            );
            matches.add_match(
                TradeS {
                    order_id: opposite_order.order_id,
                    side: opposite_order.side,
                    price: opposite_order.price,
                    quantity: incoming_order.quantity,
                    timestamp: 0,
                },
            );
            orderbook.modify_quantity(
                opposite_order.order_id,
                opposite_order.quantity - incoming_order.quantity,
            );
            // the incoming order was matched in full
            matches.update_state(MatchState::Full);
            proof {
                let qo = pre.queue_of(opp_side);
                assert(qo.skip(0) =~= qo);
                assert(matches.matches@.len() == n0 + 2);
                assert(trade_pair_ok(
                    matches.matches@[n0],
                    matches.matches@[n0 + 1],
                    inc0,
                    pre,
                ));
                assert(open_qty_before(matches.matches@, n0, 0, inc0.quantity as int)
                    == inc0.quantity as int);
            }
        } else if incoming_order.quantity > opposite_order.quantity {
            matches.add_match(
                TradeS {
                    order_id: incoming_order.order_id,
                    side: incoming_order.side,
                    price: opposite_order.price,
                    quantity: opposite_order.quantity,
                    timestamp: 0,
                },
            );
            matches.add_match(
                TradeS {
                    order_id: opposite_order.order_id,
                    side: opposite_order.side,
                    price: opposite_order.price,
                    quantity: opposite_order.quantity,
                    timestamp: 0,
                },
            );
            // the incoming order was only partly matched
            incoming_order.quantity = incoming_order.quantity - opposite_order.quantity;
            matches.update_qty_left(incoming_order.quantity);
            matches.update_state(MatchState::Partial);
            let next: Option<LimitOrder>;
            match incoming_order.side {
                Side::Bid => {
                    // the top ask is spent: pop it, then look at the next one
                    let _ = orderbook.pop_top_ask();
                    next = match orderbook.peek_top_ask() {
                        Some(o) => Some(o.clone()),
                        None => None,
                    };
                },
                Side::Ask => {
                    let _ = orderbook.pop_top_bid();
                    next = match orderbook.peek_top_bid() {
                        Some(o) => Some(o.clone()),
                        None => None,
                    };
                },
            }
            let ghost mid = *orderbook;
            let ghost inc1 = incoming_order;
            let ghost trades_mid = matches.matches@;
            proof {
                assert(mid.queue_of(opp_side) =~= pre.queue_of(opp_side).skip(1));
                assert(trades_mid.len() == n0 + 2);
                assert(trade_pair_ok(trades_mid[n0], trades_mid[n0 + 1], inc0, pre));
            }
            if let Some(opposite) = next {
                // per the matching rules the price cross is checked against
                // every next maker before trading on
                if Matcher::is_within_price_limit(&incoming_order, &opposite) {
                    Matcher::do_match(incoming_order, opposite, orderbook, matches);
                }
            }
            proof {
                let qo = pre.queue_of(opp_side);
                let qm = mid.queue_of(opp_side);
                let qn = orderbook.queue_of(opp_side);
                assert(qn.len() <= qm.len());
                assert(qo.skip(1).skip(qm.len() - qn.len()) =~= qo.skip(
                    qo.len() - qn.len(),
                ));
                let trades = matches.matches@;
                let q0 = inc0.quantity as int;
                // the appended legs pair up against makers of the pre book
                assert forall|t: int|
                    n0 <= t < trades.len() && (t - n0) % 2 == 0 implies t + 1 < trades.len()
                        && trade_pair_ok(
                        #[trigger] trades[t],
                        trades[t + 1],
                        inc0,
                        pre,
                    ) by {
                    if t == n0 {
                        assert(trades[n0] == trades_mid[n0]);
                        assert(trades[n0 + 1] == trades_mid[n0 + 1]);
                    } else {
                        assert(t >= n0 + 2);
                        assert((t - (n0 + 2)) % 2 == 0);
                        assert(trade_pair_ok(trades[t], trades[t + 1], inc1, mid));
                        let b = trades[t + 1];
                        assert(b.order_id != opposite_order.order_id);
                        assert(pre.orders.spec_get(b.order_id) == mid.orders.spec_get(
                            b.order_id,
                        ));
                        assert(crosses(inc0, b.price));
                    }
                }
                // each pair trades the smaller open quantity of its step
                assert forall|m: int|
                    0 <= m && n0 + 2 * m < trades.len() implies {
                    let a = trades[n0 + 2 * m];
                    let b = trades[n0 + 2 * m + 1];
                    let budget = #[trigger] open_qty_before(trades, n0, m, q0);
                    a.quantity == if budget <= pre.orders.spec_get(b.order_id).quantity as int {
                        budget
                    } else {
                        pre.orders.spec_get(b.order_id).quantity as int
                    }
                } by {
                    if m == 0 {
                        assert(open_qty_before(trades, n0, 0, q0) == q0);
                        assert(trades[n0].quantity == opposite_order.quantity);
                        assert(trades[n0 + 1].order_id == opposite_order.order_id);
                    } else {
                        assert(n0 + 2 + 2 * (m - 1) < trades.len());
                        let b = trades[n0 + 2 * m + 1];
                        assert(open_qty_before(trades, n0 + 2, m - 1, inc1.quantity as int)
                            == open_qty_before(trades, n0, m, q0)) by {
                            lemma_open_qty_shift(trades, n0, m, q0);
                            assert(trades[n0].quantity == opposite_order.quantity);
                        }
                        assert(pre.orders.spec_get(b.order_id) == mid.orders.spec_get(
                            b.order_id,
                        ));
                    }
                }
            }
        } else {
            matches.add_match(
                TradeS {
                    order_id: incoming_order.order_id,
                    side: incoming_order.side,
                    price: opposite_order.price,
                    quantity: incoming_order.quantity,
                    timestamp: 0,
                },
            );
            matches.add_match(
                TradeS {
                    order_id: opposite_order.order_id,
                    side: opposite_order.side,
                    price: opposite_order.price,
                    quantity: opposite_order.quantity,
                    timestamp: 0,
                },
            );
            matches.update_state(MatchState::Full);
            match incoming_order.side {
                Side::Bid => {
                    let _ = orderbook.pop_top_ask();
                },
                Side::Ask => {
                    let _ = orderbook.pop_top_bid();
                },
            }
            proof {
                assert(orderbook.queue_of(opp_side) =~= pre.queue_of(opp_side).skip(1));
                assert(matches.matches@.len() == n0 + 2);
                assert(trade_pair_ok(
                    matches.matches@[n0],
                    matches.matches@[n0 + 1],
                    inc0,
                    pre,
                ));
                assert(open_qty_before(matches.matches@, n0, 0, inc0.quantity as int)
                    == inc0.quantity as int);
            }
        }
    }
}

} // verus!
