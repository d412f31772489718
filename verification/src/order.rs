//! Orders: sides, statuses, requests, and the limit order record.
//!
//! A limit order is an immutable identity (ids, price, quantity, side,
//! symbol, timestamp) plus a mutable fill state (`filled`, `status`).
//! `fill` and `cancel` are the only mutations; their contracts pin the
//! status machine exactly.

use vstd::prelude::*;
use vstd::string::*;

use crate::errors::{OrderError, OrderRequestError, PriceError, SideError, StatusError, TradeError};

verus! {

/// One operation of the inbound stream.
#[derive(Debug)]
pub enum OrderRequest {
    Create {
        user_id: u64,
        symbol: String,
        price: u64,
        qty: u64,
        side: Side,
        user_order_id: u64,
        unix_nano: u128,
    },
    Cancel { user_id: u64, user_order_id: u64, unix_nano: u128 },
    FlushBook,
}

/// The two sides of the book: `Ask` sells, `Bid` buys.
#[derive(Clone, Copy, Debug, PartialEq, Eq, Structural)]
pub enum Side {
    Ask,
    Bid,
}

impl Side {
    /// The other side.
    pub open spec fn spec_opposite(&self) -> Side {
        match self {
            Side::Ask => Side::Bid,
            Side::Bid => Side::Ask,
        }
    }

    #[verifier::when_used_as_spec(spec_opposite)]
    pub fn opposite(&self) -> (r: Side)
        ensures
            r == self.spec_opposite(),
    {
        match self {
            Side::Ask => Side::Bid,
            Side::Bid => Side::Ask,
        }
    }

    /// Decode a side from its wire form: `"S"` is an ask, `"B"` a bid, and
    /// every other string is an error.
    pub fn from_str(input: &str) -> (r: Result<Side, ()>)
        ensures
            r == Ok::<Side, ()>(Side::Ask) <==> input@ == "S"@,
            r == Ok::<Side, ()>(Side::Bid) <==> input@ == "B"@,
    {
        proof {
            reveal_strlit("S");
            reveal_strlit("B");
        }
        if input.unicode_len() == 1 {
            let c = input.get_char(0);
            if c == 'S' {
                proof {
                    assert(input@ =~= "S"@);
                }
                Ok(Side::Ask)
            } else if c == 'B' {
                proof {
                    assert(input@ =~= "B"@);
                }
                Ok(Side::Bid)
            } else {
                Err(())
            }
        } else {
            Err(())
        }
    }
}

/// The life-cycle states of an order.
///
/// `Open`: nothing filled; `Partial`: partly filled and still resting;
/// `Cancelled`: cancelled while `Open`; `Closed`: cancelled while
/// `Partial`; `Completed`: fully filled.
#[derive(Clone, Copy, Debug, PartialEq, Eq, Structural)]
pub enum OrderStatus {
    Open,
    Partial,
    Cancelled,
    Closed,
    Completed,
}

impl Default for OrderStatus {
    fn default() -> (r: Self)
        ensures
            r == OrderStatus::Open,
    {
        OrderStatus::Open
    }
}

/// A limit order.
#[derive(Debug)]
pub struct LimitOrder {
    pub user_id: u64,
    pub order_id: u64,
    pub price: u64,
    pub quantity: u64,
    pub side: Side,
    pub order_symbol: String,
    pub timestamp: u128,
    pub filled: u64,
    pub status: OrderStatus,
}

impl Clone for LimitOrder {
    fn clone(&self) -> (r: Self)
        ensures
            r == *self,
    {
        LimitOrder {
            user_id: self.user_id,
            order_id: self.order_id,
            price: self.price,
            quantity: self.quantity,
            side: self.side,
            order_symbol: self.order_symbol.clone(),
            timestamp: self.timestamp,
            filled: self.filled,
            status: self.status,
        }
    }
}

impl PartialEq for LimitOrder {
    /// Two limit orders are the same order exactly when their ids agree.
    fn eq(&self, other: &Self) -> (r: bool) {
        self.order_id == other.order_id
    }
}

impl Eq for LimitOrder {

}

impl vstd::std_specs::cmp::PartialEqSpecImpl for LimitOrder {
    open spec fn obeys_eq_spec() -> bool {
        true
    }

    open spec fn eq_spec(&self, other: &Self) -> bool {
        self.order_id == other.order_id
    }
}

impl LimitOrder {
    /// Quantity still to be traded.
    pub open spec fn spec_remaining(self) -> int {
        self.quantity - self.filled
    }

    /// Whether the order can trade no further.
    pub open spec fn spec_is_closed(self) -> bool {
        self.status == OrderStatus::Cancelled || self.status == OrderStatus::Closed
            || self.status == OrderStatus::Completed
    }

    /// Well-formedness of the fill state: the fill never exceeds the
    /// quantity, and the status agrees with the fill exactly.
    pub open spec fn valid(self) -> bool {
        &&& self.price > 0
        &&& self.quantity > 0
        &&& self.filled <= self.quantity
        &&& (self.status == OrderStatus::Completed <==> self.filled == self.quantity)
        &&& (self.status == OrderStatus::Open ==> self.filled == 0)
        &&& (self.status == OrderStatus::Partial ==> 0 < self.filled < self.quantity)
        &&& (self.status == OrderStatus::Cancelled ==> self.filled == 0)
        &&& (self.status == OrderStatus::Closed ==> 0 < self.filled < self.quantity)
    }

    /// The order after filling `amount`.
    pub open spec fn spec_fill(self, amount: u64) -> LimitOrder {
        LimitOrder {
            filled: (self.filled + amount) as u64,
            status: if self.filled + amount == self.quantity {
                OrderStatus::Completed
            } else {
                OrderStatus::Partial
            },
            ..self
        }
    }

    /// The order after a cancel: `Open` turns `Cancelled`, `Partial` turns
    /// `Closed`, closed statuses stay as they are.
    pub open spec fn spec_cancel(self) -> LimitOrder {
        if self.status == OrderStatus::Open {
            LimitOrder { status: OrderStatus::Cancelled, ..self }
        } else if self.status == OrderStatus::Partial {
            LimitOrder { status: OrderStatus::Closed, ..self }
        } else {
            self
        }
    }

    /// Whether maker and taker trade, and if not, why: closed orders first,
    /// then a side conflict, then incompatible prices.  They trade exactly
    /// when both are open, their sides are opposite, and the bid price is at
    /// least the ask price.
    pub open spec fn spec_matches(maker: LimitOrder, taker: LimitOrder) -> Result<(), TradeError> {
        if taker.spec_is_closed() || maker.spec_is_closed() {
            Err(TradeError::Status(StatusError::Closed))
        } else if maker.side == taker.side {
            Err(TradeError::Side(SideError::Conflict))
        } else {
            let ask_price = if taker.side == Side::Ask { taker.price } else { maker.price };
            let bid_price = if taker.side == Side::Bid { taker.price } else { maker.price };
            if bid_price >= ask_price {
                Ok(())
            } else {
                Err(TradeError::Price(PriceError::Incompatible))
            }
        }
    }

    pub fn id(&self) -> (r: u64)
        ensures
            r == self.order_id,
    {
        self.order_id
    }

    pub fn user_id(&self) -> (r: u64)
        ensures
            r == self.user_id,
    {
        self.user_id
    }

    pub fn side(&self) -> (r: Side)
        ensures
            r == self.side,
    {
        self.side
    }

    pub fn status(&self) -> (r: OrderStatus)
        ensures
            r == self.status,
    {
        self.status
    }

    /// Quantity still to be traded.
    pub fn remaining(&self) -> (r: u64)
        requires
            self.filled <= self.quantity,
        ensures
            r == self.spec_remaining(),
    {
        self.quantity - self.filled
    }

    pub fn is_closed(&self) -> (r: bool)
        ensures
            r == self.spec_is_closed(),
    {
        matches!(self.status, OrderStatus::Cancelled | OrderStatus::Closed | OrderStatus::Completed)
    }

    /// A limit order always carries its limit price.
    pub fn limit_price(&self) -> (r: Option<u64>)
        ensures
            r == Some(self.price),
    {
        Some(self.price)
    }

    /// Fill the order by `amount`, rejecting an empty or excessive fill and
    /// leaving the order unchanged in those cases.
    pub fn try_fill(&mut self, amount: u64) -> (r: Result<(), OrderError>)
        requires
            old(self).filled <= old(self).quantity,
        ensures
            amount == 0 ==> r == Err::<(), OrderError>(OrderError::NoFill) && *final(self) == *old(self),
            amount > old(self).spec_remaining() ==> r == Err::<(), OrderError>(OrderError::Overfill)
                && *final(self) == *old(self),
            0 < amount <= old(self).spec_remaining() ==> r == Ok::<(), OrderError>(())
                && *final(self) == old(self).spec_fill(amount),
    {
        if amount == 0 {
            return Err(OrderError::NoFill);
        }
        if amount > self.remaining() {
            return Err(OrderError::Overfill);
        }
        self.filled = self.filled + amount;
        self.status = if self.remaining() == 0 {
            OrderStatus::Completed
        } else {
            OrderStatus::Partial
        };
        Ok(())
    }

    /// Fill the order by `amount`.  The caller owes a positive amount within
    /// the remaining quantity; the status becomes `Completed` exactly when
    /// the order is now fully filled, and `Partial` otherwise.
    pub fn fill(&mut self, amount: u64)
        requires
            old(self).filled <= old(self).quantity,
            0 < amount <= old(self).spec_remaining(),
        ensures
            *final(self) == old(self).spec_fill(amount),
    {
        let _ = self.try_fill(amount);
    }

    /// Cancel the order: `Open` turns `Cancelled`, `Partial` turns `Closed`,
    /// and a closed order is left alone.
    pub fn cancel(&mut self)
        ensures
            *final(self) == old(self).spec_cancel(),
    {
        match self.status {
            OrderStatus::Open => self.status = OrderStatus::Cancelled,
            OrderStatus::Partial => self.status = OrderStatus::Closed,
            _ => (),
        }
    }

    /// Whether `self` (the maker) and `other` (the taker) trade; see
    /// [`LimitOrder::spec_matches`] for the exact rule.
    pub fn matches(&self, other: &LimitOrder) -> (r: Result<(), TradeError>)
        ensures
            r == LimitOrder::spec_matches(*self, *other),
    {
        let maker = self;
        let taker = other;
        if taker.is_closed() || maker.is_closed() {
            return Err(TradeError::Status(StatusError::Closed));
        }
        match (taker.side, maker.side) {
            (Side::Ask, Side::Bid) => {
                if maker.price >= taker.price {
                    Ok(())
                } else {
                    Err(TradeError::Price(PriceError::Incompatible))
                }
            },
            (Side::Bid, Side::Ask) => {
                if taker.price >= maker.price {
                    Ok(())
                } else {
                    Err(TradeError::Price(PriceError::Incompatible))
                }
            },
            _ => Err(TradeError::Side(SideError::Conflict)),
        }
    }

    /// Build a limit order from a creation request; any other request kind
    /// is a type mismatch.  The new order starts unfilled and `Open`, and
    /// its order id is the user's order id.
    pub fn try_from(order_request: OrderRequest) -> (r: Result<LimitOrder, OrderRequestError>)
        ensures
            match order_request {
                OrderRequest::Create { user_id, symbol, price, qty, side, user_order_id, unix_nano } => r
                    == Ok::<LimitOrder, OrderRequestError>(
                    LimitOrder {
                        user_id,
                        order_id: user_order_id,
                        price,
                        quantity: qty,
                        side,
                        order_symbol: symbol,
                        timestamp: unix_nano,
                        filled: 0,
                        status: OrderStatus::Open,
                    },
                ),
                _ => r == Err::<LimitOrder, OrderRequestError>(OrderRequestError::MismatchType),
            },
    {
        match order_request {
            OrderRequest::Create { user_order_id, user_id, price, qty, symbol, side, unix_nano } => Ok(
                LimitOrder {
                    user_id,
                    order_id: user_order_id,
                    price,
                    quantity: qty,
                    order_symbol: symbol,
                    side,
                    timestamp: unix_nano,
                    filled: 0,
                    status: OrderStatus::Open,
                },
            ),
            _ => Err(OrderRequestError::MismatchType),
        }
    }
}

/// One leg of an executed match, as reported by the matcher.
#[derive(Debug, Clone, Copy, PartialEq, Eq, Structural)]
pub struct TradeS {
    pub order_id: u64,
    pub side: Side,
    pub price: u64,
    pub quantity: u64,
    pub timestamp: u128,
}

/// The priority key of a resting order: enough of the order to rank it by
/// price-time priority and find it again by id.
#[derive(Clone, Copy, Debug, PartialEq, Eq, Structural)]
pub struct OrderIndex {
    pub order_id: u64,
    pub price: u64,
    pub timestamp: u128,
    pub side: Side,
}

/// The priority key of an order.
pub open spec fn key_of(o: LimitOrder) -> OrderIndex {
    OrderIndex { order_id: o.order_id, price: o.price, timestamp: o.timestamp, side: o.side }
}

impl From<LimitOrder> for OrderIndex {
    fn from(value: LimitOrder) -> (r: Self) {
        OrderIndex {
            order_id: value.order_id,
            price: value.price,
            side: value.side,
            timestamp: value.timestamp,
        }
    }
}

impl vstd::std_specs::convert::FromSpecImpl<LimitOrder> for OrderIndex {
    open spec fn obeys_from_spec() -> bool {
        true
    }

    open spec fn from_spec(value: LimitOrder) -> Self {
        key_of(value)
    }
}

/// Strict priority between keys: for bids the higher price trades first,
/// for asks the lower; at one price, the earlier arrival.
pub open spec fn idx_before(a: OrderIndex, b: OrderIndex) -> bool {
    if a.price != b.price {
        match a.side {
            Side::Bid => a.price > b.price,
            Side::Ask => a.price < b.price,
        }
    } else {
        a.timestamp < b.timestamp
    }
}

/// Priority or a full tie on price and time.
pub open spec fn idx_before_eq(a: OrderIndex, b: OrderIndex) -> bool {
    idx_before(a, b) || (a.price == b.price && a.timestamp == b.timestamp)
}

impl OrderIndex {
    /// Whether `self` trades strictly before `other`; see [`idx_before`].
    pub fn before(&self, other: &OrderIndex) -> (r: bool)
        ensures
            r == idx_before(*self, *other),
    {
        if self.price != other.price {
            match self.side {
                Side::Bid => self.price > other.price,
                Side::Ask => self.price < other.price,
            }
        } else {
            self.timestamp < other.timestamp
        }
    }
}

/// The keys with every occurrence of `item` removed, order kept.
pub open spec fn remove_all(s: Seq<OrderIndex>, item: OrderIndex) -> Seq<OrderIndex>
    decreases s.len(),
{
    if s.len() == 0 {
        Seq::empty()
    } else if s[0] == item {
        remove_all(s.drop_first(), item)
    } else {
        seq![s[0]] + remove_all(s.drop_first(), item)
    }
}

/// `remove_all` over an appended element.
pub proof fn lemma_remove_all_push(s: Seq<OrderIndex>, x: OrderIndex, item: OrderIndex)
    ensures
        remove_all(s.push(x), item) == if x == item {
            remove_all(s, item)
        } else {
            remove_all(s, item).push(x)
        },
    decreases s.len(),
{
    if s.len() == 0 {
        assert(s.push(x).len() == 1);
        assert(s.push(x)[0] == x);
        assert(s.push(x).drop_first() =~= Seq::<OrderIndex>::empty());
        assert(remove_all(Seq::<OrderIndex>::empty(), item) == Seq::<OrderIndex>::empty());
        if x != item {
            assert(remove_all(s.push(x), item) == seq![x] + Seq::<OrderIndex>::empty());
            assert(seq![x] + Seq::<OrderIndex>::empty() =~= remove_all(s, item).push(x));
        }
    } else {
        assert(s.push(x)[0] == s[0]);
        assert(s.push(x).drop_first() =~= s.drop_first().push(x));
        lemma_remove_all_push(s.drop_first(), x, item);
        if s[0] != item {
            if x != item {
                assert(remove_all(s.push(x), item) == seq![s[0]] + remove_all(
                    s.drop_first(),
                    item,
                ).push(x));
                assert(seq![s[0]] + remove_all(s.drop_first(), item).push(x) =~= (seq![s[0]]
                    + remove_all(s.drop_first(), item)).push(x));
            }
        }
    }
}

/// Membership after `remove_all`: everything but `item` survives.
pub proof fn lemma_remove_all_membership(s: Seq<OrderIndex>, item: OrderIndex)
    ensures
        forall|x: OrderIndex|
            #[trigger] remove_all(s, item).contains(x) <==> (s.contains(x) && x != item),
    decreases s.len(),
{
    if s.len() == 0 {
    } else {
        lemma_remove_all_membership(s.drop_first(), item);
        assert forall|x: OrderIndex| #[trigger]
            remove_all(s, item).contains(x) <==> (s.contains(x) && x != item) by {
            if s[0] == item {
                if s.contains(x) && x != item {
                    let w = choose|w: int| 0 <= w < s.len() && s[w] == x;
                    assert(s.drop_first()[w - 1] == x);
                    assert(s.drop_first().contains(x));
                }
                if s.drop_first().contains(x) {
                    let w = choose|w: int| 0 <= w < s.drop_first().len() && s.drop_first()[w] == x;
                    assert(s[w + 1] == x);
                    assert(s.contains(x));
                }
            } else {
                let rest = remove_all(s.drop_first(), item);
                assert(remove_all(s, item) == seq![s[0]] + rest);
                if remove_all(s, item).contains(x) {
                    let w = choose|w: int|
                        0 <= w < remove_all(s, item).len() && remove_all(s, item)[w] == x;
                    if w == 0 {
                        assert(x == s[0]);
                        assert(s.contains(x));
                    } else {
                        assert(rest[w - 1] == x);
                        assert(rest.contains(x));
                        let v = choose|v: int|
                            0 <= v < s.drop_first().len() && s.drop_first()[v] == x;
                        assert(s[v + 1] == x);
                        assert(s.contains(x));
                    }
                }
                if s.contains(x) && x != item {
                    let w = choose|w: int| 0 <= w < s.len() && s[w] == x;
                    if w == 0 {
                        assert((seq![s[0]] + rest)[0] == x);
                        assert(remove_all(s, item).contains(x));
                    } else {
                        assert(s.drop_first()[w - 1] == x);
                        assert(s.drop_first().contains(x));
                        assert(rest.contains(x));
                        let v = choose|v: int| 0 <= v < rest.len() && rest[v] == x;
                        assert((seq![s[0]] + rest)[v + 1] == x);
                        assert(remove_all(s, item).contains(x));
                    }
                }
            }
        }
    }
}

/// A price-time priority queue of order keys, kept sorted with the
/// highest-priority key at the front.
#[derive(Debug)]
pub struct PriceTimePriorityOrderQueue {
    pub items: Vec<OrderIndex>,
}

impl PriceTimePriorityOrderQueue {
    /// Well-formedness: all keys rank one side of the book (the priority
    /// relation compares only keys of one side), and earlier entries never
    /// trade after later ones.
    pub open spec fn wf(self) -> bool {
        &&& forall|a: int|
            0 <= a < self.items@.len() ==> (#[trigger] self.items@[a]).side == self.items@[0].side
        &&& forall|a: int, b: int|
            0 <= a < b < self.items@.len() ==> #[trigger] idx_before_eq(
                self.items@[a],
                self.items@[b],
            )
    }

    /// An empty queue.
    pub fn new() -> (r: Self)
        ensures
            r.wf(),
            r.items@.len() == 0,
    {
        Self { items: Vec::with_capacity(16) }
    }

    /// An empty queue with room for `capacity` keys.
    pub fn with_capacity(capacity: usize) -> (r: Self)
        ensures
            r.wf(),
            r.items@.len() == 0,
    {
        Self { items: Vec::with_capacity(capacity) }
    }

    /// Insert a key at its priority position, after any key it ties with.
    /// The key must rank the same side as the keys already queued.
    pub fn push(&mut self, item: OrderIndex)
        requires
            old(self).wf(),
            old(self).items@.len() == 0 || item.side == old(self).items@[0].side,
        ensures
            final(self).wf(),
            final(self).items@.len() == old(self).items@.len() + 1,
            exists|i: int|
                0 <= i <= old(self).items@.len() && final(self).items@ == old(self).items@.insert(
                    i,
                    item,
                ),
            forall|x: OrderIndex|
                #[trigger] final(self).items@.contains(x) <==> (old(self).items@.contains(x) || x
                    == item),
    {
        let ghost pre = self.items@;
        let mut i: usize = 0;
        loop
            invariant
                self.wf(),
                self.items@ == pre,
                0 <= i <= pre.len(),
                forall|j: int| 0 <= j < i ==> !idx_before(item, #[trigger] pre[j]),
            ensures
                0 <= i <= pre.len(),
                forall|j: int| 0 <= j < i ==> !idx_before(item, #[trigger] pre[j]),
                i == pre.len() || idx_before(item, pre[i as int]),
            decreases pre.len() - i,
        {
            if i >= self.items.len() {
                break ;
            }
            if item.before(&self.items[i]) {
                break ;
            }
            i = i + 1;
        }
        self.items.insert(i, item);
        proof {
            let post = self.items@;
            assert(post == pre.insert(i as int, item));
            assert forall|a: int| 0 <= a < post.len() implies (#[trigger] post[a]).side == post[0].side by {
                if pre.len() > 0 {
                    let a0 = if a < i as int {
                        a
                    } else {
                        a - 1
                    };
                    if a != i as int {
                        assert(post[a] == pre[a0]);
                        assert(pre[a0].side == pre[0].side);
                    }
                    if i as int == 0 {
                        assert(post[0] == item);
                    } else {
                        assert(post[0] == pre[0]);
                    }
                }
            }
            assert forall|a: int, b: int| 0 <= a < b < post.len() implies #[trigger] idx_before_eq(
                post[a],
                post[b],
            ) by {
                assert(post[a].side == post[b].side);
                let a0 = if a < i as int {
                    a
                } else {
                    a - 1
                };
                let b0 = if b < i as int {
                    b
                } else {
                    b - 1
                };
                if a == i as int {
                    // item comes before everything it was inserted ahead of
                    assert(post[b] == pre[b - 1]);
                    assert(idx_before(item, pre[i as int]));
                    if b - 1 > i as int {
                        assert(idx_before_eq(pre[i as int], pre[b - 1]));
                    }
                } else if b == i as int {
                    assert(post[a] == pre[a]);
                    assert(!idx_before(item, pre[a]));
                } else {
                    assert(post[a] == pre[a0]);
                    assert(post[b] == pre[b0]);
                    if a0 < b0 {
                        assert(idx_before_eq(pre[a0], pre[b0]));
                    }
                }
            }
            assert forall|x: OrderIndex| #[trigger]
                post.contains(x) <==> (pre.contains(x) || x == item) by {
                if post.contains(x) {
                    let w = choose|w: int| 0 <= w < post.len() && post[w] == x;
                    if w != i as int {
                        let w0 = if w < i as int {
                            w
                        } else {
                            w - 1
                        };
                        assert(pre[w0] == x);
                        assert(pre.contains(x));
                    }
                }
                if pre.contains(x) {
                    let w = choose|w: int| 0 <= w < pre.len() && pre[w] == x;
                    let w2 = if w < i as int {
                        w
                    } else {
                        w + 1
                    };
                    assert(post[w2] == x);
                    assert(post.contains(x));
                }
                if x == item {
                    assert(post[i as int] == x);
                    assert(post.contains(x));
                }
            }
        }
    }

    /// The highest-priority key, if any.
    pub fn peek(&self) -> (r: Option<&OrderIndex>)
        requires
            self.wf(),
        ensures
            r == None::<&OrderIndex> <==> self.items@.len() == 0,
            match r {
                Some(k) => *k == self.items@[0] && forall|j: int|
                    0 <= j < self.items@.len() ==> idx_before_eq(*k, #[trigger] self.items@[j]),
                None => true,
            },
    {
        if self.items.len() == 0 {
            None
        } else {
            proof {
                assert forall|j: int| 0 <= j < self.items@.len() implies idx_before_eq(
                    self.items@[0],
                    #[trigger] self.items@[j],
                ) by {
                    if j > 0 {
                        assert(idx_before_eq(self.items@[0], self.items@[j]));
                    }
                }
            }
            Some(&self.items[0])
        }
    }

    /// Remove and return the highest-priority key, if any.
    pub fn pop(&mut self) -> (r: Option<OrderIndex>)
        requires
            old(self).wf(),
        ensures
            final(self).wf(),
            r == None::<OrderIndex> <==> old(self).items@.len() == 0,
            old(self).items@.len() == 0 ==> *final(self) == *old(self),
            old(self).items@.len() > 0 ==> r == Some(old(self).items@[0]) && final(self).items@
                == old(self).items@.drop_first(),
    {
        if self.items.len() == 0 {
            None
        } else {
            let ghost pre = self.items@;
            let k = self.items.remove(0);
            proof {
                assert(self.items@ =~= pre.drop_first());
                assert forall|a: int, b: int|
                    0 <= a < b < self.items@.len() implies #[trigger] idx_before_eq(
                    self.items@[a],
                    self.items@[b],
                ) by {
                    assert(idx_before_eq(pre[a + 1], pre[b + 1]));
                }
            }
            Some(k)
        }
    }

    /// Remove every occurrence of `item` from the queue, keeping the order
    /// of the remaining keys, and hand the key back.
    pub fn remove(&mut self, item: OrderIndex) -> (r: Option<OrderIndex>)
        requires
            old(self).wf(),
        ensures
            final(self).wf(),
            final(self).items@ == remove_all(old(self).items@, item),
            forall|x: OrderIndex|
                #[trigger] final(self).items@.contains(x) <==> (old(self).items@.contains(x) && x
                    != item),
            r == Some(item),
    {
        let ghost pre = self.items@;
        let mut kept: Vec<OrderIndex> = Vec::new();
        let mut i: usize = 0;
        while i < self.items.len()
            invariant
                self.wf(),
                self.items@ == pre,
                0 <= i <= pre.len(),
                kept@ == remove_all(pre.take(i as int), item),
                forall|a: int|
                    0 <= a < kept@.len() ==> pre.len() > 0 && (#[trigger] kept@[a]).side
                        == pre[0].side,
                forall|a: int, k: int|
                    0 <= a < kept@.len() && i <= k < pre.len() ==> idx_before_eq(
                        #[trigger] kept@[a],
                        #[trigger] pre[k],
                    ),
                forall|a: int, b: int|
                    0 <= a < b < kept@.len() ==> #[trigger] idx_before_eq(kept@[a], kept@[b]),
            decreases pre.len() - i,
        {
            let x = self.items[i];
            proof {
                assert(pre.take(i as int + 1) =~= pre.take(i as int).push(pre[i as int]));
                lemma_remove_all_push(pre.take(i as int), pre[i as int], item);
            }
            if !(x.order_id == item.order_id && x.price == item.price && x.timestamp
                == item.timestamp && x.side == item.side) {
                proof {
                    assert(x != item);
                    assert forall|a: int, k: int|
                        0 <= a < kept@.len() + 1 && i + 1 <= k < pre.len() implies idx_before_eq(
                        #[trigger] kept@.push(x)[a],
                        #[trigger] pre[k],
                    ) by {
                        if a < kept@.len() {
                            assert(idx_before_eq(kept@[a], pre[k]));
                        } else {
                            assert(kept@.push(x)[a] == pre[i as int]);
                            assert(idx_before_eq(pre[i as int], pre[k]));
                        }
                    }
                    assert forall|a: int, b: int|
                        0 <= a < b < kept@.len() + 1 implies #[trigger] idx_before_eq(
                        kept@.push(x)[a],
                        kept@.push(x)[b],
                    ) by {
                        if b < kept@.len() {
                            assert(idx_before_eq(kept@[a], kept@[b]));
                        } else {
                            assert(kept@.push(x)[b] == pre[i as int]);
                            if a < kept@.len() {
                                assert(idx_before_eq(kept@[a], pre[i as int]));
                            }
                        }
                    }
                }
                kept.push(x);
            } else {
                proof {
                    assert(x == item);
                }
            }
            i = i + 1;
        }
        proof {
            assert(pre.take(pre.len() as int) =~= pre);
            lemma_remove_all_membership(pre, item);
        }
        self.items = kept;
        Some(item)
    }
}

} // verus!
