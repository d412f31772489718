//! The trade contract: executing one match between a maker and a taker.

use vstd::prelude::*;

use crate::errors::TradeError;
use crate::order::LimitOrder;

verus! {

/// One executed trade: both user and order ids, the exchanged amount, and
/// the price it traded at (always the maker's limit price).
#[derive(Debug, Clone, Copy, PartialEq, Eq, Structural)]
pub struct TradeImpl {
    pub buy_user_id: u64,
    pub buy_order_id: u64,
    pub sell_user_id: u64,
    pub sell_order_id: u64,
    pub amount: u64,
    pub price: u64,
}

/// The amount a maker and a taker exchange: the smaller of the two
/// remaining quantities.
pub open spec fn spec_exchanged(maker: LimitOrder, taker: LimitOrder) -> int {
    if taker.spec_remaining() <= maker.spec_remaining() {
        taker.spec_remaining()
    } else {
        maker.spec_remaining()
    }
}

impl TradeImpl {
    /// Constructs a new trade, or reports why the two orders do not match.
    ///
    /// On success both orders are filled by the exchanged amount, which is
    /// positive and no more than either remaining quantity, and the trade
    /// is priced at the maker's limit price.  On failure both orders are
    /// left untouched.
    pub fn try_new(maker: &mut LimitOrder, taker: &mut LimitOrder) -> (r: Result<
        TradeImpl,
        TradeError,
    >)
        requires
            old(maker).valid(),
            old(taker).valid(),
        ensures
            ({
                let m = LimitOrder::spec_matches(*old(maker), *old(taker));
                let exchanged = spec_exchanged(*old(maker), *old(taker));
                match m {
                    Err(e) => r == Err::<TradeImpl, TradeError>(e) && *final(maker) == *old(maker)
                        && *final(taker) == *old(taker),
                    Ok(u) => {
                        &&& 0 < exchanged <= old(maker).spec_remaining()
                        &&& exchanged <= old(taker).spec_remaining()
                        &&& *final(maker) == old(maker).spec_fill(exchanged as u64)
                        &&& *final(taker) == old(taker).spec_fill(exchanged as u64)
                        &&& r == Ok::<TradeImpl, TradeError>(
                            (TradeImpl {
                                buy_user_id: old(taker).user_id,
                                buy_order_id: old(taker).order_id,
                                sell_user_id: old(maker).user_id,
                                sell_order_id: old(maker).order_id,
                                amount: exchanged as u64,
                                price: old(maker).price,
                            }),
                        )
                    },
                }
            }),
            final(maker).valid(),
            final(taker).valid(),
    {
        match maker.matches(&*taker) {
            Err(e) => {
                return Err(e);
            },
            Ok(_) => {},
        }
        let taker_rem = taker.remaining();
        let maker_rem = maker.remaining();
        let exchanged = if taker_rem <= maker_rem {
            taker_rem
        } else {
            maker_rem
        };
        let price = maker.price;
        maker.fill(exchanged);
        taker.fill(exchanged);
        Ok(
            TradeImpl {
                buy_user_id: taker.user_id,
                buy_order_id: taker.id(),
                sell_user_id: maker.user_id,
                sell_order_id: maker.id(),
                amount: exchanged,
                price,
            },
        )
    }
}

impl LimitOrder {
    /// Execute a trade of `self` (the maker) against `other` (the taker);
    /// see [`TradeImpl::try_new`].
    pub fn trade(&mut self, other: &mut LimitOrder) -> (r: Result<TradeImpl, TradeError>)
        requires
            old(self).valid(),
            old(other).valid(),
        ensures
            ({
                let m = LimitOrder::spec_matches(*old(self), *old(other));
                let exchanged = spec_exchanged(*old(self), *old(other));
                match m {
                    Err(e) => r == Err::<TradeImpl, TradeError>(e) && *final(self) == *old(self)
                        && *final(other) == *old(other),
                    Ok(u) => {
                        &&& 0 < exchanged <= old(self).spec_remaining()
                        &&& exchanged <= old(other).spec_remaining()
                        &&& *final(self) == old(self).spec_fill(exchanged as u64)
                        &&& *final(other) == old(other).spec_fill(exchanged as u64)
                        &&& r == Ok::<TradeImpl, TradeError>(
                            (TradeImpl {
                                buy_user_id: old(other).user_id,
                                buy_order_id: old(other).order_id,
                                sell_user_id: old(self).user_id,
                                sell_order_id: old(self).order_id,
                                amount: exchanged as u64,
                                price: old(self).price,
                            }),
                        )
                    },
                }
            }),
            final(self).valid(),
            final(other).valid(),
    {
        let (maker, taker) = (self, other);
        TradeImpl::try_new(maker, taker)
    }
}

} // verus!
