use orderbook::errors::{OrderError, OrderRequestError, PriceError, SideError, StatusError, TradeError};
use orderbook::order::{LimitOrder, OrderRequest, OrderStatus, Side};
use orderbook::trade::TradeImpl;

fn order(order_id: u64, price: u64, quantity: u64, side: Side) -> LimitOrder {
    LimitOrder {
        user_id: 7,
        order_id,
        price,
        quantity,
        side,
        order_symbol: "IBM".to_string(),
        timestamp: 1,
        filled: 0,
        status: OrderStatus::Open,
    }
}

#[test]
fn side_from_str() {
    assert_eq!(Side::from_str("S"), Ok(Side::Ask));
    assert_eq!(Side::from_str("B"), Ok(Side::Bid));
    assert_eq!(Side::from_str("X"), Err(()));
    assert_eq!(Side::from_str(""), Err(()));
    assert_eq!(Side::from_str("BB"), Err(()));
}

#[test]
fn side_opposite() {
    assert_eq!(Side::Ask.opposite(), Side::Bid);
    assert_eq!(Side::Bid.opposite(), Side::Ask);
}

#[test]
fn fill_updates_status() {
    let mut o = order(1, 10, 100, Side::Bid);
    o.fill(40);
    assert_eq!(o.filled, 40);
    assert_eq!(o.status, OrderStatus::Partial);
    assert_eq!(o.remaining(), 60);
    assert!(!o.is_closed());
    o.fill(60);
    assert_eq!(o.status, OrderStatus::Completed);
    assert_eq!(o.remaining(), 0);
    assert!(o.is_closed());
}

#[test]
fn try_fill_rejects_empty_and_excessive() {
    let mut o = order(1, 10, 100, Side::Bid);
    assert_eq!(o.try_fill(0), Err(OrderError::NoFill));
    assert_eq!(o.try_fill(101), Err(OrderError::Overfill));
    assert_eq!(o.filled, 0);
    assert_eq!(o.status, OrderStatus::Open);
    assert_eq!(o.try_fill(100), Ok(()));
    assert_eq!(o.status, OrderStatus::Completed);
}

#[test]
fn cancel_marks_status() {
    let mut open = order(1, 10, 100, Side::Bid);
    open.cancel();
    assert_eq!(open.status, OrderStatus::Cancelled);

    let mut partial = order(2, 10, 100, Side::Bid);
    partial.fill(30);
    partial.cancel();
    assert_eq!(partial.status, OrderStatus::Closed);

    // cancelling a closed order is a no-op
    partial.cancel();
    assert_eq!(partial.status, OrderStatus::Closed);
}

#[test]
fn matches_error_kinds() {
    let maker_bid = order(1, 10, 100, Side::Bid);
    let taker_ask = order(2, 10, 100, Side::Ask);
    assert_eq!(maker_bid.matches(&taker_ask), Ok(()));

    // closed orders never match
    let mut closed = order(3, 10, 100, Side::Ask);
    closed.fill(100);
    assert_eq!(
        maker_bid.matches(&closed),
        Err(TradeError::Status(StatusError::Closed))
    );

    // equal sides conflict
    let other_bid = order(4, 11, 100, Side::Bid);
    assert_eq!(
        maker_bid.matches(&other_bid),
        Err(TradeError::Side(SideError::Conflict))
    );

    // bid below ask: incompatible prices
    let dear_ask = order(5, 12, 100, Side::Ask);
    assert_eq!(
        maker_bid.matches(&dear_ask),
        Err(TradeError::Price(PriceError::Incompatible))
    );
}

#[test]
fn trade_fills_both_at_maker_price() {
    let mut maker = order(1, 10, 100, Side::Bid);
    let mut taker = order(2, 9, 40, Side::Ask);
    let trade = TradeImpl::try_new(&mut maker, &mut taker).unwrap();
    assert_eq!(trade.amount, 40);
    assert_eq!(trade.price, 10);
    assert_eq!(trade.buy_user_id, taker.user_id);
    assert_eq!(trade.buy_order_id, 2);
    assert_eq!(trade.sell_order_id, 1);
    assert_eq!(maker.filled, 40);
    assert_eq!(maker.status, OrderStatus::Partial);
    assert_eq!(taker.filled, 40);
    assert_eq!(taker.status, OrderStatus::Completed);
}

#[test]
fn trade_rejected_leaves_orders_alone() {
    let mut maker = order(1, 8, 100, Side::Bid);
    let mut taker = order(2, 9, 40, Side::Ask);
    let r = TradeImpl::try_new(&mut maker, &mut taker);
    assert_eq!(r, Err(TradeError::Price(PriceError::Incompatible)));
    assert_eq!(maker.filled, 0);
    assert_eq!(taker.filled, 0);
}

#[test]
fn limit_order_from_request() {
    let req = OrderRequest::Create {
        user_id: 3,
        symbol: "IBM".to_string(),
        price: 12,
        qty: 50,
        side: Side::Ask,
        user_order_id: 9,
        unix_nano: 77,
    };
    let o = LimitOrder::try_from(req).unwrap();
    assert_eq!(o.user_id, 3);
    assert_eq!(o.order_id, 9);
    assert_eq!(o.price, 12);
    assert_eq!(o.quantity, 50);
    assert_eq!(o.side, Side::Ask);
    assert_eq!(o.order_symbol, "IBM".to_string());
    assert_eq!(o.timestamp, 77);
    assert_eq!(o.filled, 0);
    assert_eq!(o.status, OrderStatus::Open);

    let cancel = OrderRequest::Cancel { user_id: 1, user_order_id: 1, unix_nano: 0 };
    assert_eq!(
        LimitOrder::try_from(cancel).unwrap_err(),
        OrderRequestError::MismatchType
    );
}
