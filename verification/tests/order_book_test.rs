use orderbook::book::Book;
use orderbook::order::{LimitOrder, Side};

fn limit_order(
    user_id: u64,
    order_id: u64,
    price: u64,
    quantity: u64,
    side: Side,
    timestamp: u128,
) -> LimitOrder {
    LimitOrder {
        user_id,
        order_id,
        price,
        quantity,
        side,
        order_symbol: "IBM".to_string(),
        timestamp,
        filled: 0,
        status: Default::default(),
    }
}

#[test]
fn generate_reject() {
    let mut orderbook = Book::new();

    let limit_order_1 = limit_order(1, 1, 10, 100, Side::Bid, 1711396383937299000);
    assert!(orderbook.matching(limit_order_1).is_ok());

    let limit_order_2 = limit_order(1, 2, 12, 100, Side::Ask, 1711396383937305000);
    assert!(orderbook.matching(limit_order_2).is_ok());

    let limit_order_3 = limit_order(2, 101, 9, 100, Side::Bid, 1711396383937306000);
    assert!(orderbook.matching(limit_order_3).is_ok());

    let limit_order_4 = limit_order(2, 102, 11, 100, Side::Ask, 1711396383937307000);
    assert!(orderbook.matching(limit_order_4).is_ok());

    let first_rejected_limit_order = limit_order(1, 3, 11, 100, Side::Bid, 1711396383937308000);
    let first_reject = orderbook.matching(first_rejected_limit_order);
    assert!(first_reject.is_ok());
    assert!(!first_reject.unwrap().1);

    let second_rejected_limit_order = limit_order(2, 103, 10, 100, Side::Ask, 1711396383937309000);
    let second_reject = orderbook.matching(second_rejected_limit_order);
    assert!(second_reject.is_ok());
    assert!(!second_reject.unwrap().1);
}

#[test]
fn cancel_order() {
    let mut orderbook = Book::new();

    let limit_order_1 = limit_order(1, 1, 10, 100, Side::Bid, 1711396383937299000);
    assert!(orderbook.matching(limit_order_1).is_ok());

    let limit_order_2 = limit_order(1, 2, 12, 100, Side::Ask, 1711396383937305000);
    assert!(orderbook.matching(limit_order_2).is_ok());

    let limit_order_3 = limit_order(2, 101, 9, 100, Side::Bid, 1711396383937306000);
    assert!(orderbook.matching(limit_order_3).is_ok());

    let limit_order_4 = limit_order(2, 102, 11, 100, Side::Ask, 1711396383937307000);
    assert!(orderbook.matching(limit_order_4).is_ok());

    let order_id: u64 = 2;
    let result = orderbook.cancel(&order_id);
    assert!(result.is_some());
    assert_eq!(result.unwrap().order_id, 2);

    // order id doesn't exist
    let nonexistent_order_id = 5;
    assert!(orderbook.cancel(&nonexistent_order_id).is_none());
}
