use orderbook::engine::{Engine, EngineError};
use orderbook::order::{OrderRequest, Side};
use orderbook::{Acknowledgment, BookTop, Event};

fn create(user_id: u64, price: u64, qty: u64, side: Side, user_order_id: u64, ts: u128) -> OrderRequest {
    OrderRequest::Create {
        user_id,
        symbol: "IBM".to_string(),
        price,
        qty,
        side,
        user_order_id,
        unix_nano: ts,
    }
}

fn ack(user_id: u64, user_order_id: u64) -> Event {
    Event::Ack(Acknowledgment { label: "A".to_string(), user_id, user_order_id })
}

fn book_top(side: &str, price: u64, total_qty: u64) -> Event {
    Event::BookTop(BookTop {
        label: "B".to_string(),
        side: side.to_string(),
        price,
        total_qty,
    })
}

#[test]
fn scenario_book_rest_no_cross() {
    let mut engine = Engine::new();
    let events = engine.process(create(1, 10, 100, Side::Bid, 1, 1)).unwrap();
    assert_eq!(events, vec![ack(1, 1), book_top("B", 10, 100)]);
    let events = engine.process(create(1, 12, 100, Side::Ask, 2, 2)).unwrap();
    assert_eq!(events, vec![ack(1, 2), book_top("B", 10, 100)]);
}

#[test]
fn scenario_cross_full_fill_suppresses_top() {
    let mut engine = Engine::new();
    engine.process(create(1, 10, 100, Side::Bid, 1, 1)).unwrap();
    engine.process(create(1, 12, 100, Side::Ask, 2, 2)).unwrap();
    // a bid at 11 does not reach the ask at 12: it rests and reports
    let events = engine.process(create(2, 11, 100, Side::Bid, 3, 3)).unwrap();
    assert_eq!(events, vec![ack(2, 3), book_top("B", 11, 200)]);
    // a sell at 10 crosses the best bid (11) and fully fills: the
    // acknowledgement comes alone, the top-of-book report is suppressed
    let events = engine.process(create(3, 10, 100, Side::Ask, 4, 4)).unwrap();
    assert_eq!(events, vec![ack(3, 4)]);
}

#[test]
fn scenario_partial_fill_residue() {
    let mut engine = Engine::new();
    let events = engine.process(create(1, 10, 100, Side::Bid, 1, 1)).unwrap();
    assert_eq!(events, vec![ack(1, 1), book_top("B", 10, 100)]);
    // the sell fills fully against the resting buy; nothing rests, so the
    // top-of-book report is suppressed
    let events = engine.process(create(2, 10, 40, Side::Ask, 2, 2)).unwrap();
    assert_eq!(events, vec![ack(2, 2)]);
    // the resting buy keeps the residue
    let (ask_count, bid_count) = engine.orderbook().len();
    assert_eq!((ask_count, bid_count), (0, 1));
    let (ask_volume, bid_volume) = engine.orderbook().volume();
    assert_eq!((ask_volume, bid_volume), (0, 60));
}

#[test]
fn scenario_cancel_existing_and_missing() {
    let mut engine = Engine::new();
    engine.process(create(1, 10, 100, Side::Bid, 1, 1)).unwrap();
    engine.process(create(2, 10, 40, Side::Ask, 2, 2)).unwrap();
    let events = engine
        .process(OrderRequest::Cancel { user_id: 1, user_order_id: 1, unix_nano: 3 })
        .unwrap();
    assert_eq!(events, vec![ack(1, 1)]);
    let events = engine
        .process(OrderRequest::Cancel { user_id: 9, user_order_id: 9, unix_nano: 4 })
        .unwrap();
    assert_eq!(events, Vec::<Event>::new());
    assert_eq!(engine.orderbook().len(), (0, 0));
}

#[test]
fn scenario_flush() {
    let mut engine = Engine::new();
    engine.process(create(1, 10, 100, Side::Bid, 1, 1)).unwrap();
    engine.process(create(1, 12, 100, Side::Ask, 2, 2)).unwrap();
    let events = engine.process(OrderRequest::FlushBook).unwrap();
    assert_eq!(events, Vec::<Event>::new());
    assert_eq!(engine.orderbook().len(), (0, 0));
    assert_eq!(engine.orderbook().spread_option(), (None, None));
}

#[test]
fn scenario_fifo_within_level() {
    let mut engine = Engine::new();
    engine.process(create(1, 10, 50, Side::Bid, 1, 1)).unwrap();
    engine.process(create(2, 10, 50, Side::Bid, 2, 2)).unwrap();
    // the sell fills order 1 first (50), then 20 from order 2
    let events = engine.process(create(3, 10, 70, Side::Ask, 3, 3)).unwrap();
    assert_eq!(events, vec![ack(3, 3)]);
    let rest = engine.orderbook().peek(&Side::Bid).unwrap();
    assert_eq!(rest.order_id, 2);
    assert_eq!(rest.filled, 20);
    assert_eq!(rest.quantity - rest.filled, 30);
    let (_, bid_volume) = engine.orderbook().volume();
    assert_eq!(bid_volume, 30);
}

#[test]
fn market_order_rejected() {
    let mut engine = Engine::new();
    let r = engine.process(create(1, 0, 100, Side::Bid, 1, 1));
    assert_eq!(r, Err(EngineError::MarketUnsupported));
    assert_eq!(engine.orderbook().len(), (0, 0));
}

#[test]
fn second_cancel_is_noop() {
    let mut engine = Engine::new();
    engine.process(create(1, 10, 100, Side::Bid, 1, 1)).unwrap();
    let events = engine
        .process(OrderRequest::Cancel { user_id: 1, user_order_id: 1, unix_nano: 2 })
        .unwrap();
    assert_eq!(events.len(), 1);
    let events = engine
        .process(OrderRequest::Cancel { user_id: 1, user_order_id: 1, unix_nano: 3 })
        .unwrap();
    assert_eq!(events.len(), 0);
}

#[test]
fn top_of_book_reports_single_side() {
    let mut engine = Engine::new();
    let events = engine.process(create(1, 12, 5, Side::Ask, 1, 1)).unwrap();
    assert_eq!(events, vec![ack(1, 1), book_top("S", 12, 5)]);
}

#[test]
fn place_then_cancel_restores_counts() {
    let mut engine = Engine::new();
    engine.process(create(1, 10, 100, Side::Bid, 1, 1)).unwrap();
    engine.process(create(1, 12, 30, Side::Ask, 2, 2)).unwrap();
    let before_len = engine.orderbook().len();
    let before_vol = engine.orderbook().volume();
    engine.process(create(2, 13, 7, Side::Ask, 3, 3)).unwrap();
    engine
        .process(OrderRequest::Cancel { user_id: 2, user_order_id: 3, unix_nano: 4 })
        .unwrap();
    assert_eq!(engine.orderbook().len(), before_len);
    assert_eq!(engine.orderbook().volume(), before_vol);
}
