use orderbook::book::{Book, Books};
use orderbook::matcher::{Match, MatchState, Matcher};
use orderbook::order::{
    LimitOrder, OrderIndex, OrderStatus, PriceTimePriorityOrderQueue, Side, TradeS,
};
use orderbook::types::TimeInForce;

fn order(order_id: u64, price: u64, quantity: u64, side: Side, ts: u128) -> LimitOrder {
    LimitOrder {
        user_id: 7,
        order_id,
        price,
        quantity,
        side,
        order_symbol: "IBM".to_string(),
        timestamp: ts,
        filled: 0,
        status: OrderStatus::Open,
    }
}

fn key(order_id: u64, price: u64, ts: u128, side: Side) -> OrderIndex {
    OrderIndex { order_id, price, timestamp: ts, side }
}

#[test]
fn queue_orders_bids_by_price_then_time() {
    let mut q = PriceTimePriorityOrderQueue::new();
    q.push(key(1, 10, 5, Side::Bid));
    q.push(key(2, 12, 6, Side::Bid));
    q.push(key(3, 12, 4, Side::Bid));
    q.push(key(4, 8, 1, Side::Bid));
    // highest bid price first; at one price the earlier arrival first
    assert_eq!(q.pop().unwrap().order_id, 3);
    assert_eq!(q.pop().unwrap().order_id, 2);
    assert_eq!(q.pop().unwrap().order_id, 1);
    assert_eq!(q.pop().unwrap().order_id, 4);
    assert!(q.pop().is_none());
}

#[test]
fn queue_orders_asks_low_price_first() {
    let mut q = PriceTimePriorityOrderQueue::with_capacity(4);
    q.push(key(1, 10, 5, Side::Ask));
    q.push(key(2, 9, 6, Side::Ask));
    q.push(key(3, 11, 1, Side::Ask));
    assert_eq!(q.peek().unwrap().order_id, 2);
    assert_eq!(q.pop().unwrap().order_id, 2);
    assert_eq!(q.peek().unwrap().order_id, 1);
}

#[test]
fn queue_remove_takes_out_key() {
    let mut q = PriceTimePriorityOrderQueue::new();
    q.push(key(1, 10, 5, Side::Ask));
    q.push(key(2, 9, 6, Side::Ask));
    let removed = q.remove(key(2, 9, 6, Side::Ask));
    assert_eq!(removed.unwrap().order_id, 2);
    assert_eq!(q.pop().unwrap().order_id, 1);
    assert!(q.pop().is_none());
}

#[test]
fn books_place_peek_cancel() {
    let mut books = Books::new("IBM".to_string());
    assert!(books.peek_top_bid().is_none());
    assert!(books.place(order(1, 10, 100, Side::Bid, 1)).is_ok());
    assert!(books.place(order(2, 12, 50, Side::Ask, 2)).is_ok());
    assert_eq!(books.peek_top_bid().unwrap().order_id, 1);
    assert_eq!(books.peek_top_ask().unwrap().order_id, 2);
    assert!(books.cancel(1).is_ok());
    assert!(books.peek_top_bid().is_none());
    // cancelling a missing id still reports success
    assert!(books.cancel(42).is_ok());
}

#[test]
fn books_modify_quantity_and_pop() {
    let mut books = Books::new("IBM".to_string());
    books.place(order(1, 10, 100, Side::Bid, 1)).unwrap();
    books.modify_quantity(1, 25);
    assert_eq!(books.peek_top_bid().unwrap().quantity, 25);
    let popped = books.pop_top_bid().unwrap();
    assert_eq!(popped.order_id, 1);
    assert!(books.pop_top_bid().is_none());
    assert!(books.pop_top_ask().is_none());
}

#[test]
fn match_order_rests_without_liquidity() {
    let matcher = Matcher;
    let mut books = Books::new("IBM".to_string());
    let m = matcher.match_order(order(1, 10, 100, Side::Bid, 1), &mut books);
    assert_eq!(m.get_state(), MatchState::NoMatch);
    assert_eq!(m.get_matches().len(), 0);
    assert_eq!(books.peek_top_bid().unwrap().order_id, 1);
}

#[test]
fn match_order_full_match_pairs_trades() {
    let matcher = Matcher;
    let mut books = Books::new("IBM".to_string());
    books.place(order(1, 10, 100, Side::Bid, 1)).unwrap();
    let m = matcher.match_order(order(2, 10, 100, Side::Ask, 2), &mut books);
    assert_eq!(m.get_state(), MatchState::Full);
    assert_eq!(m.get_qty_left(), 0);
    let trades = m.get_matches();
    assert_eq!(trades.len(), 2);
    assert_eq!(trades[0].order_id, 2);
    assert_eq!(trades[1].order_id, 1);
    assert_eq!(trades[0].price, 10);
    assert_eq!(trades[0].quantity, 100);
    assert!(books.peek_top_bid().is_none());
}

#[test]
fn match_order_partial_rests_leftover() {
    let matcher = Matcher;
    let mut books = Books::new("IBM".to_string());
    books.place(order(1, 10, 30, Side::Bid, 1)).unwrap();
    books.place(order(2, 9, 30, Side::Bid, 2)).unwrap();
    // a sell for 100 at 9 spends both bids and leaves 40 on the book
    let m = matcher.match_order(order(3, 9, 100, Side::Ask, 3), &mut books);
    assert_eq!(m.get_state(), MatchState::Partial);
    assert_eq!(m.get_qty_left(), 40);
    assert!(m.is_partial());
    let trades = m.get_matches();
    assert_eq!(trades.len(), 4);
    // bids are spent best price first
    assert_eq!(trades[1].order_id, 1);
    assert_eq!(trades[1].quantity, 30);
    assert_eq!(trades[3].order_id, 2);
    assert_eq!(trades[3].quantity, 30);
    let rest = books.peek_top_ask().unwrap();
    assert_eq!(rest.order_id, 3);
    assert_eq!(rest.quantity, 40);
}

#[test]
fn match_stops_at_price_limit() {
    let matcher = Matcher;
    let mut books = Books::new("IBM".to_string());
    books.place(order(1, 10, 30, Side::Ask, 1)).unwrap();
    books.place(order(2, 12, 30, Side::Ask, 2)).unwrap();
    // a buy limited at 11 takes the ask at 10 but must not trade at 12
    let m = matcher.match_order(order(3, 11, 100, Side::Bid, 3), &mut books);
    assert_eq!(m.get_state(), MatchState::Partial);
    assert_eq!(m.get_qty_left(), 70);
    let trades = m.get_matches();
    assert_eq!(trades.len(), 2);
    assert_eq!(trades[0].price, 10);
    assert_eq!(trades[1].order_id, 1);
    // the dearer ask still rests untouched
    assert_eq!(books.peek_top_ask().unwrap().order_id, 2);
    assert_eq!(books.peek_top_ask().unwrap().quantity, 30);
    // the leftover rests on the bid side
    assert_eq!(books.peek_top_bid().unwrap().order_id, 3);
    assert_eq!(books.peek_top_bid().unwrap().quantity, 70);
}

#[test]
fn match_partial_resting_order_keeps_rest() {
    let matcher = Matcher;
    let mut books = Books::new("IBM".to_string());
    books.place(order(1, 10, 100, Side::Bid, 1)).unwrap();
    let m = matcher.match_order(order(2, 10, 40, Side::Ask, 2), &mut books);
    assert_eq!(m.get_state(), MatchState::Full);
    // the resting bid keeps the unmatched quantity
    assert_eq!(books.peek_top_bid().unwrap().quantity, 60);
}

#[test]
fn match_state_updates() {
    let mut m: Match<TradeS> = Match::new();
    assert_eq!(m.get_state(), MatchState::NoMatch);
    m.update_qty_left(17);
    m.update_state(MatchState::Partial);
    assert_eq!(m.get_qty_left(), 17);
    assert!(m.is_partial());
    m.update_state(MatchState::Full);
    assert_eq!(m.get_qty_left(), 0);
    assert!(!m.is_partial());
}

#[test]
fn book_spread_and_emptiness() {
    let mut book = Book::new();
    assert!(book.is_empty());
    assert_eq!(book.spread(), None);
    book.matching(order(1, 10, 100, Side::Bid, 1)).unwrap();
    assert_eq!(book.spread(), None);
    assert_eq!(book.spread_option(), (None, Some(10)));
    book.matching(order(2, 12, 60, Side::Ask, 2)).unwrap();
    assert_eq!(book.spread(), Some((12, 10)));
    assert_eq!(book.len(), (1, 1));
    assert_eq!(book.volume(), (60, 100));
    book.flush();
    assert!(book.is_empty());
}

#[test]
fn book_iter_lists_by_priority() {
    let mut book = Book::new();
    book.matching(order(1, 10, 10, Side::Bid, 1)).unwrap();
    book.matching(order(2, 12, 10, Side::Bid, 2)).unwrap();
    book.matching(order(3, 12, 10, Side::Bid, 3)).unwrap();
    book.matching(order(4, 20, 10, Side::Ask, 4)).unwrap();
    book.matching(order(5, 18, 10, Side::Ask, 5)).unwrap();
    // bids: highest price first, FIFO within the level
    let bid_ids: Vec<u64> = book.iter(&Side::Bid).iter().map(|o| o.order_id).collect();
    assert_eq!(bid_ids, vec![2, 3, 1]);
    // asks: lowest price first
    let ask_ids: Vec<u64> = book.iter(&Side::Ask).iter().map(|o| o.order_id).collect();
    assert_eq!(ask_ids, vec![5, 4]);
}

#[test]
fn time_in_force_default() {
    assert_eq!(
        TimeInForce::default(),
        TimeInForce::GoodTillCancel { post_only: false }
    );
}
