use matching_engine::book::OrderBook;
use matching_engine::order::{OrderSide, OrderType};

#[test]
fn test_limit_order_addition() {
    let mut book = OrderBook::new();

    // Add a buy order
    let _buy_order_id = book
        .add_order(OrderSide::Buy, OrderType::Limit, Some(100), 10, 123456789, None)
        .unwrap();

    // Add a sell order
    let _sell_order_id = book
        .add_order(OrderSide::Sell, OrderType::Limit, Some(110), 5, 123456790, None)
        .unwrap();

    // Get order book snapshot
    let (buy_orders, sell_orders) = book.get_order_book_snapshot();

    // Verify buy orders
    assert_eq!(buy_orders.len(), 1);
    assert_eq!(buy_orders[0].0, 100); // Price
    assert_eq!(buy_orders[0].1, 10); // Quantity

    // Verify sell orders
    assert_eq!(sell_orders.len(), 1);
    assert_eq!(sell_orders[0].0, 110); // Price
    assert_eq!(sell_orders[0].1, 5); // Quantity
}

#[test]
fn test_matching_limit_orders() {
    let mut book = OrderBook::new();

    // Add a buy order
    let buy_order_id = book
        .add_order(OrderSide::Buy, OrderType::Limit, Some(100), 10, 123456789, None)
        .unwrap();

    // Add a sell order that will match
    let sell_order_id = book
        .add_order(OrderSide::Sell, OrderType::Limit, Some(100), 5, 123456790, None)
        .unwrap();

    // Get order book snapshot
    let (buy_orders, sell_orders) = book.get_order_book_snapshot();

    // Verify buy orders (should have 5 remaining)
    assert_eq!(buy_orders.len(), 1);
    assert_eq!(buy_orders[0].0, 100); // Price
    assert_eq!(buy_orders[0].1, 5); // Quantity (10 - 5)

    // Verify sell orders (should be empty)
    assert_eq!(sell_orders.len(), 0);

    // Verify trades
    let trades = book.get_trades(None);
    assert_eq!(trades.len(), 1);
    assert_eq!(trades[0].buy_order_id, buy_order_id);
    assert_eq!(trades[0].sell_order_id, sell_order_id);
    assert_eq!(trades[0].price, 100);
    assert_eq!(trades[0].quantity, 5);
}

#[test]
fn test_market_order() {
    let mut book = OrderBook::new();

    // Add a sell limit order
    let sell_order_id = book
        .add_order(OrderSide::Sell, OrderType::Limit, Some(100), 10, 123456789, None)
        .unwrap();

    // Add a buy market order
    let buy_order_id = book
        .add_order(OrderSide::Buy, OrderType::Market, None, 5, 123456790, None)
        .unwrap();

    // Get order book snapshot
    let (buy_orders, sell_orders) = book.get_order_book_snapshot();

    // Verify buy orders (should be empty)
    assert_eq!(buy_orders.len(), 0);

    // Verify sell orders (should have 5 remaining)
    assert_eq!(sell_orders.len(), 1);
    assert_eq!(sell_orders[0].0, 100); // Price
    assert_eq!(sell_orders[0].1, 5); // Quantity (10 - 5)

    // Verify trades
    let trades = book.get_trades(None);
    assert_eq!(trades.len(), 1);
    assert_eq!(trades[0].buy_order_id, buy_order_id);
    assert_eq!(trades[0].sell_order_id, sell_order_id);
    assert_eq!(trades[0].price, 100);
    assert_eq!(trades[0].quantity, 5);
}

#[test]
fn test_cancel_order() {
    let mut book = OrderBook::new();

    // Add a buy order
    let buy_order_id = book
        .add_order(OrderSide::Buy, OrderType::Limit, Some(100), 10, 123456789, None)
        .unwrap();

    // Cancel the order
    let success = book.cancel_order(buy_order_id);
    assert!(success);

    // Get order book snapshot (should be empty)
    let (buy_orders, sell_orders) = book.get_order_book_snapshot();
    assert_eq!(buy_orders.len(), 0);
    assert_eq!(sell_orders.len(), 0);

    // Try to cancel a non-existent order
    let success = book.cancel_order(999);
    assert!(!success);
}

// An uncrossed book: both orders rest, nothing trades.
#[test]
fn uncrossed_book_rests_both_sides() {
    let mut book = OrderBook::new();
    book.add_order(OrderSide::Buy, OrderType::Limit, Some(100), 10, 1, None).unwrap();
    book.add_order(OrderSide::Sell, OrderType::Limit, Some(110), 5, 2, None).unwrap();
    let (bids, asks) = book.get_order_book_snapshot();
    assert_eq!(bids, vec![(100, 10)]);
    assert_eq!(asks, vec![(110, 5)]);
    assert_eq!(book.get_trades(None).len(), 0);
}

// A cross at equal prices trades at the maker's price with the maker's
// level consumed first.
#[test]
fn maker_price_on_cross() {
    let mut book = OrderBook::new();
    let b = book.add_order(OrderSide::Buy, OrderType::Limit, Some(100), 10, 1, None).unwrap();
    let s = book.add_order(OrderSide::Sell, OrderType::Limit, Some(100), 5, 2, None).unwrap();
    let trades = book.get_trades(None);
    assert_eq!(trades.len(), 1);
    assert_eq!(trades[0].price, 100);
    assert_eq!(trades[0].quantity, 5);
    assert_eq!(trades[0].buy_order_id, b);
    assert_eq!(trades[0].sell_order_id, s);
    assert_eq!(trades[0].timestamp, 2);
    let (bids, asks) = book.get_order_book_snapshot();
    assert_eq!(bids, vec![(100, 5)]);
    assert_eq!(asks.len(), 0);
}

// A market order with no liquidity is rejected: no trades, no change.
#[test]
fn market_rejection_on_empty_book() {
    let mut book = OrderBook::new();
    let id = book.add_order(OrderSide::Buy, OrderType::Market, None, 1, 1, None).unwrap();
    assert_eq!(id, 1);
    assert_eq!(book.get_trades(None).len(), 0);
    let (bids, asks) = book.get_order_book_snapshot();
    assert_eq!(bids.len(), 0);
    assert_eq!(asks.len(), 0);
}

// A market buy sweeps several ask levels best-first and leaves a partial
// level behind.
#[test]
fn market_sweeps_multiple_levels() {
    let mut book = OrderBook::new();
    book.add_order(OrderSide::Sell, OrderType::Limit, Some(101), 3, 1, None).unwrap();
    book.add_order(OrderSide::Sell, OrderType::Limit, Some(102), 4, 2, None).unwrap();
    book.add_order(OrderSide::Sell, OrderType::Limit, Some(103), 2, 3, None).unwrap();
    book.add_order(OrderSide::Buy, OrderType::Market, None, 6, 4, None).unwrap();
    let trades = book.get_trades(None);
    assert_eq!(trades.len(), 2);
    assert_eq!((trades[0].price, trades[0].quantity), (101, 3));
    assert_eq!((trades[1].price, trades[1].quantity), (102, 3));
    let (bids, asks) = book.get_order_book_snapshot();
    assert_eq!(bids.len(), 0);
    assert_eq!(asks, vec![(102, 1), (103, 2)]);
}

// Time priority within a level: the earlier resting order fills first.
#[test]
fn time_priority_within_level() {
    let mut book = OrderBook::new();
    let s1 = book.add_order(OrderSide::Sell, OrderType::Limit, Some(100), 2, 1, None).unwrap();
    let s2 = book.add_order(OrderSide::Sell, OrderType::Limit, Some(100), 2, 2, None).unwrap();
    book.add_order(OrderSide::Buy, OrderType::Limit, Some(100), 3, 3, None).unwrap();
    let trades = book.get_trades(None);
    assert_eq!(trades.len(), 2);
    assert_eq!((trades[0].price, trades[0].quantity, trades[0].sell_order_id), (100, 2, s1));
    assert_eq!((trades[1].price, trades[1].quantity, trades[1].sell_order_id), (100, 1, s2));
    let (bids, asks) = book.get_order_book_snapshot();
    assert_eq!(bids.len(), 0);
    assert_eq!(asks, vec![(100, 1)]);
}

// Cancelling twice: the second cancel finds nothing and changes nothing.
#[test]
fn cancel_is_idempotent() {
    let mut book = OrderBook::new();
    let id = book.add_order(OrderSide::Buy, OrderType::Limit, Some(100), 10, 1, None).unwrap();
    book.add_order(OrderSide::Buy, OrderType::Limit, Some(99), 4, 2, None).unwrap();
    assert!(book.cancel_order(id));
    let snapshot_after_first = book.get_order_book_snapshot();
    assert!(!book.cancel_order(id));
    assert_eq!(book.get_order_book_snapshot(), snapshot_after_first);
    assert_eq!(book.get_order_book_snapshot().0, vec![(99, 4)]);
}
