use matching_engine::batch::OrderBatch;
use matching_engine::book::OrderBook;
use matching_engine::level::PriceLevel;
use matching_engine::order::{EngineError, Order, OrderSide, OrderStatus, OrderType};

// Conservation: the fills recorded in the trade log add up to the
// quantity the book reports as consumed.
#[test]
fn conservation_across_fills() {
    let mut book = OrderBook::new();
    let buy = book.add_order(OrderSide::Buy, OrderType::Limit, Some(100), 10, 1, None).unwrap();
    book.add_order(OrderSide::Sell, OrderType::Limit, Some(100), 4, 2, None).unwrap();
    book.add_order(OrderSide::Sell, OrderType::Limit, Some(100), 3, 3, None).unwrap();
    let trades = book.get_trades(None);
    let filled: u64 = trades
        .iter()
        .filter(|t| t.buy_order_id == buy)
        .map(|t| t.quantity)
        .sum();
    assert_eq!(filled, 7);
    let (bids, _) = book.get_order_book_snapshot();
    // submitted 10 = filled 7 + remaining 3
    assert_eq!(bids, vec![(100, 3)]);
}

// Monotone ids: order ids and trade ids each count up from 1.
#[test]
fn ids_count_up_from_one() {
    let mut book = OrderBook::new();
    let a = book.add_order(OrderSide::Buy, OrderType::Limit, Some(10), 1, 1, None).unwrap();
    let b = book.add_order(OrderSide::Sell, OrderType::Limit, Some(10), 1, 2, None).unwrap();
    let c = book.add_order(OrderSide::Buy, OrderType::Limit, Some(9), 1, 3, None).unwrap();
    assert_eq!((a, b, c), (1, 2, 3));
    let mut book2 = OrderBook::new();
    book2.add_order(OrderSide::Sell, OrderType::Limit, Some(5), 1, 1, None).unwrap();
    book2.add_order(OrderSide::Sell, OrderType::Limit, Some(6), 1, 2, None).unwrap();
    book2.add_order(OrderSide::Buy, OrderType::Market, None, 2, 3, None).unwrap();
    let trades = book2.get_trades(None);
    assert_eq!(trades.len(), 2);
    assert_eq!(trades[0].id, 1);
    assert_eq!(trades[1].id, 2);
}

// Non-crossed book: after any sequence of submits, every bid price is
// below every ask price.
#[test]
fn book_never_crossed() {
    let mut book = OrderBook::new();
    book.add_order(OrderSide::Buy, OrderType::Limit, Some(100), 5, 1, None).unwrap();
    book.add_order(OrderSide::Sell, OrderType::Limit, Some(99), 2, 2, None).unwrap();
    book.add_order(OrderSide::Buy, OrderType::Limit, Some(101), 4, 3, None).unwrap();
    book.add_order(OrderSide::Sell, OrderType::Limit, Some(98), 9, 4, None).unwrap();
    let (bids, asks) = book.get_order_book_snapshot();
    for (bp, _) in &bids {
        for (ap, _) in &asks {
            assert!(bp < ap);
        }
    }
}

// Market orders never rest: residue of a partially filled market order
// is discarded.
#[test]
fn market_residue_never_rests() {
    let mut book = OrderBook::new();
    book.add_order(OrderSide::Sell, OrderType::Limit, Some(100), 3, 1, None).unwrap();
    book.add_order(OrderSide::Buy, OrderType::Market, None, 10, 2, None).unwrap();
    let (bids, asks) = book.get_order_book_snapshot();
    assert_eq!(bids.len(), 0);
    assert_eq!(asks.len(), 0);
    let trades = book.get_trades(None);
    assert_eq!(trades.len(), 1);
    assert_eq!(trades[0].quantity, 3);
}

// Aggregate consistency: snapshot quantities equal the sum of remaining
// quantities per level.
#[test]
fn snapshot_aggregates_per_level() {
    let mut book = OrderBook::new();
    book.add_order(OrderSide::Buy, OrderType::Limit, Some(100), 3, 1, None).unwrap();
    book.add_order(OrderSide::Buy, OrderType::Limit, Some(100), 4, 2, None).unwrap();
    book.add_order(OrderSide::Buy, OrderType::Limit, Some(99), 5, 3, None).unwrap();
    let (bids, _) = book.get_order_book_snapshot();
    assert_eq!(bids, vec![(100, 7), (99, 5)]);
}

// Invalid arguments are rejected without touching the book.
#[test]
fn invalid_arguments_are_rejected() {
    let mut book = OrderBook::new();
    assert_eq!(
        book.add_order(OrderSide::Buy, OrderType::Limit, Some(100), 0, 1, None),
        Err(EngineError::InvalidArgument)
    );
    assert_eq!(
        book.add_order(OrderSide::Buy, OrderType::Market, Some(100), 5, 1, None),
        Err(EngineError::InvalidArgument)
    );
    assert_eq!(
        book.add_order(OrderSide::Buy, OrderType::Limit, None, 5, 1, None),
        Err(EngineError::InvalidArgument)
    );
    assert_eq!(
        book.add_order(OrderSide::Sell, OrderType::Limit, Some(0), 5, 1, None),
        Err(EngineError::InvalidArgument)
    );
    let (bids, asks) = book.get_order_book_snapshot();
    assert_eq!(bids.len(), 0);
    assert_eq!(asks.len(), 0);
    let stats = book.get_statistics();
    assert_eq!(stats.orders_processed, 0);
    assert_eq!(stats.trades_executed, 0);
}

// The trade log suffix: a limit returns the last trades in order.
#[test]
fn trades_limit_returns_suffix() {
    let mut book = OrderBook::new();
    for t in 0..3u64 {
        book.add_order(OrderSide::Sell, OrderType::Limit, Some(100), 1, t, None).unwrap();
        book.add_order(OrderSide::Buy, OrderType::Limit, Some(100), 1, t, None).unwrap();
    }
    assert_eq!(book.get_trades(None).len(), 3);
    let last_two = book.get_trades(Some(2));
    assert_eq!(last_two.len(), 2);
    assert_eq!(last_two[0].id, 2);
    assert_eq!(last_two[1].id, 3);
    assert_eq!(book.get_trades(Some(10)).len(), 3);
    assert_eq!(book.get_trades(Some(0)).len(), 0);
}

// Statistics track submits and fills.
#[test]
fn statistics_track_activity() {
    let mut book = OrderBook::new();
    book.add_order(OrderSide::Sell, OrderType::Limit, Some(100), 2, 1, None).unwrap();
    book.add_order(OrderSide::Buy, OrderType::Market, None, 2, 2, None).unwrap();
    let stats = book.get_statistics();
    assert_eq!(stats.orders_processed, 2);
    assert_eq!(stats.trades_executed, 1);
}

// Trade symbol: the taker's symbol wins; the maker's is the fallback.
#[test]
fn trade_symbol_prefers_taker() {
    let mut book = OrderBook::new();
    book.add_order(
        OrderSide::Sell,
        OrderType::Limit,
        Some(100),
        2,
        1,
        Some("ABC".to_string()),
    )
    .unwrap();
    book.add_order(
        OrderSide::Buy,
        OrderType::Limit,
        Some(100),
        2,
        2,
        Some("XYZ".to_string()),
    )
    .unwrap();
    book.add_order(OrderSide::Sell, OrderType::Limit, Some(90), 1, 3, None).unwrap();
    book.add_order(OrderSide::Buy, OrderType::Limit, Some(90), 1, 4, Some("QRS".to_string()))
        .unwrap();
    let trades = book.get_trades(None);
    assert_eq!(trades.len(), 2);
    assert_eq!(trades[0].symbol.as_deref(), Some("XYZ"));
    assert_eq!(trades[1].symbol.as_deref(), Some("QRS"));
}

// Batch submission: ids in input order, processing market-first with the
// deterministic group ordering.
#[test]
fn batch_orders_ids_and_ordering() {
    let mut book = OrderBook::new();
    book.add_order(OrderSide::Sell, OrderType::Limit, Some(100), 5, 0, None).unwrap();
    let ids = book
        .batch_add_orders(vec![
            (OrderSide::Buy, OrderType::Limit, Some(101), 2, 10, None),
            (OrderSide::Buy, OrderType::Market, None, 1, 5, None),
        ])
        .unwrap();
    // Ids follow input order even though the market order runs first.
    assert_eq!(ids, vec![2, 3]);
    let trades = book.get_trades(None);
    // The market order traded first, then the crossing limit order.
    assert_eq!(trades.len(), 2);
    assert_eq!(trades[0].buy_order_id, 3);
    assert_eq!(trades[0].quantity, 1);
    assert_eq!(trades[1].buy_order_id, 2);
    assert_eq!(trades[1].quantity, 2);
    assert_eq!(trades[1].price, 100);
    let (bids, asks) = book.get_order_book_snapshot();
    assert_eq!(asks, vec![(100, 2)]);
    assert_eq!(bids.len(), 0);
}

// A batch with any malformed descriptor is rejected whole.
#[test]
fn batch_rejects_invalid_descriptor() {
    let mut book = OrderBook::new();
    let r = book.batch_add_orders(vec![
        (OrderSide::Buy, OrderType::Limit, Some(101), 2, 10, None),
        (OrderSide::Buy, OrderType::Limit, None, 1, 5, None),
    ]);
    assert_eq!(r, Err(EngineError::InvalidArgument));
    assert_eq!(book.get_statistics().orders_processed, 0);
}

// The batch groups sort stably: equal keys keep input order.
#[test]
fn batch_sort_is_stable_and_keyed() {
    let mut batch = OrderBatch::new();
    let mk = |id: u64, price: u64, ts: u64| Order::new(
        id,
        OrderSide::Buy,
        OrderType::Limit,
        Some(price),
        1,
        ts,
        None,
    );
    batch.add_order(mk(1, 100, 9));
    batch.add_order(mk(2, 101, 5));
    batch.add_order(mk(3, 100, 9));
    batch.add_order(mk(4, 101, 1));
    assert_eq!(batch.len(), 4);
    assert!(!batch.is_empty());
    batch.sort();
    let ids: Vec<u64> = batch.buy_limit_orders.iter().map(|o| o.id).collect();
    // Descending price, then ascending time, ties in input order.
    assert_eq!(ids, vec![4, 2, 1, 3]);
}

// A price level keeps FIFO order on removal and an exact aggregate.
#[test]
fn price_level_fifo_and_aggregate() {
    let mut level = PriceLevel::new(100);
    let mk = |id: u64, qty: u64| Order::new(
        id,
        OrderSide::Buy,
        OrderType::Limit,
        Some(100),
        qty,
        0,
        None,
    );
    level.add_order(mk(1, 2));
    level.add_order(mk(2, 3));
    level.add_order(mk(3, 4));
    assert_eq!(level.total_quantity(), 9);
    let removed = level.remove_order(2).unwrap();
    assert_eq!(removed.id, 2);
    assert_eq!(level.total_quantity(), 6);
    let ids: Vec<u64> = level.orders.iter().map(|o| o.id).collect();
    assert_eq!(ids, vec![1, 3]);
    assert!(level.remove_order(2).is_none());
    assert!(!level.is_empty());
}

// A cloned engine carries the same state forward independently.
#[test]
fn clone_copies_state() {
    let mut book = OrderBook::new();
    book.add_order(OrderSide::Buy, OrderType::Limit, Some(100), 10, 1, None).unwrap();
    let mut copy = book.clone();
    assert_eq!(copy.get_order_book_snapshot(), book.get_order_book_snapshot());
    copy.add_order(OrderSide::Sell, OrderType::Limit, Some(100), 4, 2, None).unwrap();
    assert_eq!(copy.get_order_book_snapshot().0, vec![(100, 6)]);
    assert_eq!(book.get_order_book_snapshot().0, vec![(100, 10)]);
}

// Order creation: a fresh order starts unfilled with status `New`.
#[test]
fn order_new_is_unfilled() {
    let o = Order::new(7, OrderSide::Sell, OrderType::Limit, Some(42), 9, 3, None);
    assert_eq!(o.id, 7);
    assert_eq!(o.filled_quantity, 0);
    assert_eq!(o.remaining_quantity, 9);
    assert_eq!(o.quantity, 9);
    assert_eq!(o.status, OrderStatus::New);
}

// The index follows fills: a partially filled resting order can still be
// cancelled; a fully filled one cannot.
#[test]
fn index_follows_fills() {
    let mut book = OrderBook::new();
    let partial = book.add_order(OrderSide::Buy, OrderType::Limit, Some(100), 10, 1, None).unwrap();
    let full = book.add_order(OrderSide::Buy, OrderType::Limit, Some(101), 2, 2, None).unwrap();
    // Sell 5 at 100: fully fills the order at 101, partially the one at 100.
    book.add_order(OrderSide::Sell, OrderType::Limit, Some(100), 5, 3, None).unwrap();
    assert!(!book.cancel_order(full));
    assert!(book.cancel_order(partial));
    let (bids, asks) = book.get_order_book_snapshot();
    assert_eq!(bids.len(), 0);
    assert_eq!(asks.len(), 0);
}

// Snapshot ordering: bids descending, asks ascending, best first.
#[test]
fn snapshot_is_best_first() {
    let mut book = OrderBook::new();
    book.add_order(OrderSide::Buy, OrderType::Limit, Some(98), 1, 1, None).unwrap();
    book.add_order(OrderSide::Buy, OrderType::Limit, Some(100), 1, 2, None).unwrap();
    book.add_order(OrderSide::Buy, OrderType::Limit, Some(99), 1, 3, None).unwrap();
    book.add_order(OrderSide::Sell, OrderType::Limit, Some(103), 1, 4, None).unwrap();
    book.add_order(OrderSide::Sell, OrderType::Limit, Some(101), 1, 5, None).unwrap();
    book.add_order(OrderSide::Sell, OrderType::Limit, Some(102), 1, 6, None).unwrap();
    let (bids, asks) = book.get_order_book_snapshot();
    assert_eq!(bids, vec![(100, 1), (99, 1), (98, 1)]);
    assert_eq!(asks, vec![(101, 1), (102, 1), (103, 1)]);
}

// A limit order stops matching at its price bound: the trade price is
// the maker's, and levels beyond the bound stay.
#[test]
fn limit_respects_price_bound() {
    let mut book = OrderBook::new();
    book.add_order(OrderSide::Sell, OrderType::Limit, Some(99), 1, 1, None).unwrap();
    book.add_order(OrderSide::Sell, OrderType::Limit, Some(102), 1, 2, None).unwrap();
    // A buy limit at 100 crosses only the 99 ask; the rest of it rests.
    book.add_order(OrderSide::Buy, OrderType::Limit, Some(100), 3, 3, None).unwrap();
    let trades = book.get_trades(None);
    assert_eq!(trades.len(), 1);
    assert_eq!((trades[0].price, trades[0].quantity), (99, 1));
    let (bids, asks) = book.get_order_book_snapshot();
    assert_eq!(bids, vec![(100, 2)]);
    assert_eq!(asks, vec![(102, 1)]);
}
