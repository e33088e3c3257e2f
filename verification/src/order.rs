//! Value records: orders, trades, and the enums that classify them.

use vstd::prelude::*;

verus! {

/// Order type: `Market` orders take whatever liquidity stands in the book
/// and never rest; `Limit` orders carry a price and may rest.
#[derive(Clone, Copy, Debug, PartialEq, Eq, Structural)]
pub enum OrderType {
    Market,
    Limit,
}

/// Order side: `Buy` orders match against the sell book and vice versa.
#[derive(Clone, Copy, Debug, PartialEq, Eq, Structural)]
pub enum OrderSide {
    Buy,
    Sell,
}

/// Order status, as driven by the fill and cancel transitions.
#[derive(Clone, Copy, Debug, PartialEq, Eq, Structural)]
pub enum OrderStatus {
    New,
    PartiallyFilled,
    Filled,
    Cancelled,
    Rejected,
}

/// The error a submit call reports when its arguments are malformed;
/// the engine state is unchanged in that case.
#[derive(Clone, Copy, Debug, PartialEq, Eq, Structural)]
pub enum EngineError {
    InvalidArgument,
}

/// A single order: the submitted terms plus its live fill state.
///
/// Prices and quantities are integer ticks. `price` is `Some` exactly for
/// limit orders. `remaining_quantity` is kept materialized and always
/// equals `quantity - filled_quantity`.
#[derive(Debug)]
pub struct Order {
    pub id: u64,
    pub side: OrderSide,
    pub order_type: OrderType,
    pub price: Option<u64>,
    pub quantity: u64,
    pub filled_quantity: u64,
    pub status: OrderStatus,
    pub timestamp: u64,
    pub symbol: Option<String>,
    pub remaining_quantity: u64,
}

impl Order {
    /// A freshly submitted order: nothing filled, status `New`.
    pub fn new(
        id: u64,
        side: OrderSide,
        order_type: OrderType,
        price: Option<u64>,
        quantity: u64,
        timestamp: u64,
        symbol: Option<String>,
    ) -> (r: Order)
        ensures
            r == (Order {
                id,
                side,
                order_type,
                price,
                quantity,
                filled_quantity: 0,
                status: OrderStatus::New,
                timestamp,
                symbol,
                remaining_quantity: quantity,
            }),
    {
        Order {
            id,
            side,
            order_type,
            price,
            quantity,
            filled_quantity: 0,
            status: OrderStatus::New,
            timestamp,
            symbol,
            remaining_quantity: quantity,
        }
    }
}

impl Clone for Order {
    fn clone(&self) -> (r: Order)
        ensures
            r == *self,
    {
        Order {
            id: self.id,
            side: self.side,
            order_type: self.order_type,
            price: self.price,
            quantity: self.quantity,
            filled_quantity: self.filled_quantity,
            status: self.status,
            timestamp: self.timestamp,
            symbol: self.symbol.clone(),
            remaining_quantity: self.remaining_quantity,
        }
    }
}

/// A trade, emitted when two orders match; immutable once emitted.
///
/// Its price is always the resting (maker) order's limit price, its
/// timestamp the larger of the two orders' timestamps, and its symbol the
/// first non-empty symbol of (taker, maker).
#[derive(Debug)]
pub struct Trade {
    pub id: u64,
    pub buy_order_id: u64,
    pub sell_order_id: u64,
    pub price: u64,
    pub quantity: u64,
    pub timestamp: u64,
    pub symbol: Option<String>,
}

impl Clone for Trade {
    fn clone(&self) -> (r: Trade)
        ensures
            r == *self,
    {
        Trade {
            id: self.id,
            buy_order_id: self.buy_order_id,
            sell_order_id: self.sell_order_id,
            price: self.price,
            quantity: self.quantity,
            timestamp: self.timestamp,
            symbol: self.symbol.clone(),
        }
    }
}

/// Counters the engine keeps about its own activity.
#[derive(Clone, Copy, Debug, PartialEq, Eq, Structural)]
pub struct OrderBookStats {
    pub orders_processed: u64,
    pub trades_executed: u64,
}

impl Default for OrderBookStats {
    fn default() -> (r: OrderBookStats)
        ensures
            r.orders_processed == 0 && r.trades_executed == 0,
    {
        OrderBookStats { orders_processed: 0, trades_executed: 0 }
    }
}

} // verus!
