//! A single-symbol continuous double-auction matching engine with
//! price-time priority, verified with Verus.
//!
//! Prices and quantities are integer ticks: any market with a fixed tick
//! size maps onto them, and equality of prices is exact, so locating a
//! price level is deterministic.

pub mod order;
pub mod level;
pub mod model;
pub mod lemmas;
pub mod preserve;
pub mod book;
pub mod batch;
pub mod laws;
