//! An in-memory limit order book with price-time priority.
//!
//! Prices are integer tick counts and quantities are integer lots. Midpoints
//! (the mid price of a quote, the price of a trade) are given doubled, as
//! the sum of the two prices, so that they stay exact between ticks.
pub mod order;
pub mod queue;
pub mod book;

pub use order::{Side, Order, Trade, Quote, LevelDepth};
pub use book::OrderBook;

