//! Limit order book engine with price-feed aggregation.
//!
//! The book keeps one arena of price levels per side, an order index from
//! identifier to resting location, a best-price hint per side, and a retry
//! queue per side for market orders that found no liquidity.
pub mod aggregate;
pub mod api;
pub mod arena;
pub mod book;
pub mod clock;
pub mod index;
pub mod laws;
pub mod level;
pub mod model;
pub mod modifications;
pub mod queue;
pub mod types;
pub mod util;
