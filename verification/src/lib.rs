//! A verified central limit order book matching engine for a multi-market
//! spot exchange: per-market price-time-priority books, a request dispatch
//! core, and a result-slot registry.

pub mod account;
pub mod asset;
pub mod book_model;
pub mod codec;
pub mod exchange;
pub mod laws;
pub mod state;
pub mod market;
pub mod order;
pub mod order_book;
pub mod price_level;
pub mod request;

pub use order::Order;
pub use order::OrderStatus;
pub use order::OrderType;
pub use order::Side;
