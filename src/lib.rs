//! A local mirror of an exchange's limit order book for one instrument.
//!
//! A book is loaded once from a REST snapshot and then kept current by
//! incremental price-level updates from a stream. Every mutation keeps the
//! asks strictly ascending and the bids strictly descending by price, holds no
//! zero-size level, and is all-or-nothing.
pub mod book;
pub mod codec;
pub mod json;
pub mod laws;
pub mod session;
pub mod snapshot;
pub mod update;
