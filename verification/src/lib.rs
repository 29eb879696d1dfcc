//! Core of a low-latency market-data validator: a per-instrument limit order
//! book with price-time priority, a matching engine for crossing orders, a
//! cancel path driven by an id index, a change-detection filter for book-top
//! publications, the wire codec for order records, the shared-memory slot
//! protocol, and the decision logic of the ingress loop.
//!
//! Prices are held as scaled integers (micro-units); instrument symbols are
//! held as raw octets. Transports and floating-point conversions live outside
//! this crate.

pub mod codec;
pub mod engine;
pub mod filter;
pub mod laws;
pub mod model;
pub mod orderbook;
pub mod slot;
pub mod utils;
