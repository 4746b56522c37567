//! Verified core of a Monero merchant payment gateway.
//!
//! The library holds everything with correctness constraints: exact
//! atomic-unit money arithmetic, decimal parsing and formatting, currency
//! conversion, the JSON-RPC response resolution order, transfer aggregation
//! and the paid/unpaid decision. Transport (HTTP, JSON encoding, the wallet
//! and price-feed endpoints) lives outside the library and hands it plain
//! values.

pub mod amount;
pub mod config;
pub mod convert;
pub mod errors;
pub mod invoice;
pub mod payment;
pub mod price;
pub mod rpc;
pub mod wallet;
