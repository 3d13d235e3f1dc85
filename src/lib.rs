//! A price-time priority order book matching engine for registered trading
//! pairs, with its balance ledger, market statistics and read views.

pub mod fixed;
pub mod ledger;
pub mod types;
pub mod ladder;
pub mod hashing;
pub mod exchange;
pub mod engine;
pub mod rpc;
