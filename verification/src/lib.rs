//! A batch limit-order matching engine for a multi-pair spot exchange.
//!
//! Commands (create / delete) are routed by trading pair to an order book,
//! crossed against the opposite side under price-time priority, and recorded
//! as trades.  Every executable function carries a contract that Verus proves.
//!
//! - [`order`]: commands, resting orders, trades and snapshots;
//! - [`decimal`]: exact decimal numbers, as `rust_decimal` holds them;
//! - [`id_index`] and [`price_level_index`]: the two structures of a book;
//! - [`matching`]: what a command makes of a book, as mathematics;
//! - [`book`]: the order book of one pair;
//! - [`engine`]: one book for each pair, and whole batches;
//! - [`theorems`]: what holds of all of this for every input.

pub mod book;
pub mod decimal;
pub mod engine;
pub mod error;
pub mod filtering;
pub mod id_index;
pub mod matching;
pub mod order;
pub mod price_level_index;
pub mod theorems;
