//! A verified decoder and order-book replay engine for the NASDAQ ITCH 5.0
//! market-data feed.
//!
//! The crate has two halves. `decode` turns an unframed byte stream of
//! typed messages into per-symbol event logs, filtering by locate code.
//! `book` replays each symbol's log, maintaining the set of live resting
//! orders and the two price ladders, and stamps every event with the
//! prevailing best bid, best ask, spread and depth.

pub mod bytes;
pub mod message;
pub mod source;
pub mod wire;
pub mod decode;
pub mod sums;
pub mod ladder;
pub mod book;
pub mod locates;
