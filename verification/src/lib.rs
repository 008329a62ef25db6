//! Daily portfolio valuation for a small set of traded instruments.
//!
//! The heart of the crate is the valuation builder: it merges an irregular
//! stream of trades with an irregular stream of daily closing prices into a
//! dense, gap-aware series of `(date, value)` points per instrument, and its
//! output is pinned down by the contracts in [`portfolio`]. The [`prices`]
//! module holds the verified half of the price-sync stage: choosing the
//! provider request size and selecting which fetched rows are new.

pub mod date;
pub mod decimal;
pub mod env;
pub mod portfolio;
pub mod prices;
pub mod trade;
