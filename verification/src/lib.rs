//! A historical currency-exchange rate engine.
//!
//! For every supported currency against the fixed base currency the engine
//! keeps a daily time series of exchange rates: it decides when a cached
//! series is stale and must be refreshed from the remote reference-rate feed,
//! fills missing calendar days by carrying the last known rate forward, and
//! answers point and bulk conversion queries by date, including queries
//! between two non-base currencies (triangulation through the base) and
//! inverse-direction queries.
//!
//! Rates are floating-point numbers to the surrounding application, but the
//! engine itself never interprets them: it stores each day's rate as the
//! decimal text in which it arrived, and a lookup answers with a quote that
//! names the stored texts and the arithmetic the caller is to apply.

pub mod codec;
pub mod currency;
pub mod date;
pub mod engine;
pub mod error;
pub mod feed;
pub mod series;
