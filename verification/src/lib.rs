//! Averages of recent closing prices.
//!
//! The library reads the daily time series of a stock out of a JSON document,
//! picks the closing prices of the most recent days, averages them in exact
//! decimal arithmetic and words the one-line summary that is served.

pub mod config;
pub mod decimal;
pub mod error;
pub mod json;
pub mod order;
pub mod parser;
pub mod report;
pub mod series;
