//! Ranking of exchange-traded funds by how far their closing price fell over
//! a lookback window of trading days.
//!
//! The crate holds the rules of the ranking: how a ticker becomes an
//! exchange-qualified symbol and a request address, how closing prices are read
//! from daily bars, how a fall is measured, which funds qualify, and how the
//! report is ordered and worded. Every function is verified against its
//! contract. Fetching the bars and printing the report are left to the caller.
pub mod decline;
pub mod feed;
pub mod lookback;
pub mod price;
pub mod ranking;
pub mod report;
pub mod symbol;
pub mod text;
