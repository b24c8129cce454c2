//! Per-epoch stake aggregation.
//!
//! For each epoch of an inclusive range, a data source delivers raw
//! `(pool_id, amount)` stake entries with the amounts as decimal
//! strings. This library parses the amounts, totals them per pool with
//! full 128-bit precision, and renders the result as deterministic,
//! pool-sorted CSV text. Fetching the entries and writing the file are
//! the caller's I/O; everything between is verified.

pub mod amount;
pub mod csv;
pub mod driver;
pub mod entries;
pub mod lex;
pub mod pool_map;
