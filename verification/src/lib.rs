//! Per-key summary statistics over newline-delimited `<key>;<value>` records.
//!
//! Values are fixed-point decimals with one fractional digit, held exactly as
//! a count of tenths in an `i64`, so every statistic the library reports is
//! exact: no rounding is introduced by the order in which records are folded
//! or partial results are merged.

pub mod aggregate;
pub mod parse;
pub mod pipeline;
pub mod stats;
pub mod table;

pub use aggregate::Aggregate;
pub use parse::parse_line;
pub use parse::ParseError;
pub use parse::Record;
pub use pipeline::aggregate_lines;
pub use pipeline::fold_lines;
pub use pipeline::merge_tables;
pub use pipeline::shard_lines;
pub use stats::ms_max;
pub use stats::ms_min;
pub use stats::ms_sum;
pub use table::AggregateTable;
pub use table::Entry;
