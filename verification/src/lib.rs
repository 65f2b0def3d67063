//! Per-key summary statistics (minimum, mean, maximum) over a delimited
//! text corpus, computed in one batch pass.
//!
//! The input is a byte buffer of records `key;value\n`, where `value` is a
//! signed decimal with one or two integer digits and exactly one fractional
//! digit. Values are held as scaled integers (`decimal * 10`). The buffer is
//! split into line-aligned partitions; each partition is folded into a table
//! of per-key aggregates; the partition tables are merged by a commutative,
//! associative rule; the merged table is rendered as a sorted report.

pub mod decode;
pub mod scan;
pub mod table;
pub mod aggregate;
pub mod report;
pub mod pipeline;
