//! Read-only analysis of Delta Lake tables: replay of the transaction log to
//! the set of active files at a version, and the reports and plans that are
//! computed from that set.
//!
//! The library works on plain values. What the blob store holds of a table is
//! handed to it as a [`table::TableSnapshot`]; every result is a function of
//! that snapshot and the arguments.
pub mod action;
pub mod compaction;
pub mod diff;
pub mod digest;
pub mod grouping;
pub mod json;
pub mod log;
pub mod model;
pub mod order;
pub mod partitions;
pub mod ranking;
pub mod replay;
pub mod reports;
pub mod shard;
pub mod sorted_map;
pub mod storage;
pub mod table;
pub mod text;
pub mod text_set;
pub mod vacuum;
