//! Verified core of a disk-usage analysis toolkit.
//!
//! The library covers the row codec (CSV and length-prefixed binary forms of
//! filesystem metadata rows), the per-folder statistics aggregation, the
//! in-memory folder index that answers directory queries, and the pure
//! decision logic of the parallel scanner.  File, network and terminal I/O
//! live outside the library and hand plain values in and out.

pub mod num;
pub mod quoting;
pub mod sorting;
pub mod record;
pub mod binary;
pub mod stats;
pub mod aggregate;
pub mod index;
pub mod machine;
pub mod row;
pub mod scan;
pub mod textfmt;
pub mod query;
pub mod items;
