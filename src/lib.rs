//! Chunked, indexed storage of records.
//!
//! Records are grouped into chunks by their chunk key and identified inside a
//! chunk by their item key. A whole chunk can be dropped at once, and emptied
//! chunks are compacted lazily.

pub mod chunk;
pub mod laws;
pub mod query;
pub mod record;
pub mod secondary;
pub mod storage;
