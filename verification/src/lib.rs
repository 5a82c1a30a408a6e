//! The per-partition log engine of a message streaming broker: batches of
//! messages are given consecutive offsets within a partition, kept in
//! segments, and served back by offset, by timestamp or by size.

pub mod batch;
pub mod buffer;
pub mod cache;
pub mod chain;
pub mod deduplicator;
pub mod error;
pub mod index;
pub mod iterator;
pub mod laws;
pub mod message;
pub mod partition;
pub mod segment;
pub mod system;
pub mod utils;
