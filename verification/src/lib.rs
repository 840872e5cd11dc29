//! A page-oriented storage engine for a small relational database: the
//! on-disk layout of table heaps, a bounded buffer pool with an LRU victim
//! selector, and the insert and scan operations built on top of it.

pub mod catalog;
pub mod executor;
pub mod query;
pub mod runs;
pub mod storage;
pub mod strings;
