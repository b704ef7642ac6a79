//! An embedded ordered key-value store for 64-bit signed integer keys and
//! values: an in-memory write buffer, a page-aligned file format, three
//! interchangeable persistence strategies and a fixed-capacity page cache.

pub mod buffer;
pub mod client;
pub mod disk;
pub mod filter;
pub mod memtable;
pub mod page;
pub mod path;
pub mod records;
pub mod scans;
pub mod search;
pub mod sst;
pub mod storage;

pub use client::{Client, KVConfig, StorageType};
