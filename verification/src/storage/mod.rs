//! The storage backends: append-only sorted runs, static search-tree runs
//! and the log-structured merge tree.

pub mod backends;
pub mod btree;
pub mod layout;
pub mod levels;
pub mod lsm;
pub mod merge;
pub mod part3btree;
pub mod runs;
pub mod traits;

pub use backends::{AppendOnlyLog, BTree};
pub use lsm::LSMTree;
pub use traits::DiskStorage;
