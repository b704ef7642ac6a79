//! The in-memory write buffer: a height-balanced binary search tree.

pub mod node;
pub mod tree;

pub use tree::AVLTree as Memtable;
