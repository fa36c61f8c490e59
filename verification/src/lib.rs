//! An ordered-set container over `u64`, backed by a height-balanced binary
//! search tree (AVL discipline): O(log n) membership test, insertion and
//! deletion, and full in-order enumeration.

pub mod avl_set;
pub mod balance;
pub mod laws;
pub mod node;
pub mod ops;
