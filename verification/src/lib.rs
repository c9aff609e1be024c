//! A sorted map implemented with a red-black tree.
//!
//! Every operation is specified against a mathematical view of the tree as a
//! `Map<u64, V>`, and the red-black balancing invariants are stated and proved
//! for every mutating operation.

pub mod rbtree;

pub use self::rbtree::RbTree;
