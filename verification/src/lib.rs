//! An ordered container built on an unbalanced binary search tree.
//!
//! Values are inserted one at a time (duplicates are silently ignored) and
//! read back through a lazy, non-destructive in-order traversal that yields
//! them in strictly ascending order.

pub mod order;
pub mod tree;
