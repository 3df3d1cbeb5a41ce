//! An in-memory ordered index: a B-tree over `u64` keys supporting insertion
//! and membership search.
//!
//! Nodes live in an arena (`Vec<Node>`) owned by the tree and refer to their
//! children by stable arena indices, so the subtree strictly between two
//! adjacent separators can be addressed from both of them as the same index.

pub mod btree;
pub mod key;
pub mod node;
