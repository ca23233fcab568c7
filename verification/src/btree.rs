//! B-tree over the buffer pool.
//!
//! The tree supports point lookups, insertions with node splits, point
//! deletions, ordered range scans, and cursors that walk the entries in
//! key order.

pub mod cursor;
pub mod model;
pub mod trace;
pub mod tree;
