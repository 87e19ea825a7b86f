//! Verified core of a rollup node's state snapshots, exit index and authenticated trees.

pub mod assoc;
pub mod bytes;
pub mod exit_index;
pub mod hashing;
pub mod indexer;
pub mod l1;
pub mod laws;
pub mod permission_tree;
pub mod permission_tree_view;
pub mod smt;
pub mod snapshot;
pub mod storage;
pub mod text;
