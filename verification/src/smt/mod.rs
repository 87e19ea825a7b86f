//! Sparse Merkle tree over 32-byte paths: positions, nodes and bulk construction.

pub mod builder;
pub mod key;
pub mod node;
pub mod sort;
