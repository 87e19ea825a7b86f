//! Snapshots of the state: their file format, and the root that authenticates their contents.
//!
//! The digest at the end of a snapshot is an integrity check: it guards against accidental
//! corruption. Any producer recomputes it, so it authenticates nothing. The contents are
//! authenticated by recomputing the state root from the records and comparing it with the root
//! that was settled on chain.

pub mod container;
pub mod header;
pub mod rebuild;
pub mod save;
pub mod source;
