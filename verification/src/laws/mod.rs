//! What the library promises, in terms of bytes, fields and places alone.
//!
//! The contracts of the library speak through its models. The laws here say what those models
//! come to, without them: of each operation, what its inputs and results have to do with each
//! other.

pub mod encoding;
pub mod exits;
pub mod permission;
pub mod snapshot;
pub mod store;
pub mod tree;
