//! A generic doubly-linked sequence with constant-time insertion and removal
//! at both ends.
//!
//! Nodes live in an arena and refer to each other by handle, so the storage
//! alone owns every node and the forward and backward links are plain
//! indices.

mod arena;
pub mod laws;
pub mod list;
pub mod model;
pub mod node;

pub use list::List;
pub use node::Node;
