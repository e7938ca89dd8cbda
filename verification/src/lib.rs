//! A sparse Merkle tree of fixed depth with batched updates.

pub mod batch;
pub mod field;
pub mod laws;
pub mod merkle;
pub mod preimage;
pub mod tree;
pub mod utils;

pub use tree::{Tree, TreeError};
