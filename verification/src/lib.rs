pub mod hashing;
pub mod node;
pub mod tree;

pub use crate::node::Node;
pub use crate::tree::{CreationError, MerkleTree};
