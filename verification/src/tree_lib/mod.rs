//! The tree and its nodes.
pub mod node;
pub mod shape;
pub mod tree;
