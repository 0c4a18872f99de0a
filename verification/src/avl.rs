//! The tree itself: node representation and tree algorithms.

pub mod node;
pub mod tree;
pub mod laws;
