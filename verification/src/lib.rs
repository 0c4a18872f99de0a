//! A height-balanced binary search tree (AVL tree) over a generic ordered
//! key type: insertion with automatic rebalancing, and a predecessor query.

pub mod order;
pub mod avl;
