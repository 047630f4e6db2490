//! Two verified container types: an ordered binary tree with insertion and a
//! recursive mirror operation, and a singly linked list with tail append,
//! first-match removal and forward iteration.

pub mod list;
pub mod tree;
