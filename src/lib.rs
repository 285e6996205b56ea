//! A binary search tree over any element type with a lawful `PartialOrd`.
//!
//! The tree is modelled by its in-order sequence of values: every operation
//! states what it does to that sequence, and well-formedness is the statement
//! that the sequence is sorted.

pub mod balance;
pub mod order;
pub mod sort;
pub mod tree;

pub use tree::{BinarySearchTree, BinarySearchTreeIter, TreeError};

