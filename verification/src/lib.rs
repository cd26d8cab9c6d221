//! An owned binary tree: leaf construction, an incremental builder,
//! structure-preserving mapping traversals, a breadth-first iterator that
//! reports each element's depth, and a textual renderer of the tree's shape.

pub mod binary_tree;
pub mod error;

pub use error::Error;
