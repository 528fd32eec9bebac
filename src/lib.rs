//! A binary tree of owned nodes with a movable cursor.
//!
//! Nodes own their two child slots outright. The cursor (`Tree`) keeps the
//! nodes above its position as a stack of frames, so moving up to the parent
//! takes constant time without any pointer from a child back to its owner.

pub mod model;
pub mod bin_tree;
pub mod laws;

pub use model::{BinTree, TreeView};
pub use bin_tree::{Node, Tree};
