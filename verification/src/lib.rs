//! An ordered binary tree of `i32` values: insertion, deletion, lookup,
//! depth, maximum, and a text picture of the tree, with every operation
//! proved against a mathematical model of the tree's shape.

pub mod laws;
pub mod layout;
pub mod node;
pub mod random;
pub mod shape;
pub mod text;
pub mod tree;

pub use crate::node::Node;
pub use crate::shape::Shape;
pub use crate::tree::{RenderError, Tree};
