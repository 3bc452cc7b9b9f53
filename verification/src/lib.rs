//! An in-memory tree container with generic node ids.
//!
//! A [`Tree`] keeps its nodes in insertion order. Every node records the id of
//! its parent and the ids of its children, and all operations on the tree are
//! specified over the sequence of node models that the tree's view exposes.

pub mod descent;
pub mod equality;
pub mod error;
pub mod laws;
pub mod metrics;
pub mod node;
pub mod orders;
pub mod removal;
pub mod render;
pub mod seqs;
pub mod store;
pub mod subtree;
pub mod traversal;
pub mod tree;
pub mod validate;

pub use error::Error;
pub use node::{Node, NodeModel};
pub use tree::{NodeRemovalStrategy, SubTree, TraversalStrategy, Tree};
