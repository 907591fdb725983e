//! The UCT search tree.
pub mod node;
