//! Longest weighted path in a directed acyclic graph.
//!
//! [`longest_path`] sorts the nodes of a [`Digraph`] topologically, asks a
//! fallible evaluator for the weight of every edge, and returns the nodes of
//! a heaviest path together with its weight.

mod backtrack;
mod dist;
mod forward;
pub mod graph;
pub mod laws;
pub mod order;
pub mod solve;

pub use graph::{Digraph, Edge};
pub use order::topological_order;
pub use solve::{evaluate_weights, longest_path, longest_path_in_order};
