//! Enumeration of cycles in a directed graph given as a list of integer-labelled edges.
//!
//! A [`Graph`] is built once from its edges and keeps, for every node, the ids of its
//! successors and of its predecessors in ascending order. [`Graph::find_cycles`] walks
//! the predecessor relation depth first, from every node in ascending order of the
//! ids and through the predecessors of a node from the largest down, and returns
//! every closed walk it meets.

pub mod ids;
pub mod graph;
pub mod search;
pub mod walks;
pub mod cycles;

pub use graph::{Graph, Node};
