//! Directed graphs with payloads on nodes and edges, and structural analyses over them:
//! traversals from the entry node, predecessor sets, immediate dominators and strongly
//! connected components.
//!
//! Nodes are identified by `usize`. The entry node of a graph is the first node added to
//! it. Nodes and successors are always enumerated in increasing order of identifier, so
//! every analysis is a function of what the graph holds.
//!
//! - `graph`: the graph store.
//! - `iterator`: the traversals, one node at a time; `traversal`, `postorder` and `layers`
//!   say what they compute and what holds of it, over the paths of `reach`.
//! - `analyzer`: predecessors, dominators, strongly connected components, and some smaller
//!   analyses.
//! - `laws`: what holds when an analysis is run again.
//! - `generator` and `visualizer`: the rules of random graphs and of drawings that do not
//!   depend on how numbers are drawn or pictures made.
pub mod analyzer;
pub mod generator;
pub mod graph;
pub mod iterator;
pub mod laws;
pub mod layers;
pub mod order;
pub mod postorder;
pub mod reach;
pub mod traversal;
pub mod visualizer;

pub use graph::{DiGraph, Edge, EmptyPayload};
