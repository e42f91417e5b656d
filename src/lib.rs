//! Shortest paths from every node of a positioned graph to every destination
//! node: a dense adjacency matrix built from node coordinates and edges, a
//! lazy-deletion Dijkstra search with path reconstruction, and the table of
//! all node-to-destination results.

use vstd::prelude::*;

pub mod dijkstra;
pub mod graph;
pub mod isqrt;
pub mod model;
pub mod paths;
pub mod queue;

pub use crate::graph::{compute_all_distances, DijkstrasTable, Graph};
pub use crate::isqrt::isqrt;
pub use crate::model::{Edge, GraphError, Node, NodeTags, ShortestPath};
pub use crate::paths::{path_reconstruct, AdjMatrix};
pub use crate::queue::MinQueue;

verus! {

} // verus!
