//! Batch shortest paths on a static directed graph with non-negative integer
//! weights: a compressed adjacency layout built once, and a Dijkstra engine that
//! reuses its distance buffer and frontier across sources.
pub mod frontier;
pub mod graph;
pub mod paths;

pub use frontier::Frontier;
pub use graph::{Graph, GraphError, InputEdge};
pub use paths::{dijkstra, solve, UNREACHABLE};
