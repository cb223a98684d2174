//! Graph algorithms over small in-memory graphs, with machine-checked
//! contracts.
//!
//! Each algorithm has a module of its own, together with the graph
//! representation it works on:
//!
//! - [`bfs`]: breadth-first traversal;
//! - [`dfs`]: depth-first traversal;
//! - [`dijkstras`]: shortest distances under non-negative weights;
//! - [`bellmanford`]: shortest distances under any weights, with detection of
//!   cycles of negative weight;
//! - [`kosaraju`]: strongly connected components.
//!
//! The other modules hold what the contracts are stated in: [`reach`] for
//! edges and walks in adjacency lists, [`weighted`] and [`cycles`] for walks
//! with weights, [`traverse`] and [`traverse_facts`] for depth-first
//! exploration, [`frontier`] for the priority queue of Dijkstra's algorithm,
//! and [`error`] for the failures that are reported.
//!
//! Edges are directed in every representation: an edge that runs both ways
//! is stored as two edges, and the functions that build a graph from a list
//! of pairs say where they do so.
//!
//! Vertices are the numbers `0 .. n`. Every algorithm, and every insertion of
//! an edge, that is handed a vertex outside that range reports
//! [`error::GraphError::InvalidVertexIndex`].

pub mod bellmanford;
pub mod bfs;
pub mod cycles;
pub mod dfs;
pub mod dijkstras;
pub mod error;
pub mod frontier;
pub mod kosaraju;
pub mod reach;
pub mod traverse;
pub mod traverse_facts;
pub mod weighted;
