//! Minimum-cost extraction from an e-graph: one node chosen per class, by a
//! generalisation of Dijkstra's shortest-path algorithm to hyperedges.

pub mod cost;
pub mod egraph;
pub mod index_map;
pub mod extract;
