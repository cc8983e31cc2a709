//! Graph algorithms.

pub mod bfs;
pub mod bfs_laws;
pub mod dfs;
pub mod dijkstra;
pub mod frontier;
pub mod route;
pub mod walk;
