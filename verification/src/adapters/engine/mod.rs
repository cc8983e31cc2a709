//! Graph engines.

pub mod adjacency_list;
