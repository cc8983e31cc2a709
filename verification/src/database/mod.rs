//! The assembled database.

pub mod batch;
pub mod coherence;
pub mod commit_laws;
pub mod config;
pub mod laws;
pub mod layered;
pub mod metrics;
pub mod metrics_laws;
pub mod query_laws;
pub mod settling;
