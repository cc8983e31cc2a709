//! The boundaries between the database and its interchangeable parts.

pub mod algorithm;
pub mod cache;
pub mod engine;
pub mod port_laws;
pub mod query_context;
pub mod storable;
pub mod storage;
