//! Implementations of the ports.

pub mod cache;
pub mod engine;
pub mod index;
pub mod storage;
