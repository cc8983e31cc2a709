//! Caches.

pub mod chosen;
pub mod lru;
pub mod no_cache;
pub mod recency;
