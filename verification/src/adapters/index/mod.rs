//! In-memory indexes.

pub mod bucket_map;
pub mod label_index;
pub mod property_index;
