//! Maps used throughout the database.

pub mod entries;
pub mod filtering;
pub mod id_map;
pub mod string_map;
pub mod string_set;
