//! An embeddable, layered property-graph database with verified logic.

pub mod model;

pub mod adapters;
pub mod algorithms;
pub mod collections;
pub mod console;
pub mod database;
pub mod float;
pub mod float_arithmetic_laws;
pub mod float_display;
pub mod float_format;
pub mod float_laws;
pub mod float_reading_laws;
pub mod float_text;
pub mod layout;
pub mod layout_laws;
pub mod natural;
pub mod number_text;
pub mod ports;
pub mod query;
pub mod runbook;
pub mod runbook_laws;
pub mod server;
pub mod server_laws;
pub mod text;
pub mod transaction;
pub mod unicode;
