//! What the command line decides: its options, its commands and its texts.

pub mod arguments;
pub mod commands;
pub mod console_laws;
pub mod display;
pub mod embedded;
pub mod remote;
pub mod sample;
pub mod state;
pub mod table_laws;
