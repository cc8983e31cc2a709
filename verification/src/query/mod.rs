//! Queries: commands, planning and execution.

pub mod answer_laws;
pub mod ast;
pub mod comparison_laws;
pub mod executor;
pub mod languages;
pub mod plan_laws;
pub mod planner;
pub mod port;
pub mod result;
pub mod result_laws;
