//! Query languages.

pub mod agreement;
pub mod cypher_lite;
pub mod cypher_tokens;
pub mod simple;
pub mod simple_tokens;
pub mod written_cypher;
pub mod written_simple;
