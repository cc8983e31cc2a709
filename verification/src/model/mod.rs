//! The graph's basic types: identifiers, values, nodes, edges and errors.

pub mod edge;
pub mod edge_id;
pub mod error;
pub mod id_generator;
pub mod node;
pub mod node_id;
pub mod text_laws;
pub mod value;

pub use edge::Edge;
pub use edge_id::EdgeId;
pub use error::GraphError;
pub use id_generator::IdGenerator;
pub use node::Node;
pub use node_id::NodeId;
pub use value::Value;
