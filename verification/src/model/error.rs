//! The errors of the database.

use crate::model::edge_id::EdgeId;
use crate::model::node_id::NodeId;
use crate::text::{concat2, concat3};
use vstd::prelude::*;
use vstd::std_specs::convert::FromSpecImpl;

verus! {

/// Everything that can go wrong in the database.
#[derive(Debug)]
pub enum GraphError {
    /// No node has this identifier.
    NodeNotFound(NodeId),
    /// No edge has this identifier.
    EdgeNotFound(EdgeId),
    /// A node with this identifier exists already.
    DuplicateNode(NodeId),
    /// An edge with this identifier exists already.
    DuplicateEdge(EdgeId),
    /// Reading or writing the storage failed.
    StorageIo(String),
    /// A value could not be written as text.
    SerializationError(String),
    /// Text or bytes could not be understood.
    DeserializationError(String),
}

/// What an error says.
pub enum GraphErrorView {
    NodeNotFound(NodeId),
    EdgeNotFound(EdgeId),
    DuplicateNode(NodeId),
    DuplicateEdge(EdgeId),
    StorageIo(Seq<char>),
    SerializationError(Seq<char>),
    DeserializationError(Seq<char>),
}

impl View for GraphError {
    type V = GraphErrorView;

    open spec fn view(&self) -> GraphErrorView {
        match *self {
            GraphError::NodeNotFound(id) => GraphErrorView::NodeNotFound(id),
            GraphError::EdgeNotFound(id) => GraphErrorView::EdgeNotFound(id),
            GraphError::DuplicateNode(id) => GraphErrorView::DuplicateNode(id),
            GraphError::DuplicateEdge(id) => GraphErrorView::DuplicateEdge(id),
            GraphError::StorageIo(m) => GraphErrorView::StorageIo(m@),
            GraphError::SerializationError(m) => GraphErrorView::SerializationError(m@),
            GraphError::DeserializationError(m) => GraphErrorView::DeserializationError(m@),
        }
    }
}

impl GraphErrorView {
    /// The message of an error.
    pub open spec fn message(self) -> Seq<char> {
        match self {
            GraphErrorView::NodeNotFound(id) => "node "@ + id.text() + " not found"@,
            GraphErrorView::EdgeNotFound(id) => "edge "@ + id.text() + " not found"@,
            GraphErrorView::DuplicateNode(id) => "node "@ + id.text() + " already exists"@,
            GraphErrorView::DuplicateEdge(id) => "edge "@ + id.text() + " already exists"@,
            GraphErrorView::StorageIo(m) => "storage I/O error: "@ + m,
            GraphErrorView::SerializationError(m) => "serialization error: "@ + m,
            GraphErrorView::DeserializationError(m) => "deserialization error: "@ + m,
        }
    }
}

/// `std::io::Error`, the error of an operation of the operating system.
#[verifier::external_type_specification]
#[verifier::external_body]
pub struct ExIoError(std::io::Error);

/// `serde_json::Error`, the error of reading or writing JSON.
#[verifier::external_type_specification]
#[verifier::external_body]
pub struct ExJsonError(serde_json::Error);

/// `to_string` on a `std::io::Error` gives its message. Nothing is promised of
/// it: much of it comes from the operating system.
#[verifier::external_body]
fn io_message(e: &std::io::Error) -> (r: String) {
    e.to_string()
}

/// `to_string` on a `serde_json::Error` gives its message. Nothing is promised
/// of it: what the error holds is not visible.
#[verifier::external_body]
fn json_message(e: &serde_json::Error) -> (r: String) {
    e.to_string()
}

/// Whether an error comes from the storage.
pub open spec fn is_storage_failure(e: GraphError) -> bool {
    e is StorageIo
}

/// Whether an error comes from writing JSON.
pub open spec fn is_json_failure(e: GraphError) -> bool {
    e is SerializationError
}

/// The error of the storage with the message of the operating system.
impl From<std::io::Error> for GraphError {
    fn from(e: std::io::Error) -> (r: GraphError)
        ensures
            is_storage_failure(r),
    {
        GraphError::storage_failure(io_message(&e))
    }
}

impl FromSpecImpl<std::io::Error> for GraphError {
    open spec fn obeys_from_spec() -> bool {
        false
    }

    open spec fn from_spec(e: std::io::Error) -> GraphError {
        choose|r: GraphError| #[trigger] is_storage_failure(r)
    }
}

/// The error of writing JSON with the message of that error.
impl From<serde_json::Error> for GraphError {
    fn from(e: serde_json::Error) -> (r: GraphError)
        ensures
            is_json_failure(r),
    {
        GraphError::json_failure(json_message(&e))
    }
}

impl FromSpecImpl<serde_json::Error> for GraphError {
    open spec fn obeys_from_spec() -> bool {
        false
    }

    open spec fn from_spec(e: serde_json::Error) -> GraphError {
        choose|r: GraphError| #[trigger] is_json_failure(r)
    }
}

impl GraphError {
    /// The error of the storage with a message of the operating system.
    pub fn storage_failure(message: String) -> (r: GraphError)
        ensures
            r@ == GraphErrorView::StorageIo(message@),
    {
        GraphError::StorageIo(message)
    }

    /// The error of writing JSON with a message.
    pub fn json_failure(message: String) -> (r: GraphError)
        ensures
            r@ == GraphErrorView::SerializationError(message@),
    {
        GraphError::SerializationError(message)
    }

    /// The message of the error.
    pub fn display(&self) -> (r: String)
        ensures
            r@ == self@.message(),
    {
        match self {
            GraphError::NodeNotFound(id) => concat3("node ", id.display().as_str(), " not found"),
            GraphError::EdgeNotFound(id) => concat3("edge ", id.display().as_str(), " not found"),
            GraphError::DuplicateNode(id) => concat3(
                "node ",
                id.display().as_str(),
                " already exists",
            ),
            GraphError::DuplicateEdge(id) => concat3(
                "edge ",
                id.display().as_str(),
                " already exists",
            ),
            GraphError::StorageIo(m) => concat2("storage I/O error: ", m.as_str()),
            GraphError::SerializationError(m) => concat2("serialization error: ", m.as_str()),
            GraphError::DeserializationError(m) => concat2("deserialization error: ", m.as_str()),
        }
    }
}

} // verus!
