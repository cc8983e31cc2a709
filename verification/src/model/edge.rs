//! Edges of the graph.

use crate::collections::string_map::StringMap;
use crate::model::edge_id::EdgeId;
use crate::model::node_id::NodeId;
use crate::model::value::{Value, ValueView};
use crate::float::Float64;
use vstd::prelude::*;
use vstd::string::StringExecFns;

verus! {

/// A directed, weighted edge with a label and named properties.
#[derive(Debug)]
pub struct Edge {
    /// The identifier.
    pub id: EdgeId,
    /// The node that the edge leaves.
    pub source: NodeId,
    /// The node that the edge enters.
    pub target: NodeId,
    /// The label, the kind of the relationship.
    pub label: String,
    /// The weight.
    pub weight: Float64,
    /// The properties by name.
    pub properties: StringMap<Value>,
}

/// What an edge holds.
pub struct EdgeView {
    pub id: EdgeId,
    pub source: NodeId,
    pub target: NodeId,
    pub label: Seq<char>,
    pub weight: Float64,
    pub properties: Map<Seq<char>, ValueView>,
}

impl View for Edge {
    type V = EdgeView;

    open spec fn view(&self) -> EdgeView {
        EdgeView {
            id: self.id,
            source: self.source,
            target: self.target,
            label: self.label@,
            weight: self.weight,
            properties: self.properties@,
        }
    }
}

impl Edge {
    /// An edge without properties.
    pub fn new(id: EdgeId, source: NodeId, target: NodeId, label: String, weight: Float64) -> (r:
        Edge)
        ensures
            r.id == id,
            r.source == source,
            r.target == target,
            r.label == label,
            r.weight == weight,
            r.properties@ == Map::<Seq<char>, ValueView>::empty(),
    {
        Edge { id, source, target, label, weight, properties: StringMap::new() }
    }

    /// The edge with one property more, or with another value for it.
    pub fn with_property(self, key: String, value: Value) -> (r: Edge)
        ensures
            r@ == (EdgeView { properties: self.properties@.insert(key@, value@), ..self@ }),
    {
        let mut properties = self.properties;
        properties.insert(key, value);
        Edge {
            id: self.id,
            source: self.source,
            target: self.target,
            label: self.label,
            weight: self.weight,
            properties,
        }
    }
}

impl EdgeView {
    /// The text of an edge: its ends, its identifier and its label.
    pub open spec fn text(self) -> Seq<char> {
        "("@ + self.source.text() + ") -["@ + self.id.text() + " :"@ + self.label + "]-> ("@
            + self.target.text() + ")"@
    }
}

impl Edge {
    /// The text of the edge, such as `(N0) -[E1 :KNOWS]-> (N2)`.
    pub fn display(&self) -> (r: String)
        ensures
            r@ == self@.text(),
    {
        let mut out = String::from_str("(");
        out.append(self.source.display().as_str());
        out.append(") -[");
        out.append(self.id.display().as_str());
        out.append(" :");
        out.append(self.label.as_str());
        out.append("]-> (");
        out.append(self.target.display().as_str());
        out.append(")");
        out
    }
}

impl Clone for Edge {
    fn clone(&self) -> (r: Edge)
        ensures
            r@ == self@,
    {
        Edge {
            id: self.id,
            source: self.source,
            target: self.target,
            label: self.label.clone(),
            weight: self.weight,
            properties: self.properties.clone(),
        }
    }
}

} // verus!
