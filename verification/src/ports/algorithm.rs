//! Interchangeable graph algorithms.
//!
//! An algorithm reads the structure of the graph and changes nothing.

use crate::float::Float64;
use crate::model::node_id::NodeId;
use crate::ports::engine::{EngineView, GraphEnginePort};
use vstd::prelude::*;

verus! {

/// Visits the nodes that can be reached from a node.
pub trait TraversalAlgorithm {
    /// The nodes visited, in order.
    spec fn visits(&self, g: EngineView, start: NodeId) -> Seq<NodeId>;

    /// Visits nodes from `start` on and gives them in the order of the visit.
    fn traverse<E: GraphEnginePort>(&self, engine: &E, start: NodeId) -> (r: Vec<NodeId>)
        ensures
            r@ == self.visits(engine.graph(), start),
    ;
}

/// Finds a path of least total weight.
pub trait ShortestPathAlgorithm {
    /// Whether a result is right for the graph.
    spec fn solves(
        &self,
        g: EngineView,
        start: NodeId,
        goal: NodeId,
        result: Option<(Seq<NodeId>, Float64)>,
    ) -> bool;

    /// A path from `start` to `goal` with its total weight, if there is one.
    fn find_shortest_path<E: GraphEnginePort>(&self, engine: &E, start: NodeId, goal: NodeId) -> (r:
        Option<(Vec<NodeId>, Float64)>)
        ensures
            self.solves(
                engine.graph(),
                start,
                goal,
                match r {
                    Some(found) => Some((found.0@, found.1)),
                    None => None,
                },
            ),
    ;
}

} // verus!
