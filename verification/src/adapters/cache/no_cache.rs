//! A cache that never holds anything.

use crate::model::edge::{Edge, EdgeView};
use crate::model::edge_id::EdgeId;
use crate::model::node::{Node, NodeView};
use crate::model::node_id::NodeId;
use crate::ports::cache::CachePort;
use vstd::prelude::*;

verus! {

/// Passes every read on to the storage.
pub struct NoCache;

impl CachePort for NoCache {
    open spec fn valid(&self) -> bool {
        true
    }

    open spec fn nodes(&self) -> Map<NodeId, NodeView> {
        Map::empty()
    }

    open spec fn edges(&self) -> Map<EdgeId, EdgeView> {
        Map::empty()
    }

    /// Nothing comes of an offer.
    open spec fn took_node(&self, earlier: &Self, n: NodeView) -> bool {
        *self == *earlier
    }

    open spec fn took_edge(&self, earlier: &Self, e: EdgeView) -> bool {
        *self == *earlier
    }

    fn get_node(&mut self, id: NodeId) -> (r: Option<Node>)
        ensures
            r is None,
    {
        None
    }

    fn put_node(&mut self, node: Node) {
    }

    fn invalidate_node(&mut self, id: NodeId) {
        assert(self.nodes() =~= self.nodes().remove(id));
    }

    fn get_edge(&mut self, id: EdgeId) -> (r: Option<Edge>)
        ensures
            r is None,
    {
        None
    }

    fn put_edge(&mut self, edge: Edge) {
    }

    fn invalidate_edge(&mut self, id: EdgeId) {
        assert(self.edges() =~= self.edges().remove(id));
    }

    fn clear(&mut self) {
    }
}

} // verus!
