//! The fast read layer in front of the storage.
//!
//! The database asks the cache before it reads from the storage, and fills it on
//! a miss. A cache may forget entries at any time that it takes one in.

use crate::model::edge::{Edge, EdgeView};
use crate::model::edge_id::EdgeId;
use crate::model::node::{Node, NodeView};
use crate::model::node_id::NodeId;
use vstd::prelude::*;

verus! {

/// Whether a map holds nothing but the new entry and what another map held.
pub open spec fn within_insert<K, W>(after: Map<K, W>, before: Map<K, W>, k: K, w: W) -> bool {
    forall|j: K| #[trigger]
        after.contains_key(j) ==> if j == k {
            after[j] == w
        } else {
            before.contains_key(j) && after[j] == before[j]
        }
}

/// A cache of nodes and edges.
pub trait CachePort {
    /// Whether the cache is in order.
    spec fn valid(&self) -> bool;

    /// The nodes that the cache holds.
    spec fn nodes(&self) -> Map<NodeId, NodeView>;

    /// The edges that the cache holds.
    spec fn edges(&self) -> Map<EdgeId, EdgeView>;

    /// Whether the cache became what it is when it was offered a node in an earlier
    /// state.
    spec fn took_node(&self, earlier: &Self, n: NodeView) -> bool;

    /// Whether the cache became what it is when it was offered an edge in an earlier
    /// state.
    spec fn took_edge(&self, earlier: &Self, e: EdgeView) -> bool;

    /// The node with this identifier, if the cache holds it.
    fn get_node(&mut self, id: NodeId) -> (r: Option<Node>)
        requires
            old(self).valid(),
        ensures
            final(self).valid(),
            final(self).nodes() == old(self).nodes(),
            final(self).edges() == old(self).edges(),
            match r {
                Some(n) => old(self).nodes().contains_key(id) && n@ == old(self).nodes()[id],
                None => !old(self).nodes().contains_key(id),
            },
    ;

    /// Takes a node in, in place of any with the same identifier.
    fn put_node(&mut self, node: Node)
        requires
            old(self).valid(),
        ensures
            final(self).valid(),
            within_insert(final(self).nodes(), old(self).nodes(), node.id, node@),
            final(self).edges() == old(self).edges(),
            final(self).took_node(old(self), node@),
    ;

    /// Forgets a node.
    fn invalidate_node(&mut self, id: NodeId)
        requires
            old(self).valid(),
        ensures
            final(self).valid(),
            final(self).nodes() == old(self).nodes().remove(id),
            final(self).edges() == old(self).edges(),
    ;

    /// The edge with this identifier, if the cache holds it.
    fn get_edge(&mut self, id: EdgeId) -> (r: Option<Edge>)
        requires
            old(self).valid(),
        ensures
            final(self).valid(),
            final(self).nodes() == old(self).nodes(),
            final(self).edges() == old(self).edges(),
            match r {
                Some(e) => old(self).edges().contains_key(id) && e@ == old(self).edges()[id],
                None => !old(self).edges().contains_key(id),
            },
    ;

    /// Takes an edge in, in place of any with the same identifier.
    fn put_edge(&mut self, edge: Edge)
        requires
            old(self).valid(),
        ensures
            final(self).valid(),
            final(self).nodes() == old(self).nodes(),
            within_insert(final(self).edges(), old(self).edges(), edge.id, edge@),
            final(self).took_edge(old(self), edge@),
    ;

    /// Forgets an edge.
    fn invalidate_edge(&mut self, id: EdgeId)
        requires
            old(self).valid(),
        ensures
            final(self).valid(),
            final(self).nodes() == old(self).nodes(),
            final(self).edges() == old(self).edges().remove(id),
    ;

    /// Forgets everything.
    fn clear(&mut self)
        requires
            old(self).valid(),
        ensures
            final(self).valid(),
            final(self).nodes() == Map::<NodeId, NodeView>::empty(),
            final(self).edges() == Map::<EdgeId, EdgeView>::empty(),
    ;
}

} // verus!
