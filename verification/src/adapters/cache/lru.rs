//! A cache that lets go of what was used least recently.
//!
//! Nodes and edges have stores and capacities of their own.

use crate::adapters::cache::recency::{dropped, lemma_key_index, stored, used, RecencyStore};
use crate::collections::entries::{distinct_keys, entries_map, lemma_entries_map_remove};
use crate::model::edge::{Edge, EdgeView};
use crate::model::edge_id::EdgeId;
use crate::model::node::{Node, NodeView};
use crate::model::node_id::NodeId;
use crate::ports::cache::CachePort;
use vstd::prelude::*;

verus! {

/// A cache of bounded size.
pub struct LruCache {
    node_store: RecencyStore<NodeId, Node>,
    edge_store: RecencyStore<EdgeId, Edge>,
}

impl LruCache {
    /// The nodes from the least to the most recently used.
    pub closed spec fn node_order(&self) -> Seq<(NodeId, NodeView)> {
        self.node_store.entries()
    }

    /// The edges from the least to the most recently used.
    pub closed spec fn edge_order(&self) -> Seq<(EdgeId, EdgeView)> {
        self.edge_store.entries()
    }

    /// How many nodes the cache holds at most.
    pub closed spec fn node_capacity(&self) -> nat {
        self.node_store.limit()
    }

    /// How many edges the cache holds at most.
    pub closed spec fn edge_capacity(&self) -> nat {
        self.edge_store.limit()
    }

    /// An empty cache for the given numbers of nodes and edges, both at least 1.
    pub fn new(node_capacity: usize, edge_capacity: usize) -> (r: LruCache)
        requires
            node_capacity > 0,
            edge_capacity > 0,
        ensures
            r.valid(),
            r.node_capacity() == node_capacity,
            r.edge_capacity() == edge_capacity,
            r.node_order() == Seq::<(NodeId, NodeView)>::empty(),
            r.edge_order() == Seq::<(EdgeId, EdgeView)>::empty(),
            r.nodes() == Map::<NodeId, NodeView>::empty(),
            r.edges() == Map::<EdgeId, EdgeView>::empty(),
    {
        LruCache {
            node_store: RecencyStore::new(node_capacity),
            edge_store: RecencyStore::new(edge_capacity),
        }
    }

    /// The cache holds the nodes and edges that stand in its orders, each once. With
    /// what the operations do to the orders it follows which entry leaves.
    pub proof fn law_orders_are_contents(&self)
        requires
            self.valid(),
        ensures
            self.nodes() == entries_map(self.node_order()),
            self.edges() == entries_map(self.edge_order()),
            distinct_keys(self.node_order()),
            distinct_keys(self.edge_order()),
    {
    }

    /// When a node comes in that a full cache does not hold, the one used least
    /// recently leaves, and no other.
    pub proof fn law_least_recent_node_leaves(&self, after: &LruCache, n: NodeView)
        requires
            self.valid(),
            after.valid(),
            after.took_node(self, n),
            !self.nodes().contains_key(n.id),
            self.node_order().len() == self.node_capacity(),
        ensures
            after.nodes() == self.nodes().remove(self.node_order()[0].0).insert(n.id, n),
    {
        let s = self.node_order();
        lemma_key_index(s, n.id);
        assert(s.drop_first() =~= s.remove(0));
        lemma_entries_map_remove(s, 0);
        assert(s.drop_first().push((n.id, n)).drop_last() =~= s.drop_first());
    }

    /// When an edge comes in that a full cache does not hold, the one used least
    /// recently leaves, and no other.
    pub proof fn law_least_recent_edge_leaves(&self, after: &LruCache, e: EdgeView)
        requires
            self.valid(),
            after.valid(),
            after.took_edge(self, e),
            !self.edges().contains_key(e.id),
            self.edge_order().len() == self.edge_capacity(),
        ensures
            after.edges() == self.edges().remove(self.edge_order()[0].0).insert(e.id, e),
    {
        let s = self.edge_order();
        lemma_key_index(s, e.id);
        assert(s.drop_first() =~= s.remove(0));
        lemma_entries_map_remove(s, 0);
        assert(s.drop_first().push((e.id, e)).drop_last() =~= s.drop_first());
    }

    /// What the cache was offered last, it holds.
    pub proof fn law_holds_what_it_took(&self, earlier: &LruCache, n: NodeView, e: EdgeView)
        requires
            earlier.valid(),
        ensures
            self.took_node(earlier, n) ==> self.nodes().contains_key(n.id) && self.nodes()[n.id]
                == n,
            self.took_edge(earlier, e) ==> self.edges().contains_key(e.id) && self.edges()[e.id]
                == e,
    {
        if self.took_node(earlier, n) {
            assert(self.node_order().last() == (n.id, n));
        }
        if self.took_edge(earlier, e) {
            assert(self.edge_order().last() == (e.id, e));
        }
    }

    /// The cache never holds more nodes or edges than its capacities.
    pub proof fn law_within_capacity(&self)
        requires
            self.valid(),
        ensures
            self.node_order().len() <= self.node_capacity(),
            self.edge_order().len() <= self.edge_capacity(),
    {
    }
}

impl CachePort for LruCache {
    closed spec fn valid(&self) -> bool {
        self.node_store.valid() && self.edge_store.valid()
    }

    open spec fn nodes(&self) -> Map<NodeId, NodeView> {
        entries_map(self.node_order())
    }

    open spec fn edges(&self) -> Map<EdgeId, EdgeView> {
        entries_map(self.edge_order())
    }

    open spec fn took_node(&self, earlier: &Self, n: NodeView) -> bool {
        &&& self.node_order() == stored(earlier.node_order(), earlier.node_capacity(), n.id, n)
        &&& self.edge_order() == earlier.edge_order()
        &&& self.node_capacity() == earlier.node_capacity()
        &&& self.edge_capacity() == earlier.edge_capacity()
    }

    open spec fn took_edge(&self, earlier: &Self, e: EdgeView) -> bool {
        &&& self.edge_order() == stored(earlier.edge_order(), earlier.edge_capacity(), e.id, e)
        &&& self.node_order() == earlier.node_order()
        &&& self.node_capacity() == earlier.node_capacity()
        &&& self.edge_capacity() == earlier.edge_capacity()
    }

    fn get_node(&mut self, id: NodeId) -> (r: Option<Node>)
        ensures
            final(self).node_order() == used(old(self).node_order(), id),
            final(self).edge_order() == old(self).edge_order(),
            final(self).node_capacity() == old(self).node_capacity(),
            final(self).edge_capacity() == old(self).edge_capacity(),
    {
        if self.node_store.touch(id) {
            Some(self.node_store.most_recent().clone())
        } else {
            None
        }
    }

    fn put_node(&mut self, node: Node)
        ensures
            final(self).nodes().contains_key(node.id),
    {
        self.node_store.put(node.id, node);
    }

    fn invalidate_node(&mut self, id: NodeId)
        ensures
            final(self).node_order() == dropped(old(self).node_order(), id),
            final(self).edge_order() == old(self).edge_order(),
            final(self).node_capacity() == old(self).node_capacity(),
            final(self).edge_capacity() == old(self).edge_capacity(),
    {
        self.node_store.drop_entry(id);
    }

    fn get_edge(&mut self, id: EdgeId) -> (r: Option<Edge>)
        ensures
            final(self).edge_order() == used(old(self).edge_order(), id),
            final(self).node_order() == old(self).node_order(),
            final(self).node_capacity() == old(self).node_capacity(),
            final(self).edge_capacity() == old(self).edge_capacity(),
    {
        if self.edge_store.touch(id) {
            Some(self.edge_store.most_recent().clone())
        } else {
            None
        }
    }

    fn put_edge(&mut self, edge: Edge)
        ensures
            final(self).edges().contains_key(edge.id),
    {
        self.edge_store.put(edge.id, edge);
    }

    fn invalidate_edge(&mut self, id: EdgeId)
        ensures
            final(self).edge_order() == dropped(old(self).edge_order(), id),
            final(self).node_order() == old(self).node_order(),
            final(self).node_capacity() == old(self).node_capacity(),
            final(self).edge_capacity() == old(self).edge_capacity(),
    {
        self.edge_store.drop_entry(id);
    }

    fn clear(&mut self)
        ensures
            final(self).node_order() == Seq::<(NodeId, NodeView)>::empty(),
            final(self).edge_order() == Seq::<(EdgeId, EdgeView)>::empty(),
            final(self).node_capacity() == old(self).node_capacity(),
            final(self).edge_capacity() == old(self).edge_capacity(),
    {
        self.node_store.clear();
        self.edge_store.clear();
    }
}

} // verus!
