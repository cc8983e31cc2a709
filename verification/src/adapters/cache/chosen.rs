//! A cache that is chosen when the database is opened.

use crate::adapters::cache::lru::LruCache;
use crate::adapters::cache::no_cache::NoCache;
use crate::model::edge::{Edge, EdgeView};
use crate::model::edge_id::EdgeId;
use crate::model::node::{Node, NodeView};
use crate::model::node_id::NodeId;
use crate::ports::cache::CachePort;
use vstd::prelude::*;

verus! {

/// A cache of one kind or the other.
pub enum ChosenCache {
    Without(NoCache),
    Lru(LruCache),
}

impl ChosenCache {
    /// A cache for the given numbers of nodes and edges, or none where there is
    /// no room for nodes.
    pub fn of_size(nodes: usize, edges: usize) -> (r: ChosenCache)
        requires
            nodes > 0 ==> edges > 0,
        ensures
            r.valid(),
            r is Without == (nodes == 0),
            r matches ChosenCache::Lru(c) ==> c.node_capacity() == nodes && c.edge_capacity()
                == edges,
            r.nodes() == Map::<NodeId, NodeView>::empty(),
            r.edges() == Map::<EdgeId, EdgeView>::empty(),
    {
        if nodes == 0 {
            ChosenCache::Without(NoCache)
        } else {
            ChosenCache::Lru(LruCache::new(nodes, edges))
        }
    }
}

impl CachePort for ChosenCache {
    open spec fn valid(&self) -> bool {
        match *self {
            ChosenCache::Without(c) => c.valid(),
            ChosenCache::Lru(c) => c.valid(),
        }
    }

    open spec fn nodes(&self) -> Map<NodeId, NodeView> {
        match *self {
            ChosenCache::Without(c) => c.nodes(),
            ChosenCache::Lru(c) => c.nodes(),
        }
    }

    open spec fn edges(&self) -> Map<EdgeId, EdgeView> {
        match *self {
            ChosenCache::Without(c) => c.edges(),
            ChosenCache::Lru(c) => c.edges(),
        }
    }

    open spec fn took_node(&self, earlier: &Self, n: NodeView) -> bool {
        match (*self, *earlier) {
            (ChosenCache::Without(c), ChosenCache::Without(b)) => c.took_node(&b, n),
            (ChosenCache::Lru(c), ChosenCache::Lru(b)) => c.took_node(&b, n),
            _ => false,
        }
    }

    open spec fn took_edge(&self, earlier: &Self, e: EdgeView) -> bool {
        match (*self, *earlier) {
            (ChosenCache::Without(c), ChosenCache::Without(b)) => c.took_edge(&b, e),
            (ChosenCache::Lru(c), ChosenCache::Lru(b)) => c.took_edge(&b, e),
            _ => false,
        }
    }

    fn get_node(&mut self, id: NodeId) -> (r: Option<Node>) {
        match self {
            ChosenCache::Without(c) => c.get_node(id),
            ChosenCache::Lru(c) => c.get_node(id),
        }
    }

    fn put_node(&mut self, node: Node) {
        match self {
            ChosenCache::Without(c) => c.put_node(node),
            ChosenCache::Lru(c) => c.put_node(node),
        }
    }

    fn invalidate_node(&mut self, id: NodeId) {
        match self {
            ChosenCache::Without(c) => c.invalidate_node(id),
            ChosenCache::Lru(c) => c.invalidate_node(id),
        }
    }

    fn get_edge(&mut self, id: EdgeId) -> (r: Option<Edge>) {
        match self {
            ChosenCache::Without(c) => c.get_edge(id),
            ChosenCache::Lru(c) => c.get_edge(id),
        }
    }

    fn put_edge(&mut self, edge: Edge) {
        match self {
            ChosenCache::Without(c) => c.put_edge(edge),
            ChosenCache::Lru(c) => c.put_edge(edge),
        }
    }

    fn invalidate_edge(&mut self, id: EdgeId) {
        match self {
            ChosenCache::Without(c) => c.invalidate_edge(id),
            ChosenCache::Lru(c) => c.invalidate_edge(id),
        }
    }

    fn clear(&mut self) {
        match self {
            ChosenCache::Without(c) => c.clear(),
            ChosenCache::Lru(c) => c.clear(),
        }
    }
}

} // verus!
