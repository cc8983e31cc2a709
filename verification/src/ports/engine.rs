//! The structural index of the graph.
//!
//! The engine knows which nodes exist and which edges connect them. Labels and
//! properties are kept elsewhere.

use crate::float::Float64;
use crate::model::edge_id::EdgeId;
use crate::model::node_id::NodeId;
use vstd::prelude::*;

verus! {

/// One side of an edge, seen from the node at the other.
#[derive(Clone, Copy, Debug, PartialEq, Eq, Structural)]
pub struct Neighbor {
    /// The node at the far end.
    pub node_id: NodeId,
    /// The edge.
    pub edge_id: EdgeId,
    /// The weight of the edge.
    pub weight: Float64,
}

/// A graph as adjacency lists, in the order in which the edges came.
pub struct EngineView {
    /// The edges that leave each node.
    pub outgoing: Map<NodeId, Seq<Neighbor>>,
    /// The edges that enter each node.
    pub incoming: Map<NodeId, Seq<Neighbor>>,
    /// The ends of each edge.
    pub endpoints: Map<EdgeId, (NodeId, NodeId)>,
}

/// The list of a node, empty where it has none.
pub open spec fn list_of(m: Map<NodeId, Seq<Neighbor>>, id: NodeId) -> Seq<Neighbor> {
    if m.contains_key(id) {
        m[id]
    } else {
        Seq::empty()
    }
}

/// The lists without the neighbours that `drop` names, list by list.
pub open spec fn prune(
    m: Map<NodeId, Seq<Neighbor>>,
    drop: spec_fn(NodeId, Neighbor) -> bool,
) -> Map<NodeId, Seq<Neighbor>> {
    m.map_entries(|id: NodeId, s: Seq<Neighbor>| s.filter(kept(drop, id)))
}

/// The neighbours in the list of a node that `drop` does not name.
pub open spec fn kept(
    drop: spec_fn(NodeId, Neighbor) -> bool,
    id: NodeId,
) -> spec_fn(Neighbor) -> bool {
    |n: Neighbor| !drop(id, n)
}

impl EngineView {
    /// The graph without nodes.
    pub open spec fn empty() -> EngineView {
        EngineView { outgoing: Map::empty(), incoming: Map::empty(), endpoints: Map::empty() }
    }

    /// The edges that leave a node.
    pub open spec fn out_of(self, id: NodeId) -> Seq<Neighbor> {
        list_of(self.outgoing, id)
    }

    /// The edges that enter a node.
    pub open spec fn into(self, id: NodeId) -> Seq<Neighbor> {
        list_of(self.incoming, id)
    }

    /// Adds a node, if it is not there.
    pub open spec fn insert_node(self, id: NodeId) -> EngineView {
        EngineView {
            outgoing: self.outgoing.insert(id, self.out_of(id)),
            incoming: self.incoming.insert(id, self.into(id)),
            ..self
        }
    }

    /// Adds an edge at the end of both lists that it belongs to.
    pub open spec fn insert_edge(
        self,
        edge_id: EdgeId,
        source: NodeId,
        target: NodeId,
        weight: Float64,
    ) -> EngineView {
        EngineView {
            outgoing: self.outgoing.insert(
                source,
                self.out_of(source).push(Neighbor { node_id: target, edge_id, weight }),
            ),
            incoming: self.incoming.insert(
                target,
                self.into(target).push(Neighbor { node_id: source, edge_id, weight }),
            ),
            endpoints: self.endpoints.insert(edge_id, (source, target)),
        }
    }

    /// Whether a neighbour of a node stands for one of the edges that leave it.
    pub open spec fn leaving(self, edges: Set<EdgeId>) -> spec_fn(NodeId, Neighbor) -> bool {
        |id: NodeId, n: Neighbor|
            edges.contains(n.edge_id) && self.endpoints.contains_key(n.edge_id)
                && self.endpoints[n.edge_id].0 == id
    }

    /// Whether a neighbour of a node stands for one of the edges that enter it.
    pub open spec fn entering(self, edges: Set<EdgeId>) -> spec_fn(NodeId, Neighbor) -> bool {
        |id: NodeId, n: Neighbor|
            edges.contains(n.edge_id) && self.endpoints.contains_key(n.edge_id)
                && self.endpoints[n.edge_id].1 == id
    }

    /// Removes edges, each from the lists of its two ends.
    pub open spec fn remove_edges(self, edges: Set<EdgeId>) -> EngineView {
        EngineView {
            outgoing: prune(self.outgoing, self.leaving(edges)),
            incoming: prune(self.incoming, self.entering(edges)),
            endpoints: self.endpoints.remove_keys(edges),
        }
    }

    /// The edges that leave or enter a node.
    pub open spec fn incident(self, id: NodeId) -> Set<EdgeId> {
        Set::new(
            |e: EdgeId|
                self.endpoints.contains_key(e) && (self.endpoints[e].0 == id
                    || self.endpoints[e].1 == id),
        )
    }

    /// Removes a node with the edges that leave or enter it.
    pub open spec fn remove_node(self, id: NodeId) -> EngineView {
        let g = self.remove_edges(self.incident(id));
        EngineView {
            outgoing: g.outgoing.remove(id),
            incoming: g.incoming.remove(id),
            endpoints: g.endpoints,
        }
    }

    /// Whether there are finitely many nodes and edges.
    pub open spec fn finite(self) -> bool {
        self.outgoing.dom().finite() && self.incoming.dom().finite()
            && self.endpoints.dom().finite()
    }
}

/// An in-memory index of the structure of a graph.
pub trait GraphEnginePort {
    /// The graph.
    spec fn graph(&self) -> EngineView;

    /// A graph in memory is finite.
    proof fn lemma_finite(&self)
        ensures
            self.graph().finite(),
    ;

    /// Registers a node.
    fn insert_node(&mut self, id: NodeId)
        ensures
            final(self).graph() == old(self).graph().insert_node(id),
    ;

    /// Removes a node and all edges that leave or enter it.
    fn remove_node(&mut self, id: NodeId)
        ensures
            final(self).graph() == old(self).graph().remove_node(id),
    ;

    /// Records an edge from one node to another.
    fn insert_edge(&mut self, edge_id: EdgeId, source: NodeId, target: NodeId, weight: Float64)
        ensures
            final(self).graph() == old(self).graph().insert_edge(edge_id, source, target, weight),
    ;

    /// Removes an edge.
    fn remove_edge(&mut self, edge_id: EdgeId)
        ensures
            final(self).graph() == old(self).graph().remove_edges(set![edge_id]),
    ;

    /// The edges that leave a node, with the nodes that they enter.
    fn neighbors_outgoing(&self, source: NodeId) -> (r: Vec<Neighbor>)
        ensures
            r@ == self.graph().out_of(source),
    ;

    /// The edges that enter a node, with the nodes that they leave.
    fn neighbors_incoming(&self, target: NodeId) -> (r: Vec<Neighbor>)
        ensures
            r@ == self.graph().into(target),
    ;

    /// The nodes, each once, in no particular order.
    fn all_node_ids(&self) -> (r: Vec<NodeId>)
        ensures
            r@.no_duplicates(),
            r@.to_set() == self.graph().outgoing.dom(),
    ;

    /// The edges, each once, in no particular order.
    fn all_edge_ids(&self) -> (r: Vec<EdgeId>)
        ensures
            r@.no_duplicates(),
            r@.to_set() == self.graph().endpoints.dom(),
    ;

    /// The number of nodes.
    fn node_count(&self) -> (r: usize)
        ensures
            r == self.graph().outgoing.len(),
    ;

    /// The number of edges.
    fn edge_count(&self) -> (r: usize)
        ensures
            r == self.graph().endpoints.len(),
    ;

    /// Whether the node is there.
    fn contains_node(&self, id: NodeId) -> (r: bool)
        ensures
            r == self.graph().outgoing.contains_key(id),
    ;
}

} // verus!
