//! What the execution of a query needs of a database.

use crate::float::Float64;
use crate::model::edge::{Edge, EdgeView};
use crate::model::edge_id::EdgeId;
use crate::model::error::{GraphError, GraphErrorView};
use crate::model::node::{Node, NodeView};
use crate::model::node_id::NodeId;
use crate::model::value::Value;
use crate::algorithms::bfs::BreadthFirstSearch;
use crate::algorithms::dfs::DepthFirstSearch;
use crate::algorithms::dijkstra::Dijkstra;
use crate::ports::algorithm::{ShortestPathAlgorithm, TraversalAlgorithm};
use crate::ports::engine::EngineView;
use crate::ports::storage::{lists_edges, lists_nodes};
use crate::query::ast::{ComparisonOp, ConditionView};
use crate::query::planner::{DatabaseStats, StatsView};
use vstd::prelude::*;

verus! {

/// What a database holds, as a query sees it.
pub struct ContextView {
    /// The nodes.
    pub nodes: Map<NodeId, NodeView>,
    /// The edges.
    pub edges: Map<EdgeId, EdgeView>,
    /// How the nodes are connected.
    pub structure: EngineView,
    /// How many nodes carry each label.
    pub label_counts: Map<Seq<char>, usize>,
    /// The properties of nodes that are indexed.
    pub indexed: Set<Seq<char>>,
}

/// The nodes of a map that meet a condition.
pub open spec fn select_nodes(
    m: Map<NodeId, NodeView>,
    p: spec_fn(NodeView) -> bool,
) -> Map<NodeId, NodeView> {
    m.restrict(Set::new(|id: NodeId| m.contains_key(id) && p(m[id])))
}

/// The edges of a map that meet a condition.
pub open spec fn select_edges(
    m: Map<EdgeId, EdgeView>,
    p: spec_fn(EdgeView) -> bool,
) -> Map<EdgeId, EdgeView> {
    m.restrict(Set::new(|id: EdgeId| m.contains_key(id) && p(m[id])))
}

impl ContextView {
    /// The nodes that carry a label.
    pub open spec fn labelled(self, label: Seq<char>) -> Map<NodeId, NodeView> {
        select_nodes(self.nodes, |n: NodeView| n.label == label)
    }

    /// Whether a lookup by property finds a node: its property is there and
    /// compares as asked, indexed or not.
    pub open spec fn finds(self, c: ConditionView, n: NodeView) -> bool {
        c.met_by(n.properties)
    }

    /// The nodes that a lookup by property finds.
    pub open spec fn found(self, c: ConditionView) -> Map<NodeId, NodeView> {
        select_nodes(self.nodes, |n: NodeView| self.finds(c, n))
    }

    /// The statistics.
    pub open spec fn stats(self) -> StatsView {
        StatsView {
            node_count: self.structure.outgoing.len(),
            edge_count: self.structure.endpoints.len(),
            label_counts: self.label_counts,
            indexed: self.indexed,
        }
    }
}

/// A result of a path search in terms of its contents.
pub open spec fn path_view(r: Option<(Vec<NodeId>, Float64)>) -> Option<(Seq<NodeId>, Float64)> {
    match r {
        Some(found) => Some((found.0@, found.1)),
        None => None,
    }
}

/// Whether an operation ends as it must: with the error that it is refused with,
/// or else well, unless reading fails.
pub open spec fn settles<T>(
    refusal: Option<GraphErrorView>,
    unfailing: bool,
    r: Result<T, GraphError>,
) -> bool {
    match refusal {
        Some(e) => match r {
            Err(x) => x@ == e,
            Ok(_) => false,
        },
        None => unfailing ==> r is Ok,
    }
}

/// A list of nodes that a database can be asked for.
pub enum NodeAsk {
    /// All nodes.
    All,
    /// Those that carry a label.
    Labelled(Seq<char>),
    /// Those whose property compares as asked.
    Property(ConditionView),
}

/// A database that queries are executed against. Reading may fail where it has
/// to go to the storage, and never changes what the database holds.
///
/// A failed write can leave the parts of a database at odds with each other. What
/// is read from storage and indexes is promised of a database whose parts agree;
/// the structure can be relied on in any case.
pub trait DatabaseContext {
    /// Whether every part of the database is in order.
    spec fn valid(&self) -> bool;

    /// Whether the parts of the database agree with each other.
    spec fn steady(&self) -> bool;

    /// Whether no read fails.
    spec fn unfailing(&self) -> bool;

    /// The error that a scan of all nodes is refused with, if it is.
    spec fn scan_refusal(&self) -> Option<GraphErrorView>;

    /// What the database holds.
    spec fn contents(&self) -> ContextView;

    /// Whether the database may have come from an earlier state by reads alone.
    spec fn only_read_since(&self, earlier: &Self) -> bool;

    /// Whether the database became what it is when it was asked, in an earlier
    /// state, for a list of nodes and gave this.
    spec fn gave_nodes(
        &self,
        earlier: &Self,
        ask: NodeAsk,
        r: Result<Vec<Node>, GraphError>,
    ) -> bool;

    /// Whether the database became what it is when it was asked, in an earlier
    /// state, for all edges and gave this.
    spec fn gave_edges(&self, earlier: &Self, r: Result<Vec<Edge>, GraphError>) -> bool;

    /// Whether the database became what it is when it was asked, in an earlier
    /// state, for a node and gave this.
    spec fn gave_node(&self, earlier: &Self, id: NodeId, r: Result<Option<Node>, GraphError>) -> bool;

    /// Whether the database became what it is when it was asked, in an earlier
    /// state, for an edge and gave this.
    spec fn gave_edge(&self, earlier: &Self, id: EdgeId, r: Result<Option<Edge>, GraphError>) -> bool;

    /// Reading nothing is reading.
    proof fn lemma_no_read(&self)
        ensures
            self.only_read_since(self),
    ;

    /// Reads after reads are reads.
    proof fn lemma_more_reads(&self, earlier: &Self, earliest: &Self)
        requires
            self.only_read_since(earlier),
            earlier.only_read_since(earliest),
        ensures
            self.only_read_since(earliest),
    ;

    /// The node with this identifier, if there is one.
    fn get_node(&mut self, id: NodeId) -> (r: Result<Option<Node>, GraphError>)
        requires
            old(self).valid(),
        ensures
            final(self).gave_node(old(self), id, r),
            final(self).valid(),
            final(self).only_read_since(old(self)),
            final(self).contents().structure == old(self).contents().structure,
            final(self).unfailing() == old(self).unfailing(),
            final(self).scan_refusal() == old(self).scan_refusal(),
            old(self).steady() ==> final(self).steady() && final(self).contents() == old(
                self,
            ).contents(),
            old(self).steady() ==> match r {
                Ok(Some(n)) => old(self).contents().nodes.contains_key(id) && n@ == old(
                    self,
                ).contents().nodes[id],
                Ok(None) => !old(self).contents().nodes.contains_key(id),
                Err(_) => true,
            },
            old(self).unfailing() ==> r is Ok,
    ;

    /// All nodes, in no particular order.
    fn get_all_nodes(&mut self) -> (r: Result<Vec<Node>, GraphError>)
        requires
            old(self).valid(),
        ensures
            final(self).gave_nodes(old(self), NodeAsk::All, r),
            final(self).valid(),
            final(self).only_read_since(old(self)),
            final(self).contents().structure == old(self).contents().structure,
            final(self).unfailing() == old(self).unfailing(),
            final(self).scan_refusal() == old(self).scan_refusal(),
            old(self).steady() ==> final(self).steady() && final(self).contents() == old(
                self,
            ).contents(),
            old(self).steady() && r is Ok ==> lists_nodes(r->Ok_0@, old(self).contents().nodes),
            settles(old(self).scan_refusal(), old(self).unfailing(), r),
    ;

    /// The nodes that carry a label, in no particular order.
    fn get_nodes_by_label(&mut self, label: &str) -> (r: Result<Vec<Node>, GraphError>)
        requires
            old(self).valid(),
        ensures
            final(self).gave_nodes(old(self), NodeAsk::Labelled(label@), r),
            final(self).valid(),
            final(self).only_read_since(old(self)),
            final(self).contents().structure == old(self).contents().structure,
            final(self).unfailing() == old(self).unfailing(),
            final(self).scan_refusal() == old(self).scan_refusal(),
            old(self).steady() ==> final(self).steady() && final(self).contents() == old(
                self,
            ).contents(),
            old(self).steady() && r is Ok ==> lists_nodes(r->Ok_0@, old(self).contents().labelled(label@)),
            old(self).unfailing() ==> r is Ok,
    ;

    /// The nodes whose property compares as asked, in no particular order.
    fn get_nodes_by_property(&mut self, field: &str, op: &ComparisonOp, value: &Value) -> (r:
        Result<Vec<Node>, GraphError>)
        requires
            old(self).valid(),
        ensures
            final(self).gave_nodes(
                old(self),
                NodeAsk::Property(ConditionView { key: field@, op: *op, value: value@ }),
                r,
            ),
            final(self).valid(),
            final(self).only_read_since(old(self)),
            final(self).contents().structure == old(self).contents().structure,
            final(self).unfailing() == old(self).unfailing(),
            final(self).scan_refusal() == old(self).scan_refusal(),
            old(self).steady() ==> final(self).steady() && final(self).contents() == old(
                self,
            ).contents(),
            old(self).steady() && r is Ok ==> lists_nodes(
                r->Ok_0@,
                old(self).contents().found(ConditionView { key: field@, op: *op, value: value@ }),
            ),
            settles(
                if old(self).contents().indexed.contains(field@) {
                    None
                } else {
                    old(self).scan_refusal()
                },
                old(self).unfailing(),
                r,
            ),
    ;

    /// The edge with this identifier, if there is one.
    fn get_edge(&mut self, id: EdgeId) -> (r: Result<Option<Edge>, GraphError>)
        requires
            old(self).valid(),
        ensures
            final(self).gave_edge(old(self), id, r),
            final(self).valid(),
            final(self).only_read_since(old(self)),
            final(self).contents().structure == old(self).contents().structure,
            final(self).unfailing() == old(self).unfailing(),
            final(self).scan_refusal() == old(self).scan_refusal(),
            old(self).steady() ==> final(self).steady() && final(self).contents() == old(
                self,
            ).contents(),
            old(self).steady() ==> match r {
                Ok(Some(e)) => old(self).contents().edges.contains_key(id) && e@ == old(
                    self,
                ).contents().edges[id],
                Ok(None) => !old(self).contents().edges.contains_key(id),
                Err(_) => true,
            },
            old(self).unfailing() ==> r is Ok,
    ;

    /// All edges, in no particular order.
    fn get_all_edges(&mut self) -> (r: Result<Vec<Edge>, GraphError>)
        requires
            old(self).valid(),
        ensures
            final(self).gave_edges(old(self), r),
            final(self).valid(),
            final(self).only_read_since(old(self)),
            final(self).contents().structure == old(self).contents().structure,
            final(self).unfailing() == old(self).unfailing(),
            final(self).scan_refusal() == old(self).scan_refusal(),
            old(self).steady() ==> final(self).steady() && final(self).contents() == old(
                self,
            ).contents(),
            old(self).steady() && r is Ok ==> lists_edges(r->Ok_0@, old(self).contents().edges),
            old(self).unfailing() ==> r is Ok,
    ;

    /// The number of nodes.
    fn node_count(&self) -> (r: usize)
        requires
            self.valid(),
        ensures
            r == self.contents().structure.outgoing.len(),
    ;

    /// The number of edges.
    fn edge_count(&self) -> (r: usize)
        requires
            self.valid(),
        ensures
            r == self.contents().structure.endpoints.len(),
    ;

    /// The nodes that can be reached, breadth first.
    fn traverse_bfs(&self, start: NodeId) -> (r: Vec<NodeId>)
        requires
            self.valid(),
        ensures
            r@ == BreadthFirstSearch.visits(self.contents().structure, start),
    ;

    /// The nodes that can be reached, depth first.
    fn traverse_dfs(&self, start: NodeId) -> (r: Vec<NodeId>)
        requires
            self.valid(),
        ensures
            r@ == DepthFirstSearch.visits(self.contents().structure, start),
    ;

    /// A shortest path and its weight.
    fn shortest_path_dijkstra(&self, start: NodeId, goal: NodeId) -> (r: Option<
        (Vec<NodeId>, Float64),
    >)
        requires
            self.valid(),
        ensures
            Dijkstra.solves(self.contents().structure, start, goal, path_view(r)),
    ;

    /// Statistics for the planner.
    fn stats(&self) -> (r: DatabaseStats)
        requires
            self.valid(),
        ensures
            r@ == self.contents().stats(),
    ;
}

} // verus!
