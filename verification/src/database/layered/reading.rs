//! Reading many nodes or edges, and the structure of the graph.

use crate::adapters::index::label_index::label_bucket;
use crate::collections::filtering::lemma_filter_order;
use crate::collections::string_map::StringMap;
use crate::collections::string_set::StringSet;
use crate::database::coherence::lemma_property_lookup;
use crate::database::config::DatabaseConfig;
use crate::database::layered::{same_but_cache, LayeredGraphDatabase};
use crate::database::metrics::{count, next, no_counts, DatabaseMetrics};
use crate::float::Float64;
use crate::model::edge::{Edge, EdgeView};
use crate::model::edge_id::EdgeId;
use crate::model::error::{GraphError, GraphErrorView};
use crate::model::node::{Node, NodeView};
use crate::model::node_id::NodeId;
use crate::model::value::Value;
use crate::ports::algorithm::{ShortestPathAlgorithm, TraversalAlgorithm};
use crate::ports::cache::CachePort;
use crate::ports::engine::{GraphEnginePort, Neighbor};
use crate::ports::query_context::{path_view, settles, ContextView};
use crate::ports::storage::{lists_edges, lists_nodes, StoragePort};
use crate::query::ast::{ComparisonOp, ConditionView};
use crate::query::planner::DatabaseStats;
use crate::text::{concat2, concat3, decimal, u64_to_text};
use vstd::prelude::*;

verus! {

/// The identifiers of nodes.
pub open spec fn ids_of_nodes(s: Seq<Node>) -> Seq<NodeId> {
    s.map_values(|n: Node| n.id)
}

/// The identifiers of edges.
pub open spec fn ids_of_edges(s: Seq<Edge>) -> Seq<EdgeId> {
    s.map_values(|e: Edge| e.id)
}

/// Whether a node is among those of a map.
pub open spec fn is_node_of(m: Map<NodeId, NodeView>) -> spec_fn(NodeId) -> bool {
    |id: NodeId| m.contains_key(id)
}

/// Whether an edge is among those of a map.
pub open spec fn is_edge_of(m: Map<EdgeId, EdgeView>) -> spec_fn(EdgeId) -> bool {
    |id: EdgeId| m.contains_key(id)
}

/// Whether a list holds the nodes of a map that have been asked for, in that order.
pub open spec fn nodes_in_order(
    s: Seq<Node>,
    asked: Seq<NodeId>,
    m: Map<NodeId, NodeView>,
) -> bool {
    &&& ids_of_nodes(s) == asked.filter(is_node_of(m))
    &&& forall|i: int| 0 <= i < s.len() ==> (#[trigger] s[i])@ == m[s[i].id]
}

/// Whether a list holds the edges of a map that have been asked for, in that order.
pub open spec fn edges_in_order(
    s: Seq<Edge>,
    asked: Seq<EdgeId>,
    m: Map<EdgeId, EdgeView>,
) -> bool {
    &&& ids_of_edges(s) == asked.filter(is_edge_of(m))
    &&& forall|i: int| 0 <= i < s.len() ==> (#[trigger] s[i])@ == m[s[i].id]
}

/// Nodes asked for once each come once each.
proof fn lemma_nodes_in_order(
    s: Seq<Node>,
    asked: Seq<NodeId>,
    m: Map<NodeId, NodeView>,
    part: Map<NodeId, NodeView>,
)
    requires
        nodes_in_order(s, asked, m),
        asked.no_duplicates(),
        forall|id: NodeId| #[trigger]
            part.contains_key(id) <==> m.contains_key(id) && asked.contains(id),
        forall|id: NodeId| #[trigger] part.contains_key(id) ==> part[id] == m[id],
    ensures
        lists_nodes(s, part),
{
    broadcast use vstd::seq_lib::group_filter_ensures;

    let p = is_node_of(m);
    let found = asked.filter(p);
    lemma_filter_order(asked, p);
    assert forall|i: int| 0 <= i < s.len() implies part.contains_key((#[trigger] s[i]).id)
        && part[s[i].id] == s[i]@ by {
        assert(found[i] == s[i].id);
        assert(found.contains(found[i]));
        assert(p(s[i].id));
        assert(asked.contains(s[i].id));
    }
    assert forall|i: int, j: int| 0 <= i < j < s.len() implies (#[trigger] s[i]).id
        != (#[trigger] s[j]).id by {
        assert(found[i] == s[i].id && found[j] == s[j].id);
        let (a, b) = choose|a: int, b: int|
            0 <= a < b < asked.len() && asked[a] == found[i] && asked[b] == found[j];
        assert(asked[a] != asked[b]);
    }
    assert forall|id: NodeId| #[trigger] part.contains_key(id) implies exists|i: int|
        0 <= i < s.len() && (#[trigger] s[i]).id == id by {
        assert(p(id));
        assert(found.contains(id));
        let i = choose|i: int| 0 <= i < found.len() && found[i] == id;
        assert(s[i].id == id);
    }
}

/// Edges asked for once each come once each.
proof fn lemma_edges_in_order(
    s: Seq<Edge>,
    asked: Seq<EdgeId>,
    m: Map<EdgeId, EdgeView>,
)
    requires
        edges_in_order(s, asked, m),
        asked.no_duplicates(),
        forall|id: EdgeId| #[trigger] m.contains_key(id) ==> asked.contains(id),
    ensures
        lists_edges(s, m),
{
    broadcast use vstd::seq_lib::group_filter_ensures;

    let p = is_edge_of(m);
    let found = asked.filter(p);
    lemma_filter_order(asked, p);
    assert forall|i: int| 0 <= i < s.len() implies m.contains_key((#[trigger] s[i]).id)
        && m[s[i].id] == s[i]@ by {
        assert(found[i] == s[i].id);
        assert(found.contains(found[i]));
        assert(p(s[i].id));
    }
    assert forall|i: int, j: int| 0 <= i < j < s.len() implies (#[trigger] s[i]).id
        != (#[trigger] s[j]).id by {
        assert(found[i] == s[i].id && found[j] == s[j].id);
        let (a, b) = choose|a: int, b: int|
            0 <= a < b < asked.len() && asked[a] == found[i] && asked[b] == found[j];
        assert(asked[a] != asked[b]);
    }
    assert forall|id: EdgeId| #[trigger] m.contains_key(id) implies exists|i: int|
        0 <= i < s.len() && (#[trigger] s[i]).id == id by {
        assert(p(id));
        assert(found.contains(id));
        let i = choose|i: int| 0 <= i < found.len() && found[i] == id;
        assert(s[i].id == id);
    }
}

/// Where all that is asked for is there, it comes as asked.
proof fn lemma_all_there(asked: Seq<NodeId>, m: Map<NodeId, NodeView>)
    requires
        forall|i: int| 0 <= i < asked.len() ==> m.contains_key(#[trigger] asked[i]),
    ensures
        asked.filter(is_node_of(m)) == asked,
    decreases asked.len(),
{
    reveal(Seq::filter);
    if asked.len() > 0 {
        lemma_all_there(asked.drop_last(), m);
        assert(m.contains_key(asked[asked.len() - 1]));
        assert(asked.drop_last().push(asked.last()) =~= asked);
    }
}

/// Whether the counters are those of a number of reads of nodes: each was served
/// by the cache or not.
pub open spec fn node_reads(before: DatabaseMetrics, after: DatabaseMetrics, n: nat) -> bool {
    &&& after == DatabaseMetrics {
        cache_node_hits: after.cache_node_hits,
        cache_node_misses: after.cache_node_misses,
        ..before
    }
    &&& exists|hits: nat, misses: nat|
        hits + misses == n && after.cache_node_hits == #[trigger] advanced(
            before.cache_node_hits,
            hits,
        ) && after.cache_node_misses == #[trigger] advanced(before.cache_node_misses, misses)
}

/// Whether the counters are those of a number of reads of edges: each was served
/// by the cache or not.
pub open spec fn edge_reads(before: DatabaseMetrics, after: DatabaseMetrics, n: nat) -> bool {
    &&& after == DatabaseMetrics {
        cache_edge_hits: after.cache_edge_hits,
        cache_edge_misses: after.cache_edge_misses,
        ..before
    }
    &&& exists|hits: nat, misses: nat|
        hits + misses == n && after.cache_edge_hits == #[trigger] advanced(
            before.cache_edge_hits,
            hits,
        ) && after.cache_edge_misses == #[trigger] advanced(before.cache_edge_misses, misses)
}

/// A counter some steps further.
pub open spec fn advanced(counter: u64, steps: nat) -> u64
    decreases steps,
{
    if steps == 0 {
        counter
    } else {
        next(advanced(counter, (steps - 1) as nat))
    }
}

proof fn lemma_node_reads_step(
    before: DatabaseMetrics,
    mid: DatabaseMetrics,
    after: DatabaseMetrics,
    n: nat,
    hit: bool,
)
    requires
        node_reads(before, mid, n),
        after == crate::database::layered::node_read(mid, hit),
    ensures
        node_reads(before, after, n + 1),
{
    let (hits, misses) = choose|hits: nat, misses: nat|
        hits + misses == n && mid.cache_node_hits == #[trigger] advanced(
            before.cache_node_hits,
            hits,
        ) && mid.cache_node_misses == #[trigger] advanced(before.cache_node_misses, misses);
    if hit {
        assert(after.cache_node_hits == advanced(before.cache_node_hits, hits + 1));
        assert(after.cache_node_misses == advanced(before.cache_node_misses, misses));
    } else {
        assert(after.cache_node_hits == advanced(before.cache_node_hits, hits));
        assert(after.cache_node_misses == advanced(before.cache_node_misses, misses + 1));
    }
}

proof fn lemma_edge_reads_step(
    before: DatabaseMetrics,
    mid: DatabaseMetrics,
    after: DatabaseMetrics,
    n: nat,
    hit: bool,
)
    requires
        edge_reads(before, mid, n),
        after == crate::database::layered::edge_read(mid, hit),
    ensures
        edge_reads(before, after, n + 1),
{
    let (hits, misses) = choose|hits: nat, misses: nat|
        hits + misses == n && mid.cache_edge_hits == #[trigger] advanced(
            before.cache_edge_hits,
            hits,
        ) && mid.cache_edge_misses == #[trigger] advanced(before.cache_edge_misses, misses);
    if hit {
        assert(after.cache_edge_hits == advanced(before.cache_edge_hits, hits + 1));
        assert(after.cache_edge_misses == advanced(before.cache_edge_misses, misses));
    } else {
        assert(after.cache_edge_hits == advanced(before.cache_edge_hits, hits));
        assert(after.cache_edge_misses == advanced(before.cache_edge_misses, misses + 1));
    }
}

impl<S: StoragePort, C: CachePort, E: GraphEnginePort> LayeredGraphDatabase<S, C, E> {
    /// Reads the nodes with the given identifiers, leaving out those that are not
    /// there.
    fn load_nodes(&mut self, ids: &Vec<NodeId>) -> (r: Result<Vec<Node>, GraphError>)
        requires
            old(self).well_formed(),
        ensures
            final(self).well_formed(),
            final(self).same_layers(old(self)),
            final(self).slow() == old(self).slow(),
            final(self).cached_edges() == old(self).cached_edges(),
            same_but_cache(final(self).counters(), old(self).counters()),
            old(self).reliable() ==> r is Ok,
            r is Ok ==> node_reads(old(self).counters(), final(self).counters(), ids@.len()),
            old(self).coherent() ==> final(self).coherent(),
            old(self).coherent() && r is Ok ==> nodes_in_order(
                r->Ok_0@,
                ids@,
                old(self).graph().nodes,
            ),
    {
        let ghost m = old(self).graph().nodes;
        let ghost p = is_node_of(m);
        let mut out: Vec<Node> = Vec::new();
        let mut i: usize = 0;
        proof {
            reveal(Seq::filter);
            assert(ids@.take(0).filter(p) =~= Seq::empty());
            assert(ids_of_nodes(out@) =~= Seq::empty());
            let c = self.counters();
            assert(c.cache_node_hits == advanced(c.cache_node_hits, 0));
            assert(c.cache_node_misses == advanced(c.cache_node_misses, 0));
        }
        while i < ids.len()
            invariant
                i <= ids.len(),
                m == old(self).graph().nodes,
                p == is_node_of(m),
                self.well_formed(),
                self.same_layers(old(self)),
                self.slow() == old(self).slow(),
                self.cached_edges() == old(self).cached_edges(),
                node_reads(old(self).counters(), self.counters(), i as nat),
                old(self).coherent() ==> self.coherent(),
                old(self).coherent() ==> nodes_in_order(out@, ids@.take(i as int), m),
            decreases ids.len() - i,
        {
            let id = ids[i];
            let ghost before = *self;
            proof {
                reveal(Seq::filter);
                assert(ids@.take(i + 1).drop_last() =~= ids@.take(i as int));
                assert(ids@.take(i + 1).last() == id);
            }
            let read = self.get_node(id);
            proof {
                lemma_node_reads_step(
                    old(self).counters(),
                    before.counters(),
                    self.counters(),
                    i as nat,
                    before.cached_nodes().contains_key(id),
                );
                self.storage.lemma_keyed();
            }
            match read {
                Ok(Some(node)) => {
                    let ghost was = out@;
                    out.push(node);
                    assert(ids_of_nodes(out@) =~= ids_of_nodes(was).push(node.id));
                },
                Ok(None) => {},
                Err(e) => {
                    return Err(e);
                },
            }
            i += 1;
        }
        assert(ids@.take(i as int) =~= ids@);
        Ok(out)
    }

    /// Reads the edges with the given identifiers, leaving out those that are not
    /// there.
    fn load_edges(&mut self, ids: &Vec<EdgeId>) -> (r: Result<Vec<Edge>, GraphError>)
        requires
            old(self).well_formed(),
        ensures
            final(self).well_formed(),
            final(self).same_layers(old(self)),
            final(self).slow() == old(self).slow(),
            final(self).cached_nodes() == old(self).cached_nodes(),
            same_but_cache(final(self).counters(), old(self).counters()),
            old(self).reliable() ==> r is Ok,
            r is Ok ==> edge_reads(old(self).counters(), final(self).counters(), ids@.len()),
            old(self).coherent() ==> final(self).coherent(),
            old(self).coherent() && r is Ok ==> edges_in_order(
                r->Ok_0@,
                ids@,
                old(self).graph().edges,
            ),
    {
        let ghost m = old(self).graph().edges;
        let ghost p = is_edge_of(m);
        let mut out: Vec<Edge> = Vec::new();
        let mut i: usize = 0;
        proof {
            reveal(Seq::filter);
            assert(ids@.take(0).filter(p) =~= Seq::empty());
            assert(ids_of_edges(out@) =~= Seq::empty());
            let c = self.counters();
            assert(c.cache_edge_hits == advanced(c.cache_edge_hits, 0));
            assert(c.cache_edge_misses == advanced(c.cache_edge_misses, 0));
        }
        while i < ids.len()
            invariant
                i <= ids.len(),
                m == old(self).graph().edges,
                p == is_edge_of(m),
                self.well_formed(),
                self.same_layers(old(self)),
                self.slow() == old(self).slow(),
                self.cached_nodes() == old(self).cached_nodes(),
                edge_reads(old(self).counters(), self.counters(), i as nat),
                old(self).coherent() ==> self.coherent(),
                old(self).coherent() ==> edges_in_order(out@, ids@.take(i as int), m),
            decreases ids.len() - i,
        {
            let id = ids[i];
            let ghost before = *self;
            proof {
                reveal(Seq::filter);
                assert(ids@.take(i + 1).drop_last() =~= ids@.take(i as int));
                assert(ids@.take(i + 1).last() == id);
            }
            let read = self.get_edge(id);
            proof {
                lemma_edge_reads_step(
                    old(self).counters(),
                    before.counters(),
                    self.counters(),
                    i as nat,
                    before.cached_edges().contains_key(id),
                );
                self.storage.lemma_keyed();
            }
            match read {
                Ok(Some(edge)) => {
                    let ghost was = out@;
                    out.push(edge);
                    assert(ids_of_edges(out@) =~= ids_of_edges(was).push(edge.id));
                },
                Ok(None) => {},
                Err(e) => {
                    return Err(e);
                },
            }
            i += 1;
        }
        assert(ids@.take(i as int) =~= ids@);
        Ok(out)
    }

    /// All nodes, in no particular order.
    pub fn all_nodes(&mut self) -> (r: Result<Vec<Node>, GraphError>)
        requires
            old(self).well_formed(),
        ensures
            final(self).well_formed(),
            final(self).same_layers(old(self)),
            final(self).slow() == old(self).slow(),
            same_but_cache(final(self).counters(), old(self).counters()),
            old(self).reliable() ==> r is Ok,
            r is Ok ==> node_reads(
                old(self).counters(),
                final(self).counters(),
                old(self).structure().outgoing.len(),
            ),
            old(self).coherent() ==> final(self).coherent(),
            old(self).coherent() && r is Ok ==> lists_nodes(
                r->Ok_0@,
                old(self).graph().nodes,
            ),
    {
        let ids = self.engine.all_node_ids();
        proof {
            self.engine.lemma_finite();
            ids@.unique_seq_to_set();
        }
        let r = self.load_nodes(&ids);
        proof {
            if old(self).coherent() && r is Ok {
                let m = old(self).graph().nodes;
                assert forall|id: NodeId| #[trigger] m.contains_key(id) implies ids@.contains(
                    id,
                ) by {
                    assert(ids@.to_set().contains(id));
                }
                lemma_nodes_in_order(r->Ok_0@, ids@, m, m);
            }
        }
        r
    }

    /// All edges, in no particular order.
    pub fn all_edges(&mut self) -> (r: Result<Vec<Edge>, GraphError>)
        requires
            old(self).well_formed(),
        ensures
            final(self).well_formed(),
            final(self).same_layers(old(self)),
            final(self).slow() == old(self).slow(),
            same_but_cache(final(self).counters(), old(self).counters()),
            old(self).reliable() ==> r is Ok,
            r is Ok ==> edge_reads(
                old(self).counters(),
                final(self).counters(),
                old(self).structure().endpoints.len(),
            ),
            old(self).coherent() ==> final(self).coherent(),
            old(self).coherent() && r is Ok ==> lists_edges(
                r->Ok_0@,
                old(self).graph().edges,
            ),
    {
        let ids = self.engine.all_edge_ids();
        proof {
            self.engine.lemma_finite();
            ids@.unique_seq_to_set();
        }
        let r = self.load_edges(&ids);
        proof {
            if old(self).coherent() && r is Ok {
                let m = old(self).graph().edges;
                assert forall|id: EdgeId| #[trigger] m.contains_key(id) implies ids@.contains(
                    id,
                ) by {
                    assert(ids@.to_set().contains(id));
                }
                lemma_edges_in_order(r->Ok_0@, ids@, m);
            }
        }
        r
    }

    /// The nodes that carry a label, in the order in which they came.
    pub fn nodes_by_label(&mut self, label: &str) -> (r: Result<Vec<Node>, GraphError>)
        requires
            old(self).well_formed(),
        ensures
            final(self).well_formed(),
            final(self).same_layers(old(self)),
            final(self).slow() == old(self).slow(),
            same_but_cache(final(self).counters(), old(self).counters()),
            old(self).reliable() ==> r is Ok,
            r is Ok ==> node_reads(
                old(self).counters(),
                final(self).counters(),
                label_bucket(old(self).labels(), label@).len(),
            ),
            old(self).coherent() ==> final(self).coherent(),
            old(self).coherent() && r is Ok ==> {
                &&& ids_of_nodes(r->Ok_0@) == label_bucket(old(self).labels(), label@)
                &&& lists_nodes(r->Ok_0@, old(self).holdings().labelled(label@))
            },
    {
        let found = self.label_index.get(label);
        let mut ids: Vec<NodeId> = Vec::new();
        let mut i: usize = 0;
        while i < found.len()
            invariant
                i <= found.len(),
                ids@ =~= found@.take(i as int),
            decreases found.len() - i,
        {
            ids.push(found[i]);
            i += 1;
        }
        assert(ids@ =~= label_bucket(self.labels(), label@));
        let r = self.load_nodes(&ids);
        proof {
            if old(self).coherent() && r is Ok {
                let m = old(self).graph().nodes;
                let part = old(self).holdings().labelled(label@);
                assert forall|i: int| 0 <= i < ids@.len() implies m.contains_key(
                    #[trigger] ids@[i],
                ) by {
                    assert(label_bucket(old(self).labels(), label@).contains(ids@[i]));
                }
                lemma_all_there(ids@, m);
                assert forall|id: NodeId| #[trigger]
                    part.contains_key(id) <==> m.contains_key(id) && ids@.contains(id) by {
                    assert(label_bucket(old(self).labels(), label@).contains(id)
                        <==> m.contains_key(id) && m[id].label == label@);
                }
                lemma_nodes_in_order(r->Ok_0@, ids@, m, part);
            }
        }
        r
    }

    /// What the database holds, as a query sees it.
    pub open spec fn holdings(&self) -> ContextView {
        ContextView {
            nodes: self.graph().nodes,
            edges: self.graph().edges,
            structure: self.structure(),
            label_counts: self.labels().map_values(|s: Seq<NodeId>| s.len() as usize),
            indexed: self.fields().dom(),
        }
    }

    /// The error that a scan of all nodes is refused with, if there are more of
    /// them than may be scanned.
    pub open spec fn scan_error(&self) -> Option<GraphErrorView> {
        let n = self.structure().outgoing.len();
        match self.settings().max_full_scan_nodes {
            Some(max) => if n > max {
                Some(
                    GraphErrorView::StorageIo(
                        "full scan of "@ + decimal(n) + " nodes exceeds the limit of "@ + decimal(
                            max as nat,
                        ),
                    ),
                )
            } else {
                None
            },
            None => None,
        }
    }

    fn check_scan(&self) -> (r: Result<(), GraphError>)
        ensures
            match self.scan_error() {
                Some(e) => match r {
                    Err(x) => x@ == e,
                    Ok(_) => false,
                },
                None => r is Ok,
            },
    {
        match self.config.max_full_scan_nodes {
            Some(max) => {
                let n: usize = self.engine.node_count();
                if n > max {
                    let start = concat3(
                        "full scan of ",
                        u64_to_text(n as u64).as_str(),
                        " nodes exceeds the limit of ",
                    );
                    let text = concat2(start.as_str(), u64_to_text(max as u64).as_str());
                    return Err(GraphError::StorageIo(text));
                }
                Ok(())
            },
            None => Ok(()),
        }
    }

    /// All nodes, counted as a full scan. More nodes than may be scanned are an
    /// error.
    pub(crate) fn scan_nodes(&mut self) -> (r: Result<Vec<Node>, GraphError>)
        requires
            old(self).well_formed(),
        ensures
            final(self).well_formed(),
            final(self).same_layers(old(self)),
            final(self).slow() == old(self).slow(),
            settles(old(self).scan_error(), old(self).reliable(), r),
            old(self).scan_error() is Some ==> *final(self) == *old(self),
            old(self).scan_error() is None ==> same_but_cache(
                final(self).counters(),
                DatabaseMetrics {
                    full_node_scans: next(old(self).counters().full_node_scans),
                    ..old(self).counters()
                },
            ),
            old(self).coherent() ==> final(self).coherent(),
            old(self).coherent() && r is Ok ==> lists_nodes(
                r->Ok_0@,
                old(self).graph().nodes,
            ),
    {
        match self.check_scan() {
            Err(e) => {
                return Err(e);
            },
            Ok(_) => {},
        }
        count(&mut self.metrics.full_node_scans);
        self.all_nodes()
    }

    /// The nodes whose property compares as asked. An indexed property is looked
    /// up; for any other all nodes are scanned.
    pub fn nodes_by_property(&mut self, field: &str, op: &ComparisonOp, value: &Value) -> (r:
        Result<Vec<Node>, GraphError>)
        requires
            old(self).well_formed(),
        ensures
            final(self).well_formed(),
            final(self).same_layers(old(self)),
            final(self).slow() == old(self).slow(),
            old(self).coherent() ==> final(self).coherent(),
            old(self).coherent() && r is Ok ==> lists_nodes(
                r->Ok_0@,
                old(self).holdings().found(ConditionView { key: field@, op: *op, value: value@ }),
            ),
            old(self).fields().contains_key(field@) ==> {
                &&& old(self).reliable() ==> r is Ok
                &&& same_but_cache(
                    final(self).counters(),
                    DatabaseMetrics {
                        property_index_hits: next(old(self).counters().property_index_hits),
                        ..old(self).counters()
                    },
                )
                &&& old(self).coherent() && r is Ok ==> ids_of_nodes(r->Ok_0@) == old(
                    self,
                ).fields()[field@].query(*op, value@)
            },
            !old(self).fields().contains_key(field@) ==> {
                &&& settles(old(self).scan_error(), old(self).reliable(), r)
                &&& old(self).scan_error() is Some ==> *final(self) == *old(self)
                &&& old(self).scan_error() is None ==> same_but_cache(
                    final(self).counters(),
                    DatabaseMetrics {
                        full_node_scans: next(old(self).counters().full_node_scans),
                        ..old(self).counters()
                    },
                )
            },
    {
        let ghost c = ConditionView { key: field@, op: *op, value: value@ };
        let ghost m = old(self).graph().nodes;
        let ghost part = old(self).holdings().found(c);
        match self.property_index.query(field, op, value) {
            Some(ids) => {
                count(&mut self.metrics.property_index_hits);
                let r = self.load_nodes(&ids);
                proof {
                    if old(self).coherent() && r is Ok {
                        lemma_property_lookup(
                            old(self).graph(),
                            old(self).fields(),
                            old(self).settings().indexed_node_fields,
                            field@,
                            *op,
                            value@,
                        );
                        assert forall|i: int| 0 <= i < ids@.len() implies m.contains_key(
                            #[trigger] ids@[i],
                        ) by {
                            assert(old(self).fields()[field@].query(*op, value@).contains(ids@[i]));
                        }
                        lemma_all_there(ids@, m);
                        assert forall|id: NodeId| #[trigger]
                            part.contains_key(id) <==> m.contains_key(id) && ids@.contains(id) by {
                            assert(old(self).fields()[field@].query(*op, value@).contains(id)
                                <==> ids@.contains(id));
                        }
                        lemma_nodes_in_order(r->Ok_0@, ids@, m, part);
                    }
                }
                r
            },
            None => {
                match self.scan_nodes() {
                    Err(e) => Err(e),
                    Ok(all) => {
                        let ghost listed = all@;
                        let found = matching(all, field, op, value);
                        proof {
                            if old(self).coherent() {
                                lemma_matching(listed, found@, m, part, c);
                            }
                        }
                        Ok(found)
                    },
                }
            },
        }
    }

    /// The edges that leave a node.
    pub fn neighbors_outgoing(&self, id: NodeId) -> (r: Vec<Neighbor>)
        ensures
            r@ == self.structure().out_of(id),
    {
        self.engine.neighbors_outgoing(id)
    }

    /// The edges that enter a node.
    pub fn neighbors_incoming(&self, id: NodeId) -> (r: Vec<Neighbor>)
        ensures
            r@ == self.structure().into(id),
    {
        self.engine.neighbors_incoming(id)
    }

    /// The number of nodes.
    pub fn node_count(&self) -> (r: usize)
        ensures
            r == self.structure().outgoing.len(),
    {
        self.engine.node_count()
    }

    /// The number of edges.
    pub fn edge_count(&self) -> (r: usize)
        ensures
            r == self.structure().endpoints.len(),
    {
        self.engine.edge_count()
    }

    /// The nodes, each once, in no particular order.
    pub fn all_node_ids(&self) -> (r: Vec<NodeId>)
        ensures
            r@.no_duplicates(),
            r@.to_set() == self.structure().outgoing.dom(),
    {
        self.engine.all_node_ids()
    }

    /// The edges, each once, in no particular order.
    pub fn all_edge_ids(&self) -> (r: Vec<EdgeId>)
        ensures
            r@.no_duplicates(),
            r@.to_set() == self.structure().endpoints.dom(),
    {
        self.engine.all_edge_ids()
    }

    /// The nodes that carry a label, in the order in which they came.
    pub fn node_ids_by_label(&self, label: &str) -> (r: &[NodeId])
        ensures
            r@ == label_bucket(self.labels(), label@),
    {
        self.label_index.get(label)
    }

    /// How many nodes carry a label.
    pub fn label_count(&self, label: &str) -> (r: usize)
        ensures
            r == label_bucket(self.labels(), label@).len(),
    {
        self.label_index.label_count(label)
    }

    /// Visits nodes with an algorithm.
    pub fn traverse<A: TraversalAlgorithm>(&self, algorithm: &A, start: NodeId) -> (r: Vec<NodeId>)
        ensures
            r@ == algorithm.visits(self.structure(), start),
    {
        algorithm.traverse(&self.engine, start)
    }

    /// Searches a path with an algorithm.
    pub fn find_shortest_path<A: ShortestPathAlgorithm>(
        &self,
        algorithm: &A,
        start: NodeId,
        goal: NodeId,
    ) -> (r: Option<(Vec<NodeId>, Float64)>)
        ensures
            algorithm.solves(self.structure(), start, goal, path_view(r)),
    {
        algorithm.find_shortest_path(&self.engine, start, goal)
    }

    /// The counters.
    pub fn metrics(&self) -> (r: &DatabaseMetrics)
        ensures
            *r == self.counters(),
    {
        &self.metrics
    }

    /// Sets all counters to zero.
    pub fn reset_metrics(&mut self)
        ensures
            final(self).same_layers(old(self)),
            final(self).slow() == old(self).slow(),
            final(self).well_formed() == old(self).well_formed(),
            final(self).cache_layer() == old(self).cache_layer(),
            final(self).counters() == no_counts(),
    {
        self.metrics = DatabaseMetrics::new();
    }

    /// The configuration.
    pub fn config(&self) -> (r: &DatabaseConfig)
        ensures
            *r == self.settings(),
    {
        &self.config
    }

    /// Whether identifiers are left for so many nodes and edges.
    pub fn has_room_for(&self, nodes: u64, edges: u64) -> (r: bool)
        ensures
            r == (self.next_node() + nodes <= u64::MAX && self.next_edge() + edges <= u64::MAX),
    {
        self.id_generator.peek_node_id().0 <= u64::MAX - nodes
            && self.id_generator.peek_edge_id().0 <= u64::MAX - edges
    }

    /// The size of the storage in bytes, as the storage tells it.
    pub fn wal_size_bytes(&self) -> (r: u64)
        ensures
            r == self.storage_size(),
    {
        self.storage.wal_size_bytes()
    }

    /// The indexed properties, each once.
    pub fn indexed_fields(&self) -> (r: Vec<String>)
        ensures
            forall|i: int, j: int| 0 <= i < j < r.len() ==> #[trigger] r[i]@ != #[trigger] r[j]@,
            forall|i: int| 0 <= i < r.len() ==> self.fields().contains_key(#[trigger] r[i]@),
            forall|f: Seq<char>| #[trigger]
                self.fields().contains_key(f) ==> exists|i: int|
                    0 <= i < r.len() && #[trigger] r[i]@ == f,
    {
        self.property_index.indexed_fields()
    }

    /// Statistics for the planner.
    pub fn build_stats(&self) -> (r: DatabaseStats)
        ensures
            r@ == self.holdings().stats(),
    {
        let labels = self.label_index.all_labels();
        let mut label_counts: StringMap<usize> = StringMap::new();
        let ghost all = self.holdings().label_counts;
        let mut i: usize = 0;
        while i < labels.len()
            invariant
                i <= labels.len(),
                all == self.holdings().label_counts,
                forall|j: int| 0 <= j < labels.len() ==> self.labels().contains_key(
                    #[trigger] labels[j]@,
                ),
                forall|l: Seq<char>| #[trigger]
                    label_counts@.contains_key(l) <==> exists|j: int|
                        0 <= j < i && #[trigger] labels[j]@ == l,
                forall|l: Seq<char>| #[trigger]
                    label_counts@.contains_key(l) ==> all.contains_key(l) && label_counts@[l]
                        == all[l],
            decreases labels.len() - i,
        {
            let n: usize = self.label_index.label_count(labels[i].as_str());
            let ghost was = label_counts@;
            label_counts.insert(labels[i].clone(), n);
            proof {
                assert forall|l: Seq<char>| #[trigger]
                    label_counts@.contains_key(l) <==> exists|j: int|
                        0 <= j < i + 1 && #[trigger] labels[j]@ == l by {
                    if label_counts@.contains_key(l) {
                        if l == labels[i as int]@ {
                            assert(0 <= i < i + 1 && labels[i as int]@ == l);
                        } else {
                            assert(was.contains_key(l));
                            let j = choose|j: int| 0 <= j < i && #[trigger] labels[j]@ == l;
                            assert(0 <= j < i + 1 && labels[j]@ == l);
                        }
                    }
                    if exists|j: int| 0 <= j < i + 1 && #[trigger] labels[j]@ == l {
                        let j = choose|j: int| 0 <= j < i + 1 && #[trigger] labels[j]@ == l;
                        if j < i {
                            assert(was.contains_key(l));
                        }
                    }
                }
                assert(n == self.labels()[labels[i as int]@].len());
            }
            i += 1;
        }
        assert(label_counts@ =~= all);
        let names = self.property_index.indexed_fields();
        let mut indexed: StringSet = StringSet::new();
        let mut k: usize = 0;
        while k < names.len()
            invariant
                k <= names.len(),
                forall|j: int| 0 <= j < names.len() ==> self.fields().contains_key(
                    #[trigger] names[j]@,
                ),
                forall|f: Seq<char>| #[trigger]
                    indexed@.contains(f) <==> exists|j: int|
                        0 <= j < k && #[trigger] names[j]@ == f,
            decreases names.len() - k,
        {
            let ghost was = indexed@;
            indexed.insert(names[k].clone());
            proof {
                assert forall|f: Seq<char>| #[trigger]
                    indexed@.contains(f) <==> exists|j: int|
                        0 <= j < k + 1 && #[trigger] names[j]@ == f by {
                    if indexed@.contains(f) {
                        if f == names[k as int]@ {
                            assert(0 <= k < k + 1 && names[k as int]@ == f);
                        } else {
                            assert(was.contains(f));
                            let j = choose|j: int| 0 <= j < k && #[trigger] names[j]@ == f;
                            assert(0 <= j < k + 1 && names[j]@ == f);
                        }
                    }
                    if exists|j: int| 0 <= j < k + 1 && #[trigger] names[j]@ == f {
                        let j = choose|j: int| 0 <= j < k + 1 && #[trigger] names[j]@ == f;
                        if j < k {
                            assert(was.contains(f));
                        }
                    }
                }
            }
            k += 1;
        }
        assert(indexed@ =~= self.fields().dom());
        DatabaseStats {
            node_count: self.engine.node_count(),
            edge_count: self.engine.edge_count(),
            label_counts,
            indexed_node_fields: indexed,
        }
    }
}

/// Whether a node meets a condition.
pub open spec fn meets(c: ConditionView) -> spec_fn(Node) -> bool {
    |n: Node|
        n@.properties.contains_key(c.key) && c.op.holds_values(n@.properties[c.key], c.value)
}

/// The nodes that meet a condition.
fn matching(nodes: Vec<Node>, field: &str, op: &ComparisonOp, value: &Value) -> (r: Vec<Node>)
    ensures
        r@ == nodes@.filter(meets(ConditionView { key: field@, op: *op, value: value@ })),
{
    let ghost all = nodes@;
    let ghost p = meets(ConditionView { key: field@, op: *op, value: value@ });
    let mut out: Vec<Node> = Vec::new();
    proof {
        reveal(Seq::filter);
        assert(all.take(0).filter(p) =~= Seq::empty());
    }
    for n in it: nodes
        invariant
            it.seq() == all,
            p == meets(ConditionView { key: field@, op: *op, value: value@ }),
            out@ == all.take(it.index() as int).filter(p),
    {
        let ghost i = it.index() as int;
        proof {
            reveal(Seq::filter);
            assert(all.take(i + 1).drop_last() =~= all.take(i));
            assert(all.take(i + 1).last() == n);
        }
        let keep = match n.properties.get(field) {
            Some(v) => op.compare_values(v, value),
            None => false,
        };
        if keep {
            out.push(n);
        }
    }
    assert(all.take(all.len() as int) =~= all);
    out
}

proof fn lemma_matching(
    all: Seq<Node>,
    found: Seq<Node>,
    m: Map<NodeId, NodeView>,
    part: Map<NodeId, NodeView>,
    c: ConditionView,
)
    requires
        lists_nodes(all, m),
        found == all.filter(meets(c)),
        forall|id: NodeId| #[trigger]
            part.contains_key(id) <==> m.contains_key(id) && m[id].properties.contains_key(c.key)
                && c.op.holds_values(m[id].properties[c.key], c.value),
        forall|id: NodeId| #[trigger] part.contains_key(id) ==> part[id] == m[id],
    ensures
        lists_nodes(found, part),
{
    broadcast use vstd::seq_lib::group_filter_ensures;

    let p = meets(c);
    lemma_filter_order(all, p);
    assert forall|i: int| 0 <= i < found.len() implies part.contains_key((#[trigger] found[i]).id)
        && part[found[i].id] == found[i]@ by {
        assert(found.contains(found[i]));
        assert(all.contains(found[i]));
        let j = choose|j: int| 0 <= j < all.len() && all[j] == found[i];
        assert(m.contains_key(all[j].id) && m[all[j].id] == all[j]@);
        assert(p(found[i]));
        assert(part.contains_key(found[i].id));
    }
    assert forall|i: int, j: int| 0 <= i < j < found.len() implies (#[trigger] found[i]).id
        != (#[trigger] found[j]).id by {
        let (a, b) = choose|a: int, b: int|
            0 <= a < b < all.len() && all[a] == found[i] && all[b] == found[j];
        assert(all[a].id != all[b].id);
    }
    assert forall|id: NodeId| #[trigger] part.contains_key(id) implies exists|i: int|
        0 <= i < found.len() && (#[trigger] found[i]).id == id by {
        let j = choose|j: int| 0 <= j < all.len() && (#[trigger] all[j]).id == id;
        assert(p(all[j]));
        assert(all.contains(all[j]));
        assert(found.contains(all[j]));
        let i = choose|i: int| 0 <= i < found.len() && found[i] == all[j];
        assert(found[i].id == id);
    }
}

} // verus!
