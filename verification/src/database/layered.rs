//! The database: storage, cache, engine and indexes kept in step.
//!
//! A change goes to the storage first, then to the cache, the engine and the
//! indexes. Nodes and edges are read from the cache, or else from the storage.
//! Traversals need the engine alone.

use crate::adapters::cache::lru::LruCache;
use crate::adapters::index::label_index::{label_bucket, LabelIndex};
use crate::adapters::index::property_index::{FieldView, PropertyIndex};
use crate::collections::entries::entries_map;
use crate::collections::string_map::StringMap;
use crate::database::coherence::{
    covered, delete_edges, engine_matches, labels_match, lemma_engine_insert_edge,
    lemma_engine_insert_node, lemma_engine_remove_edges, lemma_engine_remove_node,
    lemma_labels_insert, lemma_labels_remove, lemma_props_insert, lemma_props_remove, props_match,
    GraphView,
};
use crate::database::config::{DatabaseConfig, NodeFieldIndexing};
use crate::database::metrics::{count, next, DatabaseMetrics};
use crate::database::settling::{
    delete_each, lemma_delete_each, lemma_settled_delete_edge, lemma_settled_delete_node,
    lemma_settled_save_edge, lemma_settled_save_node, settled, stored_graph,
};
use crate::float::Float64;
use crate::model::edge::{Edge, EdgeView};
use crate::model::edge_id::EdgeId;
use crate::model::error::{GraphError, GraphErrorView};
use crate::model::id_generator::IdGenerator;
use crate::model::node::{Node, NodeView};
use crate::model::node_id::NodeId;
use crate::model::value::{Value, ValueView};
use crate::ports::cache::{within_insert, CachePort};
use crate::ports::engine::{EngineView, GraphEnginePort, Neighbor};
use crate::ports::storage::{short_text, storable_properties, StoragePort, StorageView};
use vstd::prelude::*;

pub mod committing;
pub mod opening;
pub mod progress;
pub mod querying;
pub mod reading;
pub mod schema;

verus! {

/// A graph database made of interchangeable layers.
pub struct LayeredGraphDatabase<S: StoragePort, C: CachePort, E: GraphEnginePort> {
    engine: E,
    cache: C,
    storage: S,
    label_index: LabelIndex,
    property_index: PropertyIndex,
    id_generator: IdGenerator,
    config: DatabaseConfig,
    metrics: DatabaseMetrics,
    writes_since_compact: usize,
    slow_query_ms: Option<u64>,
    compaction_failure: Option<GraphError>,
}

/// Whether every entry of one map is in the other.
pub open spec fn within<K, W>(a: Map<K, W>, b: Map<K, W>) -> bool {
    forall|k: K| #[trigger] a.contains_key(k) ==> b.contains_key(k) && a[k] == b[k]
}

/// Whether every identifier of a graph lies below the counters.
pub open spec fn ids_below(g: GraphView, next_node: u64, next_edge: u64) -> bool {
    &&& forall|id: NodeId| #[trigger] g.nodes.contains_key(id) ==> id.0 < next_node
    &&& forall|id: EdgeId| #[trigger] g.edges.contains_key(id) ==> id.0 < next_edge
}

/// Whether every edge of a graph connects nodes of it.
pub open spec fn sound(g: GraphView) -> bool {
    forall|id: EdgeId| #[trigger]
        g.edges.contains_key(id) ==> g.nodes.contains_key(g.edges[id].source)
            && g.nodes.contains_key(g.edges[id].target)
}

impl<S: StoragePort, C: CachePort, E: GraphEnginePort> LayeredGraphDatabase<S, C, E> {
    /// What the storage holds.
    pub closed spec fn stored(&self) -> StorageView {
        self.storage.state()
    }

    /// Whether the storage marks transactions.
    pub closed spec fn marks(&self) -> bool {
        self.storage.marks_transactions()
    }

    /// Whether the storage never fails.
    pub closed spec fn reliable(&self) -> bool {
        self.storage.reliable()
    }

    /// The size of the storage in bytes, as the storage tells it.
    pub closed spec fn storage_size(&self) -> u64 {
        self.storage.size()
    }

    /// Whether the storage has one entry for each live node and edge and nothing
    /// else.
    pub closed spec fn storage_compacted(&self) -> bool {
        self.storage.compacted()
    }

    /// The structure of the graph.
    pub closed spec fn structure(&self) -> EngineView {
        self.engine.graph()
    }

    /// The nodes in the cache.
    pub open spec fn cached_nodes(&self) -> Map<NodeId, NodeView> {
        self.cache_layer().nodes()
    }

    /// The edges in the cache.
    pub open spec fn cached_edges(&self) -> Map<EdgeId, EdgeView> {
        self.cache_layer().edges()
    }

    /// The milliseconds that the last query took, if it was slow.
    pub closed spec fn slow(&self) -> Option<u64> {
        self.slow_query_ms
    }

    /// The error of the compaction that the last write brought about, if it failed.
    pub closed spec fn compaction_error(&self) -> Option<GraphErrorView> {
        match self.compaction_failure {
            Some(e) => Some(e@),
            None => None,
        }
    }

    /// The cache.
    pub closed spec fn cache_layer(&self) -> C {
        self.cache
    }

    /// Whether a node was offered to the cache when it held what it held in an earlier
    /// state.
    pub open spec fn offered_node(&self, before: &Self, n: NodeView) -> bool {
        exists|c: C|
            {
                &&& #[trigger] self.cache_layer().took_node(&c, n)
                &&& c.valid()
                &&& c.nodes() == before.cached_nodes()
                &&& c.edges() == before.cached_edges()
            }
    }

    /// Whether an edge was offered to the cache when it held what it held in an earlier
    /// state.
    pub open spec fn offered_edge(&self, before: &Self, e: EdgeView) -> bool {
        exists|c: C|
            {
                &&& #[trigger] self.cache_layer().took_edge(&c, e)
                &&& c.valid()
                &&& c.nodes() == before.cached_nodes()
                &&& c.edges() == before.cached_edges()
            }
    }

    /// Whether the cache followed the deletion of a node with the edges that leave or
    /// enter it.
    pub open spec fn cache_left(&self, before: &Self, id: NodeId) -> bool {
        &&& left_node(
            before.cache_layer(),
            self.cache_layer(),
            id,
            stored_node(before.stored(), id),
        )
        &&& self.cached_edges() == before.cached_edges().remove_keys(
            incident_edges(before.structure(), id).to_set(),
        )
    }

    /// Whether the cache holds nothing.
    pub open spec fn cache_empty(&self) -> bool {
        &&& self.cached_nodes() == Map::<NodeId, NodeView>::empty()
        &&& self.cached_edges() == Map::<EdgeId, EdgeView>::empty()
    }

    /// The nodes by label.
    pub closed spec fn labels(&self) -> Map<Seq<char>, Seq<NodeId>> {
        self.label_index@
    }

    /// The indexed properties.
    pub closed spec fn fields(&self) -> Map<Seq<char>, FieldView> {
        self.property_index@
    }

    /// The number of the next node.
    pub closed spec fn next_node(&self) -> u64 {
        self.id_generator.next_node()
    }

    /// The number of the next edge.
    pub closed spec fn next_edge(&self) -> u64 {
        self.id_generator.next_edge()
    }

    /// The configuration.
    pub closed spec fn settings(&self) -> DatabaseConfig {
        self.config
    }

    /// The counters.
    pub closed spec fn counters(&self) -> DatabaseMetrics {
        self.metrics
    }

    /// The number of writes since the last compaction.
    pub closed spec fn writes(&self) -> usize {
        self.writes_since_compact
    }

    /// Whether each layer is in order by itself.
    pub closed spec fn well_formed(&self) -> bool {
        self.storage.valid() && self.cache.valid() && self.property_index.valid()
    }

    /// The graph that the database holds.
    pub open spec fn graph(&self) -> GraphView {
        stored_graph(self.stored())
    }

    /// Whether cache, engine and indexes agree with a graph.
    pub open spec fn agrees(&self, g: GraphView) -> bool {
        &&& within(self.cached_nodes(), g.nodes)
        &&& within(self.cached_edges(), g.edges)
        &&& engine_matches(g, self.structure())
        &&& labels_match(g, self.labels())
        &&& props_match(g, self.fields(), self.settings().indexed_node_fields)
    }

    /// Whether all layers agree on the graph, no transaction is open in the
    /// storage, and the identifiers in use lie below the counters.
    pub open spec fn coherent(&self) -> bool {
        &&& self.stored().txn is None
        &&& self.agrees(self.graph())
        &&& ids_below(self.graph(), self.next_node(), self.next_edge())
    }

    /// Whether the layers other than the cache, and the configuration, are the
    /// same.
    pub open spec fn same_layers(&self, other: &Self) -> bool {
        &&& self.stored() == other.stored()
        &&& self.storage_size() == other.storage_size()
        &&& self.marks() == other.marks()
        &&& self.reliable() == other.reliable()
        &&& self.structure() == other.structure()
        &&& self.labels() == other.labels()
        &&& self.fields() == other.fields()
        &&& self.next_node() == other.next_node()
        &&& self.next_edge() == other.next_edge()
        &&& self.settings() == other.settings()
        &&& self.writes() == other.writes()
        &&& self.compaction_error() == other.compaction_error()
    }

    /// Whether the layers in memory are the same.
    pub open spec fn same_memory(&self, other: &Self) -> bool {
        &&& self.structure() == other.structure()
        &&& self.labels() == other.labels()
        &&& self.fields() == other.fields()
        &&& self.cached_nodes() == other.cached_nodes()
        &&& self.cached_edges() == other.cached_edges()
    }

    /// Whether the counters of identifiers, the configuration, the metrics and the
    /// nature of the storage are the same.
    pub open spec fn same_setting(&self, other: &Self) -> bool {
        &&& self.marks() == other.marks()
        &&& self.reliable() == other.reliable()
        &&& self.next_node() == other.next_node()
        &&& self.next_edge() == other.next_edge()
        &&& self.settings() == other.settings()
        &&& self.counters() == other.counters()
        &&& self.slow() == other.slow()
        &&& self.writes() == other.writes()
        &&& self.compaction_error() == other.compaction_error()
    }

    // ---------------------------------------------------------------- reading

    /// The node with this identifier, if there is one. It is read from the cache
    /// or else from the storage, and then cached.
    pub fn get_node(&mut self, id: NodeId) -> (r: Result<Option<Node>, GraphError>)
        requires
            old(self).well_formed(),
        ensures
            final(self).well_formed(),
            final(self).same_layers(old(self)),
            final(self).slow() == old(self).slow(),
            final(self).counters() == node_read(
                old(self).counters(),
                old(self).cached_nodes().contains_key(id),
            ),
            old(self).reliable() ==> r is Ok,
            old(self).cached_nodes().contains_key(id) ==> match r {
                Ok(Some(n)) => n@ == old(self).cached_nodes()[id],
                _ => false,
            },
            !old(self).cached_nodes().contains_key(id) ==> match r {
                Ok(Some(n)) => old(self).stored().nodes.contains_key(id) && n@ == old(
                    self,
                ).stored().nodes[id],
                Ok(None) => !old(self).stored().nodes.contains_key(id),
                Err(_) => true,
            },
            final(self).cached_edges() == old(self).cached_edges(),
            forall|j: NodeId| #[trigger]
                final(self).cached_nodes().contains_key(j) ==> {
                    ||| old(self).cached_nodes().contains_key(j) && final(self).cached_nodes()[j]
                        == old(self).cached_nodes()[j]
                    ||| j == id && old(self).stored().nodes.contains_key(id)
                        && final(self).cached_nodes()[j] == old(self).stored().nodes[id]
                },
            match r {
                Ok(Some(n)) => if old(self).cached_nodes().contains_key(id) {
                    final(self).cached_nodes() == old(self).cached_nodes()
                } else {
                    final(self).offered_node(old(self), n@)
                },
                _ => final(self).cached_nodes() == old(self).cached_nodes(),
            },
            old(self).coherent() ==> final(self).coherent() && match r {
                Ok(Some(n)) => old(self).graph().nodes.contains_key(id) && n@ == old(
                    self,
                ).graph().nodes[id],
                Ok(None) => !old(self).graph().nodes.contains_key(id),
                Err(_) => true,
            },
    {
        proof {
            self.storage.lemma_keyed();
        }
        match self.cache.get_node(id) {
            Some(node) => {
                count(&mut self.metrics.cache_node_hits);
                Ok(Some(node))
            },
            None => {
                count(&mut self.metrics.cache_node_misses);
                match self.storage.load_node(id) {
                    Ok(Some(node)) => {
                        let copy = node.clone();
                        assert(copy@.id == id);
                        let ghost earlier = self.cache;
                        self.cache.put_node(copy);
                        assert(self.cache_layer().took_node(&earlier, node@));
                        Ok(Some(node))
                    },
                    Ok(None) => Ok(None),
                    Err(e) => Err(e),
                }
            },
        }
    }

    /// The edge with this identifier, if there is one. It is read from the cache
    /// or else from the storage, and then cached.
    pub fn get_edge(&mut self, id: EdgeId) -> (r: Result<Option<Edge>, GraphError>)
        requires
            old(self).well_formed(),
        ensures
            final(self).well_formed(),
            final(self).same_layers(old(self)),
            final(self).slow() == old(self).slow(),
            final(self).counters() == edge_read(
                old(self).counters(),
                old(self).cached_edges().contains_key(id),
            ),
            old(self).reliable() ==> r is Ok,
            old(self).cached_edges().contains_key(id) ==> match r {
                Ok(Some(e)) => e@ == old(self).cached_edges()[id],
                _ => false,
            },
            !old(self).cached_edges().contains_key(id) ==> match r {
                Ok(Some(e)) => old(self).stored().edges.contains_key(id) && e@ == old(
                    self,
                ).stored().edges[id],
                Ok(None) => !old(self).stored().edges.contains_key(id),
                Err(_) => true,
            },
            final(self).cached_nodes() == old(self).cached_nodes(),
            forall|j: EdgeId| #[trigger]
                final(self).cached_edges().contains_key(j) ==> {
                    ||| old(self).cached_edges().contains_key(j) && final(self).cached_edges()[j]
                        == old(self).cached_edges()[j]
                    ||| j == id && old(self).stored().edges.contains_key(id)
                        && final(self).cached_edges()[j] == old(self).stored().edges[id]
                },
            match r {
                Ok(Some(e)) => if old(self).cached_edges().contains_key(id) {
                    final(self).cached_edges() == old(self).cached_edges()
                } else {
                    final(self).offered_edge(old(self), e@)
                },
                _ => final(self).cached_edges() == old(self).cached_edges(),
            },
            old(self).coherent() ==> final(self).coherent() && match r {
                Ok(Some(e)) => old(self).graph().edges.contains_key(id) && e@ == old(
                    self,
                ).graph().edges[id],
                Ok(None) => !old(self).graph().edges.contains_key(id),
                Err(_) => true,
            },
    {
        proof {
            self.storage.lemma_keyed();
        }
        match self.cache.get_edge(id) {
            Some(edge) => {
                count(&mut self.metrics.cache_edge_hits);
                Ok(Some(edge))
            },
            None => {
                count(&mut self.metrics.cache_edge_misses);
                match self.storage.load_edge(id) {
                    Ok(Some(edge)) => {
                        let copy = edge.clone();
                        assert(copy@.id == id);
                        let ghost earlier = self.cache;
                        self.cache.put_edge(copy);
                        assert(self.cache_layer().took_edge(&earlier, edge@));
                        Ok(Some(edge))
                    },
                    Ok(None) => Ok(None),
                    Err(e) => Err(e),
                }
            },
        }
    }

    // ------------------------------------------------------- parts of a change

    /// The properties of a node that are to be indexed.
    fn covered_properties(&self, props: &StringMap<Value>) -> (r: StringMap<Value>)
        ensures
            r@ == covered(props@, self.settings().indexed_node_fields),
    {
        let ghost cfg = self.config.indexed_node_fields;
        let ghost entries = props.entries();
        if self.config.indexes_all_fields() {
            let copy = props.clone();
            assert(copy@ =~= covered(props@, cfg));
            return copy;
        }
        let n: usize = props.len();
        let mut out: StringMap<Value> = StringMap::new();
        let mut i: usize = 0;
        assert(entries.take(0) =~= Seq::empty());
        assert(out@ =~= covered(entries_map(entries.take(0)), cfg));
        while i < n
            invariant
                i <= n,
                n == entries.len(),
                entries == props.entries(),
                cfg == self.config.indexed_node_fields,
                out@ == covered(entries_map(entries.take(i as int)), cfg),
            decreases n - i,
        {
            proof {
                assert(entries.take(i + 1).drop_last() =~= entries.take(i as int));
                assert(entries.take(i + 1).last() == entries[i as int]);
            }
            let key = props.key_at(i);
            if self.config.should_index_field(key.as_str()) {
                out.insert(key.clone(), props.value_at(i).clone());
            } else {
                assert(!cfg.covers(entries[i as int].0));
            }
            assert(out@ =~= covered(entries_map(entries.take(i + 1)), cfg));
            i += 1;
        }
        assert(entries.take(n as int) =~= entries);
        out
    }

    /// Whether the storage, the counters of identifiers, the configuration and the
    /// metrics are the same.
    pub open spec fn same_elsewhere(&self, other: &Self) -> bool {
        &&& self.same_setting(other)
        &&& self.stored() == other.stored()
        &&& self.storage_size() == other.storage_size()
        &&& self.storage_compacted() == other.storage_compacted()
    }

    /// Enters a node in cache, engine and indexes.
    fn enter_node(&mut self, node: Node)
        requires
            old(self).well_formed(),
        ensures
            final(self).well_formed(),
            final(self).same_elsewhere(old(self)),
            final(self).structure() == old(self).structure().insert_node(node.id),
            final(self).cache_layer().took_node(&old(self).cache_layer(), node@),
            forall|g: GraphView| #[trigger]
                old(self).agrees(g) && !g.nodes.contains_key(node.id) ==> final(self).agrees(
                    g.insert_node(node@),
                ),
    {
        let id = node.id;
        let copy = node.clone();
        self.cache.put_node(copy);
        self.engine.insert_node(id);
        self.label_index.insert(id, node.label.as_str());
        let indexed = self.covered_properties(&node.properties);
        self.property_index.insert_node(id, &indexed);
        proof {
            assert forall|g: GraphView| #[trigger] old(self).agrees(g) && !g.nodes.contains_key(
                id,
            ) implies self.agrees(g.insert_node(node@)) by {
                lemma_engine_insert_node(g, old(self).structure(), node@);
                lemma_labels_insert(g, old(self).labels(), node@);
                lemma_props_insert(
                    g,
                    old(self).fields(),
                    old(self).settings().indexed_node_fields,
                    node@,
                );
            }
        }
    }

    /// Enters an edge in cache and engine.
    fn enter_edge(&mut self, edge: Edge)
        requires
            old(self).well_formed(),
        ensures
            final(self).well_formed(),
            final(self).same_elsewhere(old(self)),
            final(self).structure() == old(self).structure().insert_edge(
                edge.id,
                edge.source,
                edge.target,
                edge.weight,
            ),
            final(self).cache_layer().took_edge(&old(self).cache_layer(), edge@),
            forall|g: GraphView| #[trigger]
                old(self).agrees(g) && !g.edges.contains_key(edge.id) && g.nodes.contains_key(
                    edge.source,
                ) && g.nodes.contains_key(edge.target) ==> final(self).agrees(g.insert_edge(edge@)),
    {
        let (id, source, target, weight) = (edge.id, edge.source, edge.target, edge.weight);
        let ghost view = edge@;
        self.cache.put_edge(edge);
        self.engine.insert_edge(id, source, target, weight);
        proof {
            assert forall|g: GraphView| #[trigger] old(self).agrees(g) && !g.edges.contains_key(id)
                && g.nodes.contains_key(source) && g.nodes.contains_key(
                target,
            ) implies self.agrees(g.insert_edge(view)) by {
                lemma_engine_insert_edge(g, old(self).structure(), view);
                lemma_same_nodes_labels(g, g.insert_edge(view), self.labels());
                lemma_same_nodes_props(
                    g,
                    g.insert_edge(view),
                    self.fields(),
                    self.settings().indexed_node_fields,
                );
            }
        }
    }

    /// Takes an edge out of cache and engine.
    fn leave_edge(&mut self, id: EdgeId)
        requires
            old(self).well_formed(),
        ensures
            final(self).well_formed(),
            final(self).same_elsewhere(old(self)),
            final(self).structure() == old(self).structure().remove_edges(set![id]),
            final(self).cached_nodes() == old(self).cached_nodes(),
            final(self).cached_edges() == old(self).cached_edges().remove(id),
            forall|g: GraphView| #[trigger]
                old(self).agrees(g) ==> final(self).agrees(g.delete_edge(id)),
    {
        self.cache.invalidate_edge(id);
        self.engine.remove_edge(id);
        proof {
            assert forall|g: GraphView| #[trigger] old(self).agrees(g) implies self.agrees(
                g.delete_edge(id),
            ) by {
                let h = g.delete_edge(id);
                lemma_engine_remove_edges(g, old(self).structure(), set![id]);
                assert(delete_edges(g, set![id]).edges =~= h.edges);
                lemma_same_nodes_labels(g, h, self.labels());
                lemma_same_nodes_props(g, h, self.fields(), self.settings().indexed_node_fields);
            }
        }
    }
}

/// Whether what is known of a node that is to be deleted is right: the node, or that
/// there is none.
pub open spec fn known_right(known: Option<Node>, g: GraphView, id: NodeId) -> bool {
    match known {
        Some(n) => g.nodes.contains_key(id) && n@ == g.nodes[id],
        None => !g.nodes.contains_key(id),
    }
}

/// Whether a cache became what it is when a node was read and then forgotten. The
/// node, if there is one, is taken in before where the cache does not hold it, and
/// another may leave for it.
pub open spec fn left_node<C: CachePort>(
    before: C,
    after: C,
    id: NodeId,
    node: Option<NodeView>,
) -> bool {
    match node {
        Some(n) => if before.nodes().contains_key(id) {
            after.nodes() == before.nodes().remove(id)
        } else {
            took_and_left(before, after, id, n)
        },
        None => after.nodes() == before.nodes().remove(id),
    }
}

/// Whether a cache took a node in and then forgot it.
pub open spec fn took_and_left<C: CachePort>(
    before: C,
    after: C,
    id: NodeId,
    n: NodeView,
) -> bool {
    exists|a: C, mid: C|
        {
            &&& #[trigger] mid.took_node(&a, n)
            &&& a.valid()
            &&& a.nodes() == before.nodes()
            &&& after.nodes() == mid.nodes().remove(id)
        }
}

/// The node that a storage has under an identifier.
pub open spec fn stored_node(st: StorageView, id: NodeId) -> Option<NodeView> {
    if st.nodes.contains_key(id) {
        Some(st.nodes[id])
    } else {
        None
    }
}

/// The counters after one read of a node, which the cache served or not.
pub open spec fn node_read(m: DatabaseMetrics, hit: bool) -> DatabaseMetrics {
    if hit {
        DatabaseMetrics { cache_node_hits: next(m.cache_node_hits), ..m }
    } else {
        DatabaseMetrics { cache_node_misses: next(m.cache_node_misses), ..m }
    }
}

/// The counters after one read of an edge, which the cache served or not.
pub open spec fn edge_read(m: DatabaseMetrics, hit: bool) -> DatabaseMetrics {
    if hit {
        DatabaseMetrics { cache_edge_hits: next(m.cache_edge_hits), ..m }
    } else {
        DatabaseMetrics { cache_edge_misses: next(m.cache_edge_misses), ..m }
    }
}

/// Whether two sets of counters differ at most in what the cache served.
pub open spec fn same_but_cache(a: DatabaseMetrics, b: DatabaseMetrics) -> bool {
    a == DatabaseMetrics {
        cache_node_hits: a.cache_node_hits,
        cache_node_misses: a.cache_node_misses,
        cache_edge_hits: a.cache_edge_hits,
        cache_edge_misses: a.cache_edge_misses,
        ..b
    }
}

/// The edges that neighbours stand for.
pub open spec fn edge_ids(s: Seq<Neighbor>) -> Seq<EdgeId> {
    s.map_values(|n: Neighbor| n.edge_id)
}

/// The edges that leave or enter a node, in the order of its lists.
pub open spec fn incident_edges(e: EngineView, id: NodeId) -> Seq<EdgeId> {
    edge_ids(e.out_of(id)) + edge_ids(e.into(id))
}

/// Whether a storage is as the deletion of the first of some edges leaves it.
pub open spec fn deletes_some(before: StorageView, after: StorageView, edges: Seq<EdgeId>) -> bool {
    exists|k: int| 0 <= k <= edges.len() && after == #[trigger] delete_each(before, edges.take(k))
}

/// Whether a storage is as the deletion of a node that fails on the way leaves it:
/// some of the node's edges are deleted, or all of them and perhaps the node.
pub open spec fn deletion_begun(
    before: StorageView,
    after: StorageView,
    id: NodeId,
    edges: Seq<EdgeId>,
) -> bool {
    deletes_some(before, after, edges) || after == delete_each(before, edges).delete_node(id)
}

/// The edges in the lists of a node are those that leave or enter it.
proof fn lemma_incident_lists(g: GraphView, e: EngineView, id: NodeId)
    requires
        engine_matches(g, e),
    ensures
        (edge_ids(e.out_of(id)) + edge_ids(e.into(id))).to_set() == g.incident(id),
{
    let out = e.out_of(id);
    let back = e.into(id);
    let all = edge_ids(out) + edge_ids(back);
    assert forall|x: EdgeId| #[trigger] all.to_set().contains(x) <==> g.incident(id).contains(
        x,
    ) by {
        if all.to_set().contains(x) {
            let i = choose|i: int| 0 <= i < all.len() && all[i] == x;
            if i < out.len() {
                assert(out.contains(out[i]));
            } else {
                assert(back.contains(back[i - out.len()]));
            }
        }
        if g.incident(id).contains(x) {
            if g.edges[x].source == id {
                let n = crate::database::coherence::forward(g.edges[x]);
                assert(out.contains(n));
                let i = choose|i: int| 0 <= i < out.len() && out[i] == n;
                assert(all[i] == x);
            } else {
                let n = crate::database::coherence::backward(g.edges[x]);
                assert(back.contains(n));
                let i = choose|i: int| 0 <= i < back.len() && back[i] == n;
                assert(all[out.len() + i] == x);
            }
        }
    }
    assert(all.to_set() =~= g.incident(id));
}

fn edges_of(list: &Vec<Neighbor>, out: &mut Vec<EdgeId>)
    ensures
        final(out)@ == old(out)@ + edge_ids(list@),
{
    let mut i: usize = 0;
    assert(out@ =~= old(out)@ + edge_ids(list@.take(0)));
    while i < list.len()
        invariant
            i <= list.len(),
            out@ == old(out)@ + edge_ids(list@.take(i as int)),
        decreases list.len() - i,
    {
        out.push(list[i].edge_id);
        i += 1;
        assert(out@ =~= old(out)@ + edge_ids(list@.take(i as int)));
    }
    assert(list@.take(i as int) =~= list@);
}

impl<S: StoragePort, C: CachePort, E: GraphEnginePort> LayeredGraphDatabase<S, C, E> {
    /// Takes edges out of storage and cache.
    fn forget_edges(&mut self, ids: &Vec<EdgeId>) -> (r: Result<(), GraphError>)
        requires
            old(self).well_formed(),
        ensures
            final(self).well_formed(),
            final(self).same_setting(old(self)),
            final(self).structure() == old(self).structure(),
            final(self).labels() == old(self).labels(),
            final(self).fields() == old(self).fields(),
            old(self).reliable() ==> r is Ok,
            final(self).cached_nodes() == old(self).cached_nodes(),
            within(final(self).cached_edges(), old(self).cached_edges()),
            r is Err ==> deletes_some(old(self).stored(), final(self).stored(), ids@),
            r is Ok ==> {
                &&& final(self).stored() == delete_each(old(self).stored(), ids@)
                &&& final(self).cached_edges() == old(self).cached_edges().remove_keys(
                    ids@.to_set(),
                )
            },
    {
        let mut i: usize = 0;
        proof {
            assert(ids@.take(0) =~= Seq::empty());
            assert(ids@.take(0).to_set() =~= Set::empty());
            assert(self.cached_edges() =~= self.cached_edges().remove_keys(Set::empty()));
        }
        while i < ids.len()
            invariant
                i <= ids.len(),
                self.well_formed(),
                self.same_setting(old(self)),
                self.structure() == old(self).structure(),
                self.labels() == old(self).labels(),
                self.fields() == old(self).fields(),
                self.stored() == delete_each(old(self).stored(), ids@.take(i as int)),
                self.cached_nodes() == old(self).cached_nodes(),
                self.cached_edges() == old(self).cached_edges().remove_keys(
                    ids@.take(i as int).to_set(),
                ),
            decreases ids.len() - i,
        {
            let id = ids[i];
            proof {
                assert(ids@.take(i + 1).drop_last() =~= ids@.take(i as int));
                crate::adapters::storage::replay::lemma_take_set(ids@, i as int);
            }
            match self.storage.delete_edge(id) {
                Err(e) => {
                    proof {
                        let st = old(self).stored();
                        if self.stored() != delete_each(st, ids@.take(i as int)) {
                            assert(self.stored() == delete_each(st, ids@.take(i + 1)));
                        }
                    }
                    return Err(e);
                },
                Ok(_) => {},
            }
            self.cache.invalidate_edge(id);
            assert(self.cached_edges() =~= old(self).cached_edges().remove_keys(
                ids@.take(i + 1).to_set(),
            ));
            i += 1;
        }
        assert(ids@.take(i as int) =~= ids@);
        Ok(())
    }

    /// Takes a node with the edges that leave or enter it out of cache, engine and
    /// indexes.
    fn leave_node(&mut self, id: NodeId, known: &Option<Node>)
        requires
            old(self).well_formed(),
        ensures
            final(self).well_formed(),
            final(self).same_elsewhere(old(self)),
            final(self).structure() == old(self).structure().remove_node(id),
            final(self).cached_nodes() == old(self).cached_nodes().remove(id),
            final(self).cached_edges() == old(self).cached_edges().remove_keys(
                incident_edges(old(self).structure(), id).to_set(),
            ),
            forall|g: GraphView| #[trigger]
                old(self).agrees(g) && known_right(*known, g, id) ==> final(self).agrees(
                    g.delete_node(id),
                ),
    {
        let incident = self.incident(id);
        let mut i: usize = 0;
        proof {
            assert(incident@.take(0).to_set() =~= Set::empty());
            assert(self.cached_edges() =~= self.cached_edges().remove_keys(Set::empty()));
        }
        while i < incident.len()
            invariant
                i <= incident.len(),
                self.well_formed(),
                self.same_elsewhere(old(self)),
                self.structure() == old(self).structure(),
                self.labels() == old(self).labels(),
                self.fields() == old(self).fields(),
                self.cached_nodes() == old(self).cached_nodes(),
                self.cached_edges() == old(self).cached_edges().remove_keys(
                    incident@.take(i as int).to_set(),
                ),
            decreases incident.len() - i,
        {
            proof {
                crate::adapters::storage::replay::lemma_take_set(incident@, i as int);
            }
            self.cache.invalidate_edge(incident[i]);
            assert(self.cached_edges() =~= old(self).cached_edges().remove_keys(
                incident@.take(i + 1).to_set(),
            ));
            i += 1;
        }
        assert(incident@.take(i as int) =~= incident@);
        match known {
            Some(n) => {
                self.label_index.remove(id, n.label.as_str());
                self.property_index.remove_node(id, &n.properties);
            },
            None => {},
        }
        self.cache.invalidate_node(id);
        self.engine.remove_node(id);
        proof {
            assert forall|g: GraphView| #[trigger] old(self).agrees(g) && known_right(
                *known,
                g,
                id,
            ) implies self.agrees(g.delete_node(id)) by {
                let h = g.delete_node(id);
                lemma_incident_lists(g, old(self).structure(), id);
                lemma_engine_remove_node(g, old(self).structure(), id);
                if g.nodes.contains_key(id) {
                    lemma_labels_remove(g, old(self).labels(), id);
                    lemma_props_remove(
                        g,
                        old(self).fields(),
                        old(self).settings().indexed_node_fields,
                        id,
                    );
                } else {
                    assert(h.nodes =~= g.nodes);
                    lemma_same_nodes_labels(g, h, self.labels());
                    lemma_same_nodes_props(
                        g,
                        h,
                        self.fields(),
                        self.settings().indexed_node_fields,
                    );
                }
                assert(within(self.cached_nodes(), h.nodes));
                assert(within(self.cached_edges(), h.edges));
            }
        }
    }

    /// The edges that leave or enter a node.
    fn incident(&self, id: NodeId) -> (r: Vec<EdgeId>)
        ensures
            r@ == incident_edges(self.structure(), id),
    {
        let mut incident: Vec<EdgeId> = Vec::new();
        let out = self.engine.neighbors_outgoing(id);
        let back = self.engine.neighbors_incoming(id);
        edges_of(&out, &mut incident);
        edges_of(&back, &mut incident);
        assert(incident@ =~= incident_edges(self.structure(), id));
        incident
    }
}

/// The number of writes after one more.
pub open spec fn one_more(writes: usize) -> usize {
    if writes == usize::MAX {
        0
    } else {
        (writes + 1) as usize
    }
}

/// Whether a number of writes calls for a compaction.
pub open spec fn compaction_due(config: DatabaseConfig, writes: usize) -> bool {
    config.auto_compact_after_writes matches Some(t) && writes >= t
}

/// Whether the counters are right after a write that is counted as `counted`: the
/// write counts toward the next compaction, and where one is due it takes place,
/// unless the storage fails.
pub open spec fn write_counted(
    config: DatabaseConfig,
    reliable: bool,
    writes_before: usize,
    counted: DatabaseMetrics,
    writes_after: usize,
    counters_after: DatabaseMetrics,
) -> bool {
    let w = one_more(writes_before);
    let compacted = writes_after == 0 && counters_after == (DatabaseMetrics {
        compactions: next(counted.compactions),
        ..counted
    });
    let plain = writes_after == w && counters_after == counted;
    if compaction_due(config, w) {
        compacted || (!reliable && plain)
    } else {
        plain
    }
}

/// Whether it is told right whether the compaction that a write brought about failed:
/// one was due, and none is counted.
pub open spec fn failure_told(
    config: DatabaseConfig,
    writes_before: usize,
    counted: DatabaseMetrics,
    counters_after: DatabaseMetrics,
    error: Option<GraphErrorView>,
) -> bool {
    error is Some <==> compaction_due(config, one_more(writes_before)) && counters_after == counted
}

impl<S: StoragePort, C: CachePort, E: GraphEnginePort> LayeredGraphDatabase<S, C, E> {
    /// Rewrites the storage with only what is live, and empties the cache. The
    /// graph stays the same.
    pub fn compact(&mut self) -> (r: Result<(), GraphError>)
        requires
            old(self).well_formed(),
        ensures
            final(self).well_formed(),
            final(self).marks() == old(self).marks(),
            final(self).reliable() == old(self).reliable(),
            final(self).structure() == old(self).structure(),
            final(self).labels() == old(self).labels(),
            final(self).fields() == old(self).fields(),
            final(self).next_node() == old(self).next_node(),
            final(self).next_edge() == old(self).next_edge(),
            final(self).settings() == old(self).settings(),
            final(self).slow() == old(self).slow(),
            final(self).graph() == old(self).graph(),
            final(self).compaction_error() == old(self).compaction_error(),
            old(self).reliable() ==> r is Ok,
            old(self).coherent() ==> final(self).coherent(),
            match r {
                Ok(_) => {
                    &&& final(self).stored() == old(self).stored().rollback()
                    &&& final(self).storage_compacted()
                    &&& final(self).cache_empty()
                    &&& final(self).writes() == 0
                    &&& final(self).counters() == (DatabaseMetrics {
                        compactions: next(old(self).counters().compactions),
                        ..old(self).counters()
                    })
                },
                Err(_) => {
                    &&& final(self).writes() == old(self).writes()
                    &&& final(self).counters() == old(self).counters()
                    &&& final(self).cache_layer() == old(self).cache_layer()
                    &&& final(self).cached_nodes() == old(self).cached_nodes()
                    &&& final(self).cached_edges() == old(self).cached_edges()
                    &&& final(self).stored() == old(self).stored() || final(self).stored() == old(
                        self,
                    ).stored().rollback()
                },
            },
    {
        match self.storage.compact() {
            Err(e) => {
                return Err(e);
            },
            Ok(_) => {},
        }
        self.cache.clear();
        count(&mut self.metrics.compactions);
        self.writes_since_compact = 0;
        Ok(())
    }

    /// Counts a write and compacts the storage where that is due.
    fn on_write(&mut self)
        requires
            old(self).well_formed(),
        ensures
            final(self).well_formed(),
            final(self).marks() == old(self).marks(),
            final(self).reliable() == old(self).reliable(),
            final(self).structure() == old(self).structure(),
            final(self).labels() == old(self).labels(),
            final(self).fields() == old(self).fields(),
            final(self).next_node() == old(self).next_node(),
            final(self).next_edge() == old(self).next_edge(),
            final(self).settings() == old(self).settings(),
            final(self).slow() == old(self).slow(),
            final(self).graph() == old(self).graph(),
            old(self).coherent() ==> final(self).coherent(),
            final(self).cache_layer() == old(self).cache_layer() || compaction_due(
                old(self).settings(),
                one_more(old(self).writes()),
            ) && final(self).cache_empty(),
            write_counted(
                old(self).settings(),
                old(self).reliable(),
                old(self).writes(),
                old(self).counters(),
                final(self).writes(),
                final(self).counters(),
            ),
            failure_told(
                old(self).settings(),
                old(self).writes(),
                old(self).counters(),
                final(self).counters(),
                final(self).compaction_error(),
            ),
    {
        self.writes_since_compact = self.writes_since_compact.wrapping_add(1);
        self.compaction_failure = None;
        match self.config.auto_compact_after_writes {
            Some(threshold) => {
                if self.writes_since_compact >= threshold {
                    match self.compact() {
                        Ok(_) => {},
                        Err(e) => {
                            self.compaction_failure = Some(e);
                        },
                    }
                }
            },
            None => {},
        }
    }

    /// The error of the compaction that the last write brought about, if it failed. The
    /// write itself has succeeded all the same.
    pub fn last_compaction_error(&self) -> (r: Option<&GraphError>)
        ensures
            match r {
                Some(e) => self.compaction_error() == Some(e@),
                None => self.compaction_error() is None,
            },
    {
        match &self.compaction_failure {
            Some(e) => Some(e),
            None => None,
        }
    }

    /// Inserts a node and gives its identifier. An identifier must be left, and
    /// the texts must not be too long to be stored.
    pub fn insert_node(&mut self, label: String, properties: StringMap<Value>) -> (r: Result<
        NodeId,
        GraphError,
    >)
        requires
            old(self).well_formed(),
            old(self).next_node() < u64::MAX,
            short_text(label@),
            storable_properties(properties@),
        ensures
            final(self).well_formed(),
            final(self).marks() == old(self).marks(),
            final(self).reliable() == old(self).reliable(),
            final(self).settings() == old(self).settings(),
            final(self).slow() == old(self).slow(),
            final(self).next_node() == old(self).next_node() + 1,
            final(self).next_edge() == old(self).next_edge(),
            old(self).reliable() ==> r is Ok,
            match r {
                Ok(id) => {
                    let node = NodeView { id, label: label@, properties: properties@ };
                    &&& id == NodeId(old(self).next_node())
                    &&& final(self).structure() == old(self).structure().insert_node(id)
                    &&& final(self).offered_node(old(self), node) || compaction_due(
                        old(self).settings(),
                        one_more(old(self).writes()),
                    ) && final(self).cache_empty()
                    &&& old(self).coherent() ==> final(self).coherent() && final(self).graph()
                        == old(self).graph().insert_node(node)
                    &&& write_counted(
                        old(self).settings(),
                        old(self).reliable(),
                        old(self).writes(),
                        DatabaseMetrics {
                            nodes_inserted: next(old(self).counters().nodes_inserted),
                            ..old(self).counters()
                        },
                        final(self).writes(),
                        final(self).counters(),
                    )
                    &&& failure_told(
                        old(self).settings(),
                        old(self).writes(),
                        DatabaseMetrics {
                            nodes_inserted: next(old(self).counters().nodes_inserted),
                            ..old(self).counters()
                        },
                        final(self).counters(),
                        final(self).compaction_error(),
                    )
                },
                Err(_) => {
                    let node = NodeView {
                        id: NodeId(old(self).next_node()),
                        label: label@,
                        properties: properties@,
                    };
                    &&& final(self).same_memory(old(self))
                    &&& final(self).writes() == old(self).writes()
                    &&& final(self).counters() == old(self).counters()
                    &&& final(self).compaction_error() == old(self).compaction_error()
                    &&& final(self).stored() == old(self).stored() || final(self).stored() == old(
                        self,
                    ).stored().save_node(node)
                },
            },
    {
        let id = self.id_generator.next_node_id();
        let node = Node { id, label, properties };
        let ghost view = node@;
        let ghost g = old(self).graph();
        match self.storage.save_node(&node) {
            Err(e) => {
                return Err(e);
            },
            Ok(_) => {},
        }
        let ghost earlier = self.cache;
        let ghost saved = *self;
        self.enter_node(node);
        assert(self.offered_node(old(self), view)) by {
            assert(self.cache_layer().took_node(&earlier, view));
        }
        count(&mut self.metrics.nodes_inserted);
        proof {
            if old(self).coherent() {
                assert(saved.agrees(g));
                assert(!g.nodes.contains_key(id));
                lemma_settled_save_node(old(self).stored(), view);
                assert(self.graph() == g.insert_node(view));
                assert(self.coherent());
            }
        }
        self.on_write();
        Ok(id)
    }

    /// Takes a node with the edges that leave or enter it out of every layer, out of
    /// the storage first.
    fn drop_node(&mut self, id: NodeId) -> (r: Result<(), GraphError>)
        requires
            old(self).well_formed(),
        ensures
            final(self).well_formed(),
            final(self).marks() == old(self).marks(),
            final(self).reliable() == old(self).reliable(),
            final(self).settings() == old(self).settings(),
            final(self).slow() == old(self).slow(),
            final(self).next_node() == old(self).next_node(),
            final(self).next_edge() == old(self).next_edge(),
            final(self).writes() == old(self).writes(),
            same_but_cache(final(self).counters(), old(self).counters()),
            final(self).compaction_error() == old(self).compaction_error(),
            old(self).reliable() ==> r is Ok,
            match r {
                Ok(_) => {
                    &&& final(self).structure() == old(self).structure().remove_node(id)
                    &&& final(self).cache_left(old(self), id)
                    &&& final(self).counters() == node_read(
                        old(self).counters(),
                        old(self).cached_nodes().contains_key(id),
                    )
                    &&& old(self).coherent() ==> final(self).coherent() && final(self).graph()
                        == old(self).graph().delete_node(id)
                },
                Err(_) => {
                    &&& final(self).structure() == old(self).structure()
                    &&& final(self).labels() == old(self).labels()
                    &&& final(self).fields() == old(self).fields()
                    &&& within(final(self).cached_edges(), old(self).cached_edges())
                    &&& final(self).cached_nodes() == old(self).cached_nodes() || old(
                        self,
                    ).stored().nodes.contains_key(id) && within_insert(
                        final(self).cached_nodes(),
                        old(self).cached_nodes(),
                        id,
                        old(self).stored().nodes[id],
                    )
                    &&& deletion_begun(
                        old(self).stored(),
                        final(self).stored(),
                        id,
                        incident_edges(old(self).structure(), id),
                    )
                },
            },
    {
        let ghost g = old(self).graph();
        let ghost st = old(self).stored();
        let incident = self.incident(id);
        match self.forget_edges(&incident) {
            Err(e) => {
                return Err(e);
            },
            Ok(_) => {},
        }
        proof {
            lemma_delete_each(st, incident@);
            assert(incident@.take(incident@.len() as int) =~= incident@);
            assert(deletes_some(st, self.stored(), incident@)) by {
                assert(self.stored() == delete_each(st, incident@.take(incident@.len() as int)));
            }
        }
        let ghost mid = *self;
        let node = match self.get_node(id) {
            Ok(o) => o,
            Err(e) => {
                return Err(e);
            },
        };
        let ghost seen = *self;
        match self.storage.delete_node(id) {
            Err(e) => {
                return Err(e);
            },
            Ok(_) => {},
        }
        let ghost read = *self;
        assert(read.cached_nodes() == seen.cached_nodes());
        self.leave_node(id, &node);
        proof {
            self.lemma_cache_left(old(self), &mid, &seen, id);
            assert(self.cached_edges() =~= old(self).cached_edges().remove_keys(
                incident@.to_set(),
            ));
            if old(self).coherent() {
                assert(read.agrees(g)) by {
                    assert(old(self).agrees(g));
                    assert(within(read.cached_nodes(), g.nodes)) by {
                        assert forall|j: NodeId| #[trigger]
                            read.cached_nodes().contains_key(j) implies g.nodes.contains_key(j)
                            && read.cached_nodes()[j] == g.nodes[j] by {
                            assert(seen.cached_nodes().contains_key(j));
                            if mid.cached_nodes().contains_key(j) && read.cached_nodes()[j]
                                == mid.cached_nodes()[j] {
                                assert(old(self).cached_nodes().contains_key(j));
                            } else {
                                assert(mid.stored().nodes == st.nodes);
                            }
                        }
                    }
                }
                assert(known_right(node, g, id)) by {
                    if mid.cached_nodes().contains_key(id) {
                        assert(old(self).cached_nodes().contains_key(id));
                    }
                }
                assert(self.agrees(g.delete_node(id)));
                lemma_incident_lists(g, old(self).structure(), id);
                lemma_settled_delete_node(mid.stored(), id);
                assert(settled(self.stored()).edges =~= g.delete_node(id).edges);
                assert(settled(self.stored()).nodes =~= g.delete_node(id).nodes);
                assert(self.graph() == g.delete_node(id));
                assert(self.coherent());
            }
        }
        Ok(())
    }

    proof fn lemma_cache_left(&self, before: &Self, mid: &Self, seen: &Self, id: NodeId)
        requires
            mid.cached_nodes() == before.cached_nodes(),
            mid.stored().nodes == before.stored().nodes,
            match stored_node(mid.stored(), id) {
                Some(n) => if mid.cached_nodes().contains_key(id) {
                    seen.cached_nodes() == mid.cached_nodes()
                } else {
                    seen.offered_node(mid, n)
                },
                None => seen.cached_nodes() == mid.cached_nodes(),
            },
            self.cached_nodes() == seen.cached_nodes().remove(id),
        ensures
            left_node(
                before.cache_layer(),
                self.cache_layer(),
                id,
                stored_node(before.stored(), id),
            ),
    {
        if let Some(n) = stored_node(mid.stored(), id) {
            if !mid.cached_nodes().contains_key(id) {
                let a = choose|c: C|
                    {
                        &&& #[trigger] seen.cache_layer().took_node(&c, n)
                        &&& c.valid()
                        &&& c.nodes() == mid.cached_nodes()
                        &&& c.edges() == mid.cached_edges()
                    };
                assert(seen.cache_layer().took_node(&a, n));
            }
        }
    }

    /// Deletes a node and the edges that leave or enter it. A node that is not
    /// there is no error.
    pub fn delete_node(&mut self, id: NodeId) -> (r: Result<(), GraphError>)
        requires
            old(self).well_formed(),
        ensures
            final(self).well_formed(),
            final(self).marks() == old(self).marks(),
            final(self).reliable() == old(self).reliable(),
            final(self).settings() == old(self).settings(),
            final(self).slow() == old(self).slow(),
            final(self).next_node() == old(self).next_node(),
            final(self).next_edge() == old(self).next_edge(),
            old(self).reliable() ==> r is Ok,
            match r {
                Ok(_) => {
                    &&& final(self).structure() == old(self).structure().remove_node(id)
                    &&& final(self).cache_left(old(self), id) || compaction_due(
                        old(self).settings(),
                        one_more(old(self).writes()),
                    ) && final(self).cache_empty()
                    &&& old(self).coherent() ==> final(self).coherent() && final(self).graph()
                        == old(self).graph().delete_node(id)
                    &&& write_counted(
                        old(self).settings(),
                        old(self).reliable(),
                        old(self).writes(),
                        DatabaseMetrics {
                            nodes_deleted: next(old(self).counters().nodes_deleted),
                            ..node_read(
                                old(self).counters(),
                                old(self).cached_nodes().contains_key(id),
                            )
                        },
                        final(self).writes(),
                        final(self).counters(),
                    )
                    &&& failure_told(
                        old(self).settings(),
                        old(self).writes(),
                        DatabaseMetrics {
                            nodes_deleted: next(old(self).counters().nodes_deleted),
                            ..node_read(
                                old(self).counters(),
                                old(self).cached_nodes().contains_key(id),
                            )
                        },
                        final(self).counters(),
                        final(self).compaction_error(),
                    )
                },
                Err(_) => {
                    &&& final(self).writes() == old(self).writes()
                    &&& same_but_cache(final(self).counters(), old(self).counters())
                    &&& final(self).compaction_error() == old(self).compaction_error()
                    &&& final(self).structure() == old(self).structure()
                    &&& final(self).labels() == old(self).labels()
                    &&& final(self).fields() == old(self).fields()
                    &&& within(final(self).cached_edges(), old(self).cached_edges())
                    &&& final(self).cached_nodes() == old(self).cached_nodes() || old(
                        self,
                    ).stored().nodes.contains_key(id) && within_insert(
                        final(self).cached_nodes(),
                        old(self).cached_nodes(),
                        id,
                        old(self).stored().nodes[id],
                    )
                    &&& deletion_begun(
                        old(self).stored(),
                        final(self).stored(),
                        id,
                        incident_edges(old(self).structure(), id),
                    )
                },
            },
    {
        match self.drop_node(id) {
            Err(e) => {
                return Err(e);
            },
            Ok(_) => {},
        }
        count(&mut self.metrics.nodes_deleted);
        self.on_write();
        Ok(())
    }

    /// Inserts an edge between two nodes and gives its identifier. A node that is
    /// not there is an error.
    pub fn insert_edge(
        &mut self,
        source: NodeId,
        target: NodeId,
        label: String,
        weight: Float64,
        properties: StringMap<Value>,
    ) -> (r: Result<EdgeId, GraphError>)
        requires
            old(self).well_formed(),
            old(self).next_edge() < u64::MAX,
            short_text(label@),
            storable_properties(properties@),
        ensures
            final(self).well_formed(),
            final(self).marks() == old(self).marks(),
            final(self).reliable() == old(self).reliable(),
            final(self).settings() == old(self).settings(),
            final(self).slow() == old(self).slow(),
            final(self).next_node() == old(self).next_node(),
            !old(self).structure().outgoing.contains_key(source) ==> (match r {
                Err(e) => e@ == GraphErrorView::NodeNotFound(source),
                Ok(_) => false,
            }),
            old(self).structure().outgoing.contains_key(source) && !old(
                self,
            ).structure().outgoing.contains_key(target) ==> (match r {
                Err(e) => e@ == GraphErrorView::NodeNotFound(target),
                Ok(_) => false,
            }),
            !old(self).structure().outgoing.contains_key(source) || !old(
                self,
            ).structure().outgoing.contains_key(target) ==> *final(self) == *old(self),
            old(self).structure().outgoing.contains_key(source) && old(
                self,
            ).structure().outgoing.contains_key(target) ==> {
                &&& final(self).next_edge() == old(self).next_edge() + 1
                &&& old(self).reliable() ==> r is Ok
            },
            match r {
                Ok(id) => {
                    let edge = EdgeView {
                        id,
                        source,
                        target,
                        label: label@,
                        weight,
                        properties: properties@,
                    };
                    &&& id == EdgeId(old(self).next_edge())
                    &&& final(self).structure() == old(self).structure().insert_edge(
                        id,
                        source,
                        target,
                        weight,
                    )
                    &&& final(self).offered_edge(old(self), edge) || compaction_due(
                        old(self).settings(),
                        one_more(old(self).writes()),
                    ) && final(self).cache_empty()
                    &&& old(self).coherent() ==> final(self).coherent() && final(self).graph()
                        == old(self).graph().insert_edge(edge)
                    &&& write_counted(
                        old(self).settings(),
                        old(self).reliable(),
                        old(self).writes(),
                        DatabaseMetrics {
                            edges_inserted: next(old(self).counters().edges_inserted),
                            ..old(self).counters()
                        },
                        final(self).writes(),
                        final(self).counters(),
                    )
                    &&& failure_told(
                        old(self).settings(),
                        old(self).writes(),
                        DatabaseMetrics {
                            edges_inserted: next(old(self).counters().edges_inserted),
                            ..old(self).counters()
                        },
                        final(self).counters(),
                        final(self).compaction_error(),
                    )
                },
                Err(_) => {
                    let edge = EdgeView {
                        id: EdgeId(old(self).next_edge()),
                        source,
                        target,
                        label: label@,
                        weight,
                        properties: properties@,
                    };
                    &&& final(self).same_memory(old(self))
                    &&& final(self).writes() == old(self).writes()
                    &&& final(self).counters() == old(self).counters()
                    &&& final(self).compaction_error() == old(self).compaction_error()
                    &&& final(self).stored() == old(self).stored() || final(self).stored() == old(
                        self,
                    ).stored().save_edge(edge)
                },
            },
    {
        if !self.engine.contains_node(source) {
            return Err(GraphError::NodeNotFound(source));
        }
        if !self.engine.contains_node(target) {
            return Err(GraphError::NodeNotFound(target));
        }
        let id = self.id_generator.next_edge_id();
        let edge = Edge { id, source, target, label, weight, properties };
        let ghost view = edge@;
        let ghost g = old(self).graph();
        match self.storage.save_edge(&edge) {
            Err(e) => {
                return Err(e);
            },
            Ok(_) => {},
        }
        let ghost earlier = self.cache;
        let ghost saved = *self;
        self.enter_edge(edge);
        assert(self.offered_edge(old(self), view)) by {
            assert(self.cache_layer().took_edge(&earlier, view));
        }
        count(&mut self.metrics.edges_inserted);
        proof {
            if old(self).coherent() {
                assert(saved.agrees(g));
                assert(!g.edges.contains_key(id));
                assert(g.nodes.dom().contains(source) && g.nodes.dom().contains(target));
                lemma_settled_save_edge(old(self).stored(), view);
                assert(self.graph() == g.insert_edge(view));
                assert(self.coherent());
            }
        }
        self.on_write();
        Ok(id)
    }

    /// Deletes an edge. An edge that is not there is no error.
    pub fn delete_edge(&mut self, id: EdgeId) -> (r: Result<(), GraphError>)
        requires
            old(self).well_formed(),
        ensures
            final(self).well_formed(),
            final(self).marks() == old(self).marks(),
            final(self).reliable() == old(self).reliable(),
            final(self).settings() == old(self).settings(),
            final(self).slow() == old(self).slow(),
            final(self).next_node() == old(self).next_node(),
            final(self).next_edge() == old(self).next_edge(),
            old(self).reliable() ==> r is Ok,
            match r {
                Ok(_) => {
                    &&& final(self).structure() == old(self).structure().remove_edges(set![id])
                    &&& final(self).cached_nodes() == old(self).cached_nodes() && final(
                        self).cached_edges() == old(self).cached_edges().remove(id)
                        || compaction_due(old(self).settings(), one_more(old(self).writes()))
                        && final(self).cache_empty()
                    &&& old(self).coherent() ==> final(self).coherent() && final(self).graph()
                        == old(self).graph().delete_edge(id)
                    &&& write_counted(
                        old(self).settings(),
                        old(self).reliable(),
                        old(self).writes(),
                        DatabaseMetrics {
                            edges_deleted: next(old(self).counters().edges_deleted),
                            ..old(self).counters()
                        },
                        final(self).writes(),
                        final(self).counters(),
                    )
                    &&& failure_told(
                        old(self).settings(),
                        old(self).writes(),
                        DatabaseMetrics {
                            edges_deleted: next(old(self).counters().edges_deleted),
                            ..old(self).counters()
                        },
                        final(self).counters(),
                        final(self).compaction_error(),
                    )
                },
                Err(_) => {
                    &&& final(self).same_memory(old(self))
                    &&& final(self).writes() == old(self).writes()
                    &&& final(self).counters() == old(self).counters()
                    &&& final(self).compaction_error() == old(self).compaction_error()
                    &&& final(self).stored() == old(self).stored() || final(self).stored() == old(
                        self,
                    ).stored().delete_edge(id)
                },
            },
    {
        let ghost g = old(self).graph();
        match self.storage.delete_edge(id) {
            Err(e) => {
                return Err(e);
            },
            Ok(_) => {},
        }
        let ghost saved = *self;
        self.leave_edge(id);
        count(&mut self.metrics.edges_deleted);
        proof {
            if old(self).coherent() {
                assert(saved.agrees(g));
                lemma_settled_delete_edge(old(self).stored(), id);
                assert(self.graph() == g.delete_edge(id));
                assert(self.coherent());
            }
        }
        self.on_write();
        Ok(())
    }
}

impl<S: StoragePort, E: GraphEnginePort> LayeredGraphDatabase<S, LruCache, E> {
    /// With a cache that lets go of what was used least recently, what was offered last
    /// is in the cache: a node or edge that was just inserted, or read for the first
    /// time, is served from there.
    pub proof fn law_offered_is_cached(&self, before: &Self, n: NodeView, e: EdgeView)
        ensures
            self.offered_node(before, n) ==> self.cached_nodes().contains_key(n.id)
                && self.cached_nodes()[n.id] == n,
            self.offered_edge(before, e) ==> self.cached_edges().contains_key(e.id)
                && self.cached_edges()[e.id] == e,
    {
        if self.offered_node(before, n) {
            let c = choose|c: LruCache|
                {
                    &&& #[trigger] self.cache_layer().took_node(&c, n)
                    &&& c.valid()
                    &&& c.nodes() == before.cached_nodes()
                    &&& c.edges() == before.cached_edges()
                };
            self.cache_layer().law_holds_what_it_took(&c, n, e);
        }
        if self.offered_edge(before, e) {
            let c = choose|c: LruCache|
                {
                    &&& #[trigger] self.cache_layer().took_edge(&c, e)
                    &&& c.valid()
                    &&& c.nodes() == before.cached_nodes()
                    &&& c.edges() == before.cached_edges()
                };
            self.cache_layer().law_holds_what_it_took(&c, n, e);
        }
    }
}

/// Labels depend on the nodes alone.
proof fn lemma_same_nodes_labels(
    g: GraphView,
    h: GraphView,
    labels: Map<Seq<char>, Seq<NodeId>>,
)
    requires
        labels_match(g, labels),
        g.nodes == h.nodes,
    ensures
        labels_match(h, labels),
{
    assert forall|l: Seq<char>, id: NodeId| #[trigger]
        label_bucket(labels, l).contains(id) <==> h.nodes.contains_key(id) && h.nodes[id].label
            == l by {
        assert(label_bucket(labels, l).contains(id) <==> g.nodes.contains_key(id)
            && g.nodes[id].label == l);
    }
}

/// Indexed properties depend on the nodes alone.
proof fn lemma_same_nodes_props(
    g: GraphView,
    h: GraphView,
    props: Map<Seq<char>, FieldView>,
    cfg: NodeFieldIndexing,
)
    requires
        props_match(g, props, cfg),
        g.nodes == h.nodes,
    ensures
        props_match(h, props, cfg),
{
    assert forall|f: Seq<char>, v: ValueView, id: NodeId| #[trigger]
        crate::adapters::index::property_index::field_of(props, f).holders(v).contains(id)
            <==> crate::database::coherence::has_indexed(h, cfg, f, v, id) by {
        assert(crate::adapters::index::property_index::field_of(props, f).holders(v).contains(id)
            <==> crate::database::coherence::has_indexed(g, cfg, f, v, id));
    }
}

} // verus!
