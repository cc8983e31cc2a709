//! Opening a database on a storage that may already hold a graph.

use crate::adapters::index::label_index::LabelIndex;
use crate::adapters::index::property_index::PropertyIndex;
use crate::database::coherence::{
    engine_matches, labels_match, lemma_engine_insert_edge, lemma_engine_insert_node,
    lemma_labels_insert, lemma_props_insert, props_match, GraphView,
};
use crate::database::config::DatabaseConfig;
use crate::database::layered::{
    lemma_same_nodes_labels, lemma_same_nodes_props, sound, within, LayeredGraphDatabase,
};
use crate::database::metrics::{no_counts, DatabaseMetrics};
use crate::database::settling::stored_graph;
use crate::model::edge::{Edge, EdgeView};
use crate::model::edge_id::EdgeId;
use crate::model::error::GraphError;
use crate::model::id_generator::IdGenerator;
use crate::model::node::{Node, NodeView};
use crate::model::node_id::NodeId;
use crate::ports::cache::CachePort;
use crate::ports::engine::{EngineView, GraphEnginePort};
use crate::ports::storage::{
    insert_edges, insert_nodes, lists_edges, lists_nodes, StoragePort, StorageView,
};
use vstd::prelude::*;

verus! {

/// Whether a counter is the first number above those of some nodes.
pub open spec fn first_above_nodes(next: u64, nodes: Map<NodeId, NodeView>) -> bool {
    &&& forall|id: NodeId| #[trigger] nodes.contains_key(id) ==> id.0 < next
    &&& next > 0 ==> nodes.contains_key(NodeId((next - 1) as u64))
}

/// Whether a counter is the first number above those of some edges.
pub open spec fn first_above_edges(next: u64, edges: Map<EdgeId, EdgeView>) -> bool {
    &&& forall|id: EdgeId| #[trigger] edges.contains_key(id) ==> id.0 < next
    &&& next > 0 ==> edges.contains_key(EdgeId((next - 1) as u64))
}

/// Whether every number of a node or an edge leaves room for a next one.
pub open spec fn numbers_leave_room(st: StorageView) -> bool {
    &&& forall|id: NodeId| #[trigger] st.nodes.contains_key(id) ==> id.0 < u64::MAX
    &&& forall|id: EdgeId| #[trigger] st.edges.contains_key(id) ==> id.0 < u64::MAX
}

/// Nodes in terms of their contents.
spec fn node_views(s: Seq<Node>) -> Seq<NodeView> {
    s.map_values(|n: Node| n@)
}

/// Edges in terms of their contents.
spec fn edge_views(s: Seq<Edge>) -> Seq<EdgeView> {
    s.map_values(|e: Edge| e@)
}

spec fn nodes_among(s: Seq<Node>) -> Map<NodeId, NodeView> {
    insert_nodes(Map::empty(), node_views(s))
}

spec fn edges_among(s: Seq<Edge>) -> Map<EdgeId, EdgeView> {
    insert_edges(Map::empty(), edge_views(s))
}

proof fn lemma_nodes_push(s: Seq<Node>, i: int)
    requires
        0 <= i < s.len(),
    ensures
        nodes_among(s.take(i + 1)) == nodes_among(s.take(i)).insert(s[i].id, s[i]@),
        i == 0 ==> nodes_among(s.take(i)) == Map::<NodeId, NodeView>::empty(),
{
    let t = node_views(s.take(i + 1));
    assert(t.drop_last() =~= node_views(s.take(i)));
    assert(t.last() == s[i]@);
}

proof fn lemma_edges_push(s: Seq<Edge>, i: int)
    requires
        0 <= i < s.len(),
    ensures
        edges_among(s.take(i + 1)) == edges_among(s.take(i)).insert(s[i].id, s[i]@),
{
    let t = edge_views(s.take(i + 1));
    assert(t.drop_last() =~= edge_views(s.take(i)));
    assert(t.last() == s[i]@);
}

proof fn lemma_nodes_taken(s: Seq<Node>, m: Map<NodeId, NodeView>, n: int)
    requires
        lists_nodes(s, m),
        0 <= n <= s.len(),
    ensures
        forall|id: NodeId| #[trigger]
            nodes_among(s.take(n)).contains_key(id) <==> exists|i: int|
                0 <= i < n && (#[trigger] s[i]).id == id,
        within(nodes_among(s.take(n)), m),
        n == s.len() ==> nodes_among(s.take(n)) == m,
    decreases n,
{
    if n == 0 {
        assert(node_views(s.take(0)) =~= Seq::empty());
    } else {
        lemma_nodes_taken(s, m, n - 1);
        lemma_nodes_push(s, n - 1);
        assert forall|id: NodeId| #[trigger]
            nodes_among(s.take(n)).contains_key(id) <==> exists|i: int|
                0 <= i < n && (#[trigger] s[i]).id == id by {
            if nodes_among(s.take(n)).contains_key(id) {
                if id == s[n - 1].id {
                    assert(0 <= n - 1 < n && s[n - 1].id == id);
                } else {
                    assert(nodes_among(s.take(n - 1)).contains_key(id));
                    let i = choose|i: int| 0 <= i < n - 1 && (#[trigger] s[i]).id == id;
                    assert(0 <= i < n && s[i].id == id);
                }
            }
            if exists|i: int| 0 <= i < n && (#[trigger] s[i]).id == id {
                let i = choose|i: int| 0 <= i < n && (#[trigger] s[i]).id == id;
                if i < n - 1 {
                    assert(nodes_among(s.take(n - 1)).contains_key(id));
                }
            }
        }
    }
    if n == s.len() {
        assert(nodes_among(s.take(n)) =~= m);
    }
}

proof fn lemma_edges_taken(s: Seq<Edge>, m: Map<EdgeId, EdgeView>, n: int)
    requires
        lists_edges(s, m),
        0 <= n <= s.len(),
    ensures
        forall|id: EdgeId| #[trigger]
            edges_among(s.take(n)).contains_key(id) <==> exists|i: int|
                0 <= i < n && (#[trigger] s[i]).id == id,
        within(edges_among(s.take(n)), m),
        n == s.len() ==> edges_among(s.take(n)) == m,
    decreases n,
{
    if n == 0 {
        assert(edge_views(s.take(0)) =~= Seq::empty());
    } else {
        lemma_edges_taken(s, m, n - 1);
        lemma_edges_push(s, n - 1);
        assert forall|id: EdgeId| #[trigger]
            edges_among(s.take(n)).contains_key(id) <==> exists|i: int|
                0 <= i < n && (#[trigger] s[i]).id == id by {
            if edges_among(s.take(n)).contains_key(id) {
                if id == s[n - 1].id {
                    assert(0 <= n - 1 < n && s[n - 1].id == id);
                } else {
                    assert(edges_among(s.take(n - 1)).contains_key(id));
                    let i = choose|i: int| 0 <= i < n - 1 && (#[trigger] s[i]).id == id;
                    assert(0 <= i < n && s[i].id == id);
                }
            }
            if exists|i: int| 0 <= i < n && (#[trigger] s[i]).id == id {
                let i = choose|i: int| 0 <= i < n && (#[trigger] s[i]).id == id;
                if i < n - 1 {
                    assert(edges_among(s.take(n - 1)).contains_key(id));
                }
            }
        }
    }
    if n == s.len() {
        assert(edges_among(s.take(n)) =~= m);
    }
}

impl<S: StoragePort, C: CachePort, E: GraphEnginePort> LayeredGraphDatabase<S, C, E> {
    /// Whether engine and indexes hold a graph.
    pub open spec fn indexed(&self, g: GraphView) -> bool {
        &&& engine_matches(g, self.structure())
        &&& labels_match(g, self.labels())
        &&& props_match(g, self.fields(), self.settings().indexed_node_fields)
    }

    /// Whether nothing but engine, indexes and counters of identifiers differs.
    spec fn same_base(&self, other: &Self) -> bool {
        &&& self.stored() == other.stored()
        &&& self.storage_size() == other.storage_size()
        &&& self.marks() == other.marks()
        &&& self.reliable() == other.reliable()
        &&& self.settings() == other.settings()
        &&& self.counters() == other.counters()
        &&& self.writes() == other.writes()
        &&& self.compaction_error() == other.compaction_error()
        &&& self.cached_nodes() == other.cached_nodes()
        &&& self.cached_edges() == other.cached_edges()
    }

    /// Enters stored nodes in engine and indexes.
    fn restore_nodes(&mut self, nodes: &Vec<Node>)
        requires
            old(self).well_formed(),
            lists_nodes(nodes@, old(self).stored().nodes),
            numbers_leave_room(old(self).stored()),
            old(self).next_node() == 0,
        ensures
            final(self).well_formed(),
            final(self).same_base(old(self)),
            final(self).next_edge() == old(self).next_edge(),
            first_above_nodes(final(self).next_node(), old(self).stored().nodes),
            old(self).indexed(GraphView { nodes: Map::empty(), edges: Map::empty() })
                ==> final(self).indexed(
                GraphView { nodes: old(self).stored().nodes, edges: Map::empty() },
            ),
    {
        let ghost all = old(self).stored().nodes;
        let ghost none = GraphView { nodes: Map::empty(), edges: Map::empty() };
        let mut i: usize = 0;
        proof {
            lemma_nodes_taken(nodes@, all, 0);
            assert(nodes_among(nodes@.take(0)) =~= Map::empty());
        }
        while i < nodes.len()
            invariant
                i <= nodes.len(),
                all == old(self).stored().nodes,
                none == (GraphView { nodes: Map::empty(), edges: Map::empty() }),
                lists_nodes(nodes@, all),
                numbers_leave_room(old(self).stored()),
                self.well_formed(),
                self.same_base(old(self)),
                self.next_edge() == old(self).next_edge(),
                first_above_nodes(self.next_node(), nodes_among(nodes@.take(i as int))),
                old(self).indexed(none) ==> self.indexed(
                    GraphView { nodes: nodes_among(nodes@.take(i as int)), edges: Map::empty() },
                ),
            decreases nodes.len() - i,
        {
            let ghost g = GraphView {
                nodes: nodes_among(nodes@.take(i as int)),
                edges: Map::empty(),
            };
            let ghost before = *self;
            let node = &nodes[i];
            proof {
                lemma_nodes_push(nodes@, i as int);
                lemma_nodes_taken(nodes@, all, i as int);
                assert(all.contains_key(node.id));
                assert(!g.nodes.contains_key(node.id)) by {
                    if g.nodes.contains_key(node.id) {
                        let j = choose|j: int|
                            0 <= j < i && (#[trigger] nodes@[j]).id == node.id;
                        assert(nodes@[j].id != nodes@[i as int].id);
                    }
                }
            }
            self.id_generator.seed_from_node(node.id);
            self.engine.insert_node(node.id);
            self.label_index.insert(node.id, node.label.as_str());
            let indexed = self.covered_properties(&node.properties);
            self.property_index.insert_node(node.id, &indexed);
            proof {
                if old(self).indexed(none) {
                    lemma_engine_insert_node(g, before.structure(), node@);
                    lemma_labels_insert(g, before.labels(), node@);
                    lemma_props_insert(
                        g,
                        before.fields(),
                        before.settings().indexed_node_fields,
                        node@,
                    );
                    assert(self.indexed(g.insert_node(node@)));
                }
                let next = self.next_node();
                assert(first_above_nodes(next, nodes_among(nodes@.take(i + 1)))) by {
                    if before.next_node() <= node.id.0 {
                        assert(NodeId((next - 1) as u64) == node.id);
                    }
                }
            }
            i += 1;
        }
        proof {
            lemma_nodes_taken(nodes@, all, i as int);
        }
    }

    /// Enters stored edges in the engine.
    fn restore_edges(&mut self, edges: &Vec<Edge>)
        requires
            old(self).well_formed(),
            lists_edges(edges@, old(self).stored().edges),
            numbers_leave_room(old(self).stored()),
            old(self).next_edge() == 0,
        ensures
            final(self).well_formed(),
            final(self).same_base(old(self)),
            final(self).next_node() == old(self).next_node(),
            first_above_edges(final(self).next_edge(), old(self).stored().edges),
            old(self).indexed(
                GraphView { nodes: old(self).stored().nodes, edges: Map::empty() },
            ) && sound(old(self).graph()) ==> final(self).indexed(old(self).graph()),
    {
        let ghost all = old(self).stored().edges;
        let ghost nodes = old(self).stored().nodes;
        let ghost g0 = GraphView { nodes, edges: Map::empty() };
        let mut i: usize = 0;
        proof {
            lemma_edges_taken(edges@, all, 0);
            assert(edges_among(edges@.take(0)) =~= Map::empty());
        }
        while i < edges.len()
            invariant
                i <= edges.len(),
                all == old(self).stored().edges,
                nodes == old(self).stored().nodes,
                g0 == (GraphView { nodes, edges: Map::empty() }),
                lists_edges(edges@, all),
                numbers_leave_room(old(self).stored()),
                self.well_formed(),
                self.same_base(old(self)),
                self.next_node() == old(self).next_node(),
                first_above_edges(self.next_edge(), edges_among(edges@.take(i as int))),
                old(self).indexed(g0) && sound(old(self).graph()) ==> self.indexed(
                    GraphView { nodes, edges: edges_among(edges@.take(i as int)) },
                ),
            decreases edges.len() - i,
        {
            let ghost g = GraphView { nodes, edges: edges_among(edges@.take(i as int)) };
            let ghost before = *self;
            let edge = &edges[i];
            proof {
                lemma_edges_push(edges@, i as int);
                lemma_edges_taken(edges@, all, i as int);
                assert(all.contains_key(edge.id));
                assert(!g.edges.contains_key(edge.id)) by {
                    if g.edges.contains_key(edge.id) {
                        let j = choose|j: int|
                            0 <= j < i && (#[trigger] edges@[j]).id == edge.id;
                        assert(edges@[j].id != edges@[i as int].id);
                    }
                }
            }
            self.id_generator.seed_from_edge(edge.id);
            self.engine.insert_edge(edge.id, edge.source, edge.target, edge.weight);
            proof {
                if old(self).indexed(g0) && sound(old(self).graph()) {
                    assert(old(self).graph().edges.contains_key(edge.id));
                    lemma_engine_insert_edge(g, before.structure(), edge@);
                    lemma_same_nodes_labels(g, g.insert_edge(edge@), self.labels());
                    lemma_same_nodes_props(
                        g,
                        g.insert_edge(edge@),
                        self.fields(),
                        self.settings().indexed_node_fields,
                    );
                    assert(self.indexed(g.insert_edge(edge@)));
                }
                let next = self.next_edge();
                assert(first_above_edges(next, edges_among(edges@.take(i + 1)))) by {
                    if before.next_edge() <= edge.id.0 {
                        assert(EdgeId((next - 1) as u64) == edge.id);
                    }
                }
            }
            i += 1;
        }
        proof {
            lemma_edges_taken(edges@, all, i as int);
        }
    }

    /// Opens a database with the default configuration. See `open_with_config`.
    pub fn open(storage: S, cache: C, engine: E) -> (r: Result<Self, GraphError>)
        requires
            storage.valid(),
            cache.valid(),
            numbers_leave_room(storage.state()),
        ensures
            storage.reliable() ==> r is Ok,
            r matches Ok(db) ==> {
                &&& db.settings() == (DatabaseConfig {
                    auto_compact_after_writes: Some(10_000),
                    max_full_scan_nodes: None,
                    slow_query_warn_ms: Some(100),
                    indexed_node_fields: crate::database::config::NodeFieldIndexing::All,
                })
                &&& db.freshly_opened(storage, cache, engine)
            },
    {
        Self::open_with_config(storage, cache, engine, DatabaseConfig::default())
    }

    /// Whether a database is as it is right after it was opened: all counts are
    /// zero, the next identifiers are the first above those in use, engine and
    /// indexes hold the stored graph if the engine was empty and no edge is without
    /// its nodes, and all layers agree if, besides, the storage has no open
    /// transaction and the cache held nothing else.
    pub open spec fn freshly_opened(&self, storage: S, cache: C, engine: E) -> bool {
        &&& self.well_formed()
        &&& self.stored() == storage.state()
        &&& self.storage_size() == storage.size()
        &&& self.marks() == storage.marks_transactions()
        &&& self.reliable() == storage.reliable()
        &&& self.cached_nodes() == cache.nodes()
        &&& self.cached_edges() == cache.edges()
        &&& self.counters() == no_counts()
        &&& self.writes() == 0
        &&& self.compaction_error() is None
        &&& first_above_nodes(self.next_node(), storage.state().nodes)
        &&& first_above_edges(self.next_edge(), storage.state().edges)
        &&& sound(stored_graph(storage.state())) && engine.graph() == EngineView::empty()
            ==> self.indexed(stored_graph(storage.state()))
        &&& {
            &&& storage.state().txn is None
            &&& sound(stored_graph(storage.state()))
            &&& engine.graph() == EngineView::empty()
            &&& within(cache.nodes(), storage.state().nodes)
            &&& within(cache.edges(), storage.state().edges)
        } ==> self.coherent()
    }

    /// Opens a database. Engine, indexes and counters of identifiers are rebuilt
    /// from what the storage holds.
    pub fn open_with_config(storage: S, cache: C, engine: E, config: DatabaseConfig) -> (r: Result<
        Self,
        GraphError,
    >)
        requires
            storage.valid(),
            cache.valid(),
            numbers_leave_room(storage.state()),
        ensures
            storage.reliable() ==> r is Ok,
            r matches Ok(db) ==> db.settings() == config && db.freshly_opened(
                storage,
                cache,
                engine,
            ),
    {
        let nodes = match storage.load_all_nodes() {
            Ok(v) => v,
            Err(e) => {
                return Err(e);
            },
        };
        let edges = match storage.load_all_edges() {
            Ok(v) => v,
            Err(e) => {
                return Err(e);
            },
        };
        let mut db = LayeredGraphDatabase {
            engine,
            cache,
            storage,
            label_index: LabelIndex::new(),
            property_index: PropertyIndex::new(),
            id_generator: IdGenerator::new(),
            config,
            metrics: DatabaseMetrics::new(),
            writes_since_compact: 0,
            slow_query_ms: None,
            compaction_failure: None,
        };
        proof {
            let none = GraphView { nodes: Map::empty(), edges: Map::empty() };
            if engine.graph() == EngineView::empty() {
                assert(engine_matches(none, db.structure()));
                assert(labels_match(none, db.labels()));
                assert(props_match(none, db.fields(), config.indexed_node_fields));
            }
        }
        db.restore_nodes(&nodes);
        db.restore_edges(&edges);
        Ok(db)
    }

    /// Closes the database and gives its storage back.
    pub fn into_storage(self) -> (r: S)
        requires
            self.well_formed(),
        ensures
            r.valid(),
            r.state() == self.stored(),
            r.size() == self.storage_size(),
            r.compacted() == self.storage_compacted(),
            r.marks_transactions() == self.marks(),
            r.reliable() == self.reliable(),
    {
        self.storage
    }
}

} // verus!
