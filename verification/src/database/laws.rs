//! What holds of the database as a whole.

use crate::adapters::storage::binary_log::BinaryLog;
use crate::adapters::storage::replay::{replay_all, ReplayView};
use crate::database::batch::{apply_ops, inserts_new, touches_edge, touches_node};
use crate::adapters::index::label_index::label_bucket;
use crate::database::coherence::{labels_match, GraphView};
use crate::database::layered::opening::{first_above_edges, first_above_nodes};
use crate::database::config::DatabaseConfig;
use crate::database::layered::{ids_below, sound, within, write_counted, LayeredGraphDatabase};
use crate::database::metrics::DatabaseMetrics;
use crate::database::settling::stored_graph;
use crate::model::edge::EdgeView;
use crate::model::edge_id::EdgeId;
use crate::model::node::NodeView;
use crate::model::node_id::NodeId;
use crate::ports::cache::CachePort;
use crate::ports::engine::{EngineView, GraphEnginePort};
use crate::ports::storage::{lists_nodes, StoragePort};
use crate::query::ast::NodeFilterView;
use crate::query::executor::{answers, passing};
use crate::query::plan_laws::law_plan_keeps_meaning;
use crate::query::planner::{plan_nodes, sum_of};
use crate::query::result::QueryResult;
use crate::transaction::OpView;
use vstd::arithmetic::div_mod::*;
use vstd::prelude::*;

verus! {

/// A log that ends inside a transaction, as a crash leaves it, or of which records are
/// damaged, holds on the next opening what can be read and was committed, and nothing of
/// the unfinished transaction: the database is coherent, and what is written next takes
/// effect.
pub proof fn law_unfinished_transaction_is_discarded<C: CachePort, E: GraphEnginePort>(
    bytes: Seq<u8>,
    read: ReplayView,
    log: BinaryLog,
    cache: C,
    engine: E,
    after: LayeredGraphDatabase<BinaryLog, C, E>,
)
    requires
        replay_all(bytes) == Ok::<ReplayView, Seq<char>>(read),
        log.state() == read.state.rollback(),
        sound(stored_graph(read.state)),
        cache.nodes() == Map::<NodeId, NodeView>::empty(),
        cache.edges() == Map::<EdgeId, EdgeView>::empty(),
        engine.graph() == EngineView::empty(),
        after.freshly_opened(log, cache, engine),
    ensures
        after.coherent(),
        after.graph() == stored_graph(read.state),
        forall|n: NodeView| #[trigger]
            after.stored().save_node(n).nodes == after.stored().nodes.insert(n.id, n),
        forall|e: EdgeView| #[trigger]
            after.stored().save_edge(e).edges == after.stored().edges.insert(e.id, e),
{
}

/// A database that is opened again on what another one stored holds the same
/// graph, whatever cache it is given, and hands out no identifier in use.
pub proof fn law_reopening_keeps_graph<
    S: StoragePort,
    C: CachePort,
    E: GraphEnginePort,
    S2: StoragePort,
    C2: CachePort,
    E2: GraphEnginePort,
>(
    before: LayeredGraphDatabase<S, C, E>,
    storage: S2,
    cache: C2,
    engine: E2,
    after: LayeredGraphDatabase<S2, C2, E2>,
)
    requires
        before.coherent(),
        storage.state() == before.stored(),
        cache.nodes() == Map::<NodeId, NodeView>::empty(),
        cache.edges() == Map::<EdgeId, EdgeView>::empty(),
        engine.graph() == EngineView::empty(),
        after.freshly_opened(storage, cache, engine),
    ensures
        after.coherent(),
        after.graph() == before.graph(),
        after.next_node() <= before.next_node(),
        after.next_edge() <= before.next_edge(),
        !after.graph().nodes.contains_key(NodeId(after.next_node())),
        !after.graph().edges.contains_key(EdgeId(after.next_edge())),
{
    assert(sound(before.graph()));
    assert(first_above_nodes(after.next_node(), before.graph().nodes));
    assert(first_above_edges(after.next_edge(), before.graph().edges));
}

/// In a database whose layers agree every edge connects nodes that are there, and
/// the cache holds nothing but what is stored.
pub proof fn law_no_dangling_edges<S: StoragePort, C: CachePort, E: GraphEnginePort>(
    db: LayeredGraphDatabase<S, C, E>,
    id: EdgeId,
)
    requires
        db.coherent(),
        db.graph().edges.contains_key(id),
    ensures
        db.graph().nodes.contains_key(db.graph().edges[id].source),
        db.graph().nodes.contains_key(db.graph().edges[id].target),
        within(db.cached_nodes(), db.stored().nodes),
        within(db.cached_edges(), db.stored().edges),
{
}

/// A node that was inserted is read back, and nothing else has changed.
pub proof fn law_inserted_node_is_read(g: GraphView, n: NodeView, other: NodeId)
    requires
        other != n.id,
    ensures
        g.insert_node(n).nodes.contains_key(n.id),
        g.insert_node(n).nodes[n.id] == n,
        g.insert_node(n).nodes.contains_key(other) == g.nodes.contains_key(other),
        g.nodes.contains_key(other) ==> g.insert_node(n).nodes[other] == g.nodes[other],
        g.insert_node(n).edges == g.edges,
{
}

/// An edge that was inserted is read back, and nothing else has changed.
pub proof fn law_inserted_edge_is_read(g: GraphView, e: EdgeView, other: EdgeId)
    requires
        other != e.id,
    ensures
        g.insert_edge(e).edges.contains_key(e.id),
        g.insert_edge(e).edges[e.id] == e,
        g.insert_edge(e).edges.contains_key(other) == g.edges.contains_key(other),
        g.edges.contains_key(other) ==> g.insert_edge(e).edges[other] == g.edges[other],
        g.insert_edge(e).nodes == g.nodes,
{
}

/// Deleting a node that was just inserted restores the graph.
pub proof fn law_delete_undoes_insert_node(g: GraphView, n: NodeView)
    requires
        sound(g),
        !g.nodes.contains_key(n.id),
    ensures
        g.insert_node(n).delete_node(n.id) == g,
{
    let h = g.insert_node(n);
    assert(h.incident(n.id) =~= Set::empty()) by {
        assert forall|e: EdgeId| !h.incident(n.id).contains(e) by {
            if g.edges.contains_key(e) {
                assert(g.nodes.contains_key(g.edges[e].source));
            }
        }
    }
    assert(h.delete_node(n.id).edges =~= g.edges);
    assert(h.delete_node(n.id).nodes =~= g.nodes);
}

/// Deleting an edge that was just inserted restores the graph.
pub proof fn law_delete_undoes_insert_edge(g: GraphView, e: EdgeView)
    requires
        !g.edges.contains_key(e.id),
    ensures
        g.insert_edge(e).delete_edge(e.id) == g,
{
    assert(g.insert_edge(e).delete_edge(e.id).edges =~= g.edges);
}

/// Deleting a second time changes nothing.
pub proof fn law_delete_is_idempotent(g: GraphView, id: NodeId, e: EdgeId)
    ensures
        g.delete_node(id).delete_node(id) == g.delete_node(id),
        g.delete_edge(e).delete_edge(e) == g.delete_edge(e),
{
    let h = g.delete_node(id);
    assert(h.delete_node(id).nodes =~= h.nodes);
    assert(h.delete_node(id).edges =~= h.edges) by {
        assert forall|x: EdgeId| #[trigger] h.edges.contains_key(x) implies !h.incident(
            id,
        ).contains(x) by {
            assert(!g.incident(id).contains(x));
        }
    }
    assert(g.delete_edge(e).delete_edge(e).edges =~= g.delete_edge(e).edges);
}

/// Changes that come in two transactions one after the other amount to the same
/// as all of them in one.
pub proof fn law_transactions_compose(g: GraphView, a: Seq<OpView>, b: Seq<OpView>)
    ensures
        apply_ops(g, a + b) == match apply_ops(g, a) {
            Ok(h) => apply_ops(h, b),
            Err(id) => Err::<GraphView, NodeId>(id),
        },
    decreases b.len(),
{
    if b.len() == 0 {
        assert(a + b =~= a);
    } else {
        law_transactions_compose(g, a, b.drop_last());
        assert((a + b).drop_last() =~= a + b.drop_last());
        assert((a + b).last() == b.last());
    }
}

/// A transaction keeps what every operation keeps: that each edge connects nodes
/// that are there.
pub proof fn law_transactions_keep_edges_attached(g: GraphView, ops: Seq<OpView>)
    requires
        sound(g),
        apply_ops(g, ops) is Ok,
    ensures
        sound(apply_ops(g, ops)->Ok_0),
    decreases ops.len(),
{
    if ops.len() > 0 {
        law_transactions_keep_edges_attached(g, ops.drop_last());
        let h = apply_ops(g, ops.drop_last())->Ok_0;
        let k = apply_ops(g, ops)->Ok_0;
        assert forall|id: EdgeId| #[trigger] k.edges.contains_key(id) implies k.nodes.contains_key(
            k.edges[id].source,
        ) && k.nodes.contains_key(k.edges[id].target) by {
            match ops.last() {
                OpView::InsertNode(_) => {
                    assert(h.edges.contains_key(id));
                },
                OpView::InsertEdge(e) => {
                    if id != e.id {
                        assert(h.edges.contains_key(id));
                    }
                },
                OpView::DeleteNode(n) => {
                    assert(h.edges.contains_key(id) && !h.incident(n).contains(id));
                },
                OpView::DeleteEdge(_) => {
                    assert(h.edges.contains_key(id));
                },
            }
        }
    }
}

/// Staging one more change keeps a transaction such that it inserts only what is
/// new, if the change deletes something, or inserts under a number that is
/// neither in use nor touched before.
pub proof fn law_staging_inserts_new(
    g: GraphView,
    next_node: u64,
    next_edge: u64,
    ops: Seq<OpView>,
    op: OpView,
)
    requires
        ids_below(g, next_node, next_edge),
        inserts_new(g, ops),
        op matches OpView::InsertNode(n) ==> n.id.0 >= next_node && !touches_node(ops, n.id),
        op matches OpView::InsertEdge(e) ==> e.id.0 >= next_edge && !touches_edge(ops, e.id),
    ensures
        inserts_new(g, ops.push(op)),
{
    let all = ops.push(op);
    assert forall|i: int| 0 <= i < all.len() implies match #[trigger] all[i] {
        OpView::InsertNode(n) => !g.nodes.contains_key(n.id) && !touches_node(all.take(i), n.id),
        OpView::InsertEdge(e) => !g.edges.contains_key(e.id) && !touches_edge(all.take(i), e.id),
        _ => true,
    } by {
        assert(all.take(i) =~= ops.take(i));
        if i < ops.len() {
            assert(all[i] == ops[i]);
        } else {
            assert(ops.take(i) =~= ops);
        }
    }
}

/// Whatever plan is chosen and whatever index serves it, a match of nodes gives the
/// nodes of the graph that pass the filter, each once.
pub proof fn law_match_gives_passing_nodes<S: StoragePort, C: CachePort, E: GraphEnginePort>(
    db: LayeredGraphDatabase<S, C, E>,
    f: NodeFilterView,
    r: QueryResult,
)
    requires
        db.coherent(),
        answers(db.holdings(), plan_nodes(f, db.holdings().stats()), r),
    ensures
        r matches QueryResult::Nodes(v) && lists_nodes(v@, passing(db.graph().nodes, f)),
{
    law_plan_keeps_meaning(db.holdings(), f);
}

/// The nodes that carry one of the given labels.
spec fn carriers(g: GraphView, labels: Set<Seq<char>>) -> Set<NodeId> {
    Set::new(|id: NodeId| g.nodes.contains_key(id) && labels.contains(g.nodes[id].label))
}

/// The counts of the given labels.
spec fn counts_of(labels: Map<Seq<char>, Seq<NodeId>>, part: Set<Seq<char>>) -> Map<
    Seq<char>,
    usize,
> {
    labels.restrict(part).map_values(|s: Seq<NodeId>| s.len() as usize)
}

proof fn lemma_labels_count(
    g: GraphView,
    labels: Map<Seq<char>, Seq<NodeId>>,
    part: Set<Seq<char>>,
)
    requires
        labels_match(g, labels),
        part.finite(),
        part.subset_of(labels.dom()),
        forall|l: Seq<char>| #[trigger] labels.contains_key(l) ==> labels[l].len() <= usize::MAX,
    ensures
        carriers(g, part).finite(),
        carriers(g, part).len() == sum_of(counts_of(labels, part)),
    decreases part.len(),
{
    let counts = counts_of(labels, part);
    assert(counts.dom() =~= part);
    if part.len() == 0 {
        assert(part =~= Set::empty());
        assert(carriers(g, part) =~= Set::empty());
    } else {
        let l = counts.dom().choose();
        assert(part.contains(l));
        let rest = part.remove(l);
        lemma_labels_count(g, labels, rest);
        assert(counts.remove(l) =~= counts_of(labels, rest));
        let bucket = labels[l].to_set();
        assert(label_bucket(labels, l) == labels[l]);
        assert(label_bucket(labels, l).no_duplicates());
        labels[l].unique_seq_to_set();
        let before = carriers(g, rest);
        assert forall|id: NodeId| carriers(g, part).contains(id) <==> before.contains(id)
            || bucket.contains(id) by {
            assert(label_bucket(labels, l).contains(id) <==> g.nodes.contains_key(id)
                && g.nodes[id].label == l);
            assert(bucket.contains(id) <==> labels[l].contains(id));
        }
        assert(carriers(g, part) =~= before + bucket);
        assert(before.disjoint(bucket)) by {
            assert forall|id: NodeId| before.contains(id) implies !bucket.contains(id) by {
                assert(label_bucket(labels, l).contains(id) <==> g.nodes.contains_key(id)
                    && g.nodes[id].label == l);
            }
        }
        vstd::set_lib::lemma_set_disjoint_lens(before, bucket);
        assert(labels.contains_key(l));
        assert(counts[l] == labels[l].len());
    }
}

/// The labels count every node once: their counts add up to the number of nodes.
pub proof fn law_labels_count_all_nodes(g: GraphView, labels: Map<Seq<char>, Seq<NodeId>>)
    requires
        labels_match(g, labels),
        labels.dom().finite(),
        forall|l: Seq<char>| #[trigger] labels.contains_key(l) ==> labels[l].len() <= usize::MAX,
    ensures
        sum_of(labels.map_values(|s: Seq<NodeId>| s.len() as usize)) == g.nodes.dom().len(),
{
    lemma_labels_count(g, labels, labels.dom());
    assert(labels.restrict(labels.dom()) =~= labels);
    assert forall|id: NodeId| carriers(g, labels.dom()).contains(id)
        == g.nodes.dom().contains(id) by {
        if g.nodes.contains_key(id) {
            let l = g.nodes[id].label;
            assert(label_bucket(labels, l).contains(id));
            assert(labels.contains_key(l));
        }
    }
    assert(carriers(g, labels.dom()) =~= g.nodes.dom());
}

/// Whether one write leads from one state of a database to the next: an insertion or a
/// deletion that succeeded. What else it counts is open.
pub open spec fn wrote<S: StoragePort, C: CachePort, E: GraphEnginePort>(
    before: LayeredGraphDatabase<S, C, E>,
    after: LayeredGraphDatabase<S, C, E>,
) -> bool {
    &&& after.settings() == before.settings()
    &&& after.reliable() == before.reliable()
    &&& exists|counted: DatabaseMetrics|
        counted.compactions == before.counters().compactions && #[trigger] write_counted(
            before.settings(),
            before.reliable(),
            before.writes(),
            counted,
            after.writes(),
            after.counters(),
        )
}

/// Where the storage never fails and nothing else happens, a run of `n` writes to a
/// database on which no write waits for a compaction brings `n / t` compactions if the
/// limit is `t` writes, and none if there is no limit.
pub proof fn law_compactions_after_writes<S: StoragePort, C: CachePort, E: GraphEnginePort>(
    run: Seq<LayeredGraphDatabase<S, C, E>>,
)
    requires
        run.len() > 0,
        run[0].reliable(),
        run[0].writes() == 0,
        run[0].settings().auto_compact_after_writes matches Some(t) ==> t > 0,
        run[0].counters().compactions + run.len() <= u64::MAX,
        forall|i: int| 0 <= i < run.len() - 1 ==> wrote(#[trigger] run[i], run[i + 1]),
    ensures
        match run[0].settings().auto_compact_after_writes {
            Some(t) => {
                &&& run.last().counters().compactions == run[0].counters().compactions + (
                run.len() - 1) / (t as int)
                &&& run.last().writes() == (run.len() - 1) % (t as int)
            },
            None => run.last().counters().compactions == run[0].counters().compactions,
        },
{
    let config = run[0].settings();
    let counts = run.map_values(
        |d: LayeredGraphDatabase<S, C, E>| (d.writes(), d.counters()),
    );
    assert forall|i: int| 0 <= i < run.len() implies (#[trigger] run[i]).settings() == config
        && run[i].reliable() && (config.auto_compact_after_writes is None
        ==> run[i].counters().compactions == run[0].counters().compactions) by {
        lemma_run_alike(run, i);
    }
    if let Some(t) = config.auto_compact_after_writes {
        assert forall|i: int| 0 <= i < counts.len() - 1 implies is_write(
            config,
            #[trigger] counts[i],
            counts[i + 1],
        ) by {
            assert(wrote(run[i], run[i + 1]));
            assert(run[i].settings() == config && run[i].reliable());
            let counted = choose|counted: DatabaseMetrics|
                counted.compactions == run[i].counters().compactions && #[trigger] write_counted(
                    config,
                    true,
                    run[i].writes(),
                    counted,
                    run[i + 1].writes(),
                    run[i + 1].counters(),
                );
            assert(write_counted(
                config,
                true,
                counts[i].0,
                counted,
                counts[i + 1].0,
                counts[i + 1].1,
            ));
        }
        lemma_compactions(config, t, counts);
    }
}

proof fn lemma_run_alike<S: StoragePort, C: CachePort, E: GraphEnginePort>(
    run: Seq<LayeredGraphDatabase<S, C, E>>,
    i: int,
)
    requires
        0 <= i < run.len(),
        run[0].reliable(),
        forall|j: int| 0 <= j < run.len() - 1 ==> wrote(#[trigger] run[j], run[j + 1]),
    ensures
        run[i].settings() == run[0].settings(),
        run[i].reliable(),
        run[0].settings().auto_compact_after_writes is None ==> run[i].counters().compactions
            == run[0].counters().compactions,
    decreases i,
{
    if i > 0 {
        lemma_run_alike(run, i - 1);
        assert(wrote(run[i - 1], run[i - 1 + 1]));
    }
}

/// Whether one write leads from the counts of writes and of all else before it to
/// those after it, on a storage that never fails.
spec fn is_write(
    config: DatabaseConfig,
    before: (usize, DatabaseMetrics),
    after: (usize, DatabaseMetrics),
) -> bool {
    exists|counted: DatabaseMetrics|
        counted.compactions == before.1.compactions && #[trigger] write_counted(
            config,
            true,
            before.0,
            counted,
            after.0,
            after.1,
        )
}

proof fn lemma_compactions(
    config: DatabaseConfig,
    t: usize,
    run: Seq<(usize, DatabaseMetrics)>,
)
    requires
        config.auto_compact_after_writes == Some(t),
        t > 0,
        run.len() > 0,
        run[0].0 == 0,
        run[0].1.compactions + run.len() <= u64::MAX,
        forall|i: int| 0 <= i < run.len() - 1 ==> is_write(config, #[trigger] run[i], run[i + 1]),
    ensures
        run.last().0 == (run.len() - 1) % (t as int),
        run.last().1.compactions == run[0].1.compactions + (run.len() - 1) / (t as int),
    decreases run.len(),
{
    let n = run.len() - 1;
    if n > 0 {
        let before = run.drop_last();
        assert forall|i: int| 0 <= i < before.len() - 1 implies is_write(
            config,
            #[trigger] before[i],
            before[i + 1],
        ) by {
            assert(is_write(config, run[i], run[i + 1]));
        }
        lemma_compactions(config, t, before);
        let m = n - 1;
        assert(is_write(config, run[m], run[m + 1]));
        let q = m / (t as int);
        let r = m % (t as int);
        lemma_fundamental_div_mod(m, t as int);
        lemma_mod_bound(m, t as int);
        assert(q <= m) by (nonlinear_arith)
            requires
                m == t * q + r,
                0 <= r < t,
                t > 0,
                m >= 0,
        ;
        if r + 1 == t {
            assert(n == (q + 1) * t + 0) by (nonlinear_arith)
                requires
                    m == t * q + r,
                    r + 1 == t,
                    n == m + 1,
            ;
            lemma_fundamental_div_mod_converse(n, t as int, q + 1, 0);
        } else {
            assert(n == q * t + (r + 1)) by (nonlinear_arith)
                requires
                    m == t * q + r,
                    n == m + 1,
            ;
            lemma_fundamental_div_mod_converse(n, t as int, q, r + 1);
        }
    } else {
        assert(0 * t + 0 == 0);
        lemma_fundamental_div_mod_converse(0, t as int, 0, 0);
    }
}

} // verus!
