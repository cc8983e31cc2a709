//! What a query that is written down gives back of the graph, from its text to its result.

use crate::adapters::index::label_index::label_bucket;
use crate::collections::filtering::lemma_push_contains;
use crate::database::coherence::{backward, engine_matches, forward, labels_match, GraphView};
use crate::database::config::{DatabaseConfig, NodeFieldIndexing};
use crate::database::layered::querying::{explanation, slow_ms};
use crate::database::layered::reading::advanced;
use crate::database::layered::schema::{by_count, counts_labels, LabelCount};
use crate::database::layered::{
    edge_ids, edge_read, incident_edges, node_read, LayeredGraphDatabase,
};
use crate::database::metrics::DatabaseMetrics;
use crate::database::metrics_laws::law_counter_counts;
use crate::database::settling::delete_each;
use crate::model::edge::EdgeView;
use crate::model::edge_id::EdgeId;
use crate::model::error::{GraphError, GraphErrorView};
use crate::model::node::{Node, NodeView};
use crate::model::node_id::NodeId;
use crate::model::text_laws::{begins_with, ends_with, lemma_shows, shows};
use crate::ports::cache::CachePort;
use crate::ports::engine::{EngineView, GraphEnginePort};
use crate::ports::query_context::{DatabaseContext, NodeAsk};
use crate::ports::storage::{StoragePort, StorageView};
use crate::query::answer_laws::{law_edges_that_pass_are_given, law_nodes_that_pass_are_given};
use crate::query::ast::ConditionView;
use crate::query::languages::agreement::is_name;
use crate::query::languages::cypher_lite::CypherLiteLanguage;
use crate::query::languages::simple::SimpleQueryLanguage;
use crate::query::languages::simple_tokens::texts;
use crate::query::languages::written_cypher::{
    edge_meets, edge_query, is_writable, law_cypher_edge_query_means_its_conditions,
    law_cypher_node_query_means_its_conditions, node_meets, node_query, weighs_numbers,
};
use crate::query::languages::written_simple::{
    law_edge_query_means_its_conditions, law_node_query_means_its_conditions, match_words, spaced,
    Clause,
};
use crate::query::planner::{sum_of, PlanView, StatsView};
use crate::query::port::QueryLanguagePort;
use crate::query::result::QueryResult;
use crate::text::decimal;
use vstd::prelude::*;

verus! {

/// Whether a result holds the nodes of a map that meet a condition: all of them, each
/// once, as they are.
pub open spec fn gives_nodes(
    r: QueryResult,
    m: Map<NodeId, NodeView>,
    meets: spec_fn(NodeView) -> bool,
) -> bool {
    &&& r is Nodes
    &&& forall|i: int|
        0 <= i < r->Nodes_0@.len() ==> {
            &&& m.contains_key((#[trigger] r->Nodes_0@[i]).id)
            &&& r->Nodes_0@[i]@ == m[r->Nodes_0@[i].id]
            &&& meets(r->Nodes_0@[i]@)
        }
    &&& forall|i: int, j: int|
        0 <= i < j < r->Nodes_0@.len() ==> (#[trigger] r->Nodes_0@[i]).id != (
        #[trigger] r->Nodes_0@[j]).id
    &&& forall|id: NodeId| #[trigger]
        m.contains_key(id) && meets(m[id]) ==> exists|i: int|
            0 <= i < r->Nodes_0@.len() && (#[trigger] r->Nodes_0@[i]).id == id
}

/// Whether a result holds the edges of a map that meet a condition: all of them, each
/// once, as they are.
pub open spec fn gives_edges(
    r: QueryResult,
    m: Map<EdgeId, EdgeView>,
    meets: spec_fn(EdgeView) -> bool,
) -> bool {
    &&& r is Edges
    &&& forall|i: int|
        0 <= i < r->Edges_0@.len() ==> {
            &&& m.contains_key((#[trigger] r->Edges_0@[i]).id)
            &&& r->Edges_0@[i]@ == m[r->Edges_0@[i].id]
            &&& meets(r->Edges_0@[i]@)
        }
    &&& forall|i: int, j: int|
        0 <= i < j < r->Edges_0@.len() ==> (#[trigger] r->Edges_0@[i]).id != (
        #[trigger] r->Edges_0@[j]).id
    &&& forall|id: EdgeId| #[trigger]
        m.contains_key(id) && meets(m[id]) ==> exists|i: int|
            0 <= i < r->Edges_0@.len() && (#[trigger] r->Edges_0@[i]).id == id
}

/// A query in the simple language for nodes or edges with conditions gives the nodes or
/// edges of the graph that meet every condition.
#[verifier::rlimit(50)]
pub proof fn law_simple_queries_find_what_they_describe<
    S: StoragePort,
    C: CachePort,
    E: GraphEnginePort,
>(db: LayeredGraphDatabase<S, C, E>, cs: Seq<Clause>, r: QueryResult)
    requires
        db.coherent(),
        cs.len() > 0,
        forall|i: int| 0 <= i < cs.len() ==> (#[trigger] cs[i]).writable(),
    ensures
        (forall|i: int| 0 <= i < cs.len() ==> !(#[trigger] cs[i] is Weight)) && db.answers_query(
            &SimpleQueryLanguage,
            spaced(match_words("NODE"@, cs)),
            Ok(r),
        ) ==> gives_nodes(
            r,
            db.graph().nodes,
            |n: NodeView| forall|i: int| 0 <= i < cs.len() ==> (#[trigger] cs[i]).met_by_node(n),
        ),
        db.answers_query(&SimpleQueryLanguage, spaced(match_words("EDGE"@, cs)), Ok(r))
            ==> gives_edges(
            r,
            db.graph().edges,
            |e: EdgeView| forall|i: int| 0 <= i < cs.len() ==> (#[trigger] cs[i]).met_by_edge(e),
        ),
{
    let c = db.holdings();
    if (forall|i: int| 0 <= i < cs.len() ==> !(#[trigger] cs[i] is Weight)) && db.answers_query(
        &SimpleQueryLanguage,
        spaced(match_words("NODE"@, cs)),
        Ok(r),
    ) {
        law_node_query_means_its_conditions(cs);
        let f = SimpleQueryLanguage.command(
            spaced(match_words("NODE"@, cs)),
        )->Ok_0->MatchNodes_0;
        law_nodes_that_pass_are_given(c, f, r);
        assert forall|i: int| 0 <= i < r->Nodes_0@.len() implies forall|k: int|
            0 <= k < cs.len() ==> (#[trigger] cs[k]).met_by_node(
                (#[trigger] r->Nodes_0@[i])@,
            ) by {
            assert(f.accepts(r->Nodes_0@[i]@));
        }
        assert forall|id: NodeId| #[trigger]
            c.nodes.contains_key(id) && (forall|k: int|
                0 <= k < cs.len() ==> (#[trigger] cs[k]).met_by_node(c.nodes[id])) implies exists|
            i: int,
        |
            0 <= i < r->Nodes_0@.len() && (#[trigger] r->Nodes_0@[i]).id == id by {
            assert(f.accepts(c.nodes[id]));
        }
    }
    if db.answers_query(&SimpleQueryLanguage, spaced(match_words("EDGE"@, cs)), Ok(r)) {
        law_edge_query_means_its_conditions(cs);
        let f = SimpleQueryLanguage.command(
            spaced(match_words("EDGE"@, cs)),
        )->Ok_0->MatchEdges_0;
        law_edges_that_pass_are_given(c, f, r);
        assert forall|i: int| 0 <= i < r->Edges_0@.len() implies forall|k: int|
            0 <= k < cs.len() ==> (#[trigger] cs[k]).met_by_edge(
                (#[trigger] r->Edges_0@[i])@,
            ) by {
            assert(f.accepts(r->Edges_0@[i]@));
        }
        assert forall|id: EdgeId| #[trigger]
            c.edges.contains_key(id) && (forall|k: int|
                0 <= k < cs.len() ==> (#[trigger] cs[k]).met_by_edge(c.edges[id])) implies exists|
            i: int,
        |
            0 <= i < r->Edges_0@.len() && (#[trigger] r->Edges_0@[i]).id == id by {
            assert(f.accepts(c.edges[id]));
        }
    }
}

/// A query in the Cypher-like language for nodes or edges with a label and conditions
/// gives the nodes or edges of the graph with that label that meet every condition.
#[verifier::rlimit(50)]
pub proof fn law_cypher_queries_find_what_they_describe<
    S: StoragePort,
    C: CachePort,
    E: GraphEnginePort,
>(db: LayeredGraphDatabase<S, C, E>, l: Seq<char>, cs: Seq<ConditionView>, r: QueryResult)
    requires
        db.coherent(),
        is_name(l),
        cs.len() > 0,
        forall|i: int| 0 <= i < cs.len() ==> is_writable(#[trigger] cs[i]),
    ensures
        db.answers_query(&CypherLiteLanguage, node_query(l, cs), Ok(r)) ==> gives_nodes(
            r,
            db.graph().nodes,
            |n: NodeView|
                n.label == l && forall|i: int| 0 <= i < cs.len() ==> node_meets(#[trigger] cs[i], n),
        ),
        (forall|i: int| 0 <= i < cs.len() ==> weighs_numbers(#[trigger] cs[i]))
            && db.answers_query(&CypherLiteLanguage, edge_query(l, cs), Ok(r)) ==> gives_edges(
            r,
            db.graph().edges,
            |e: EdgeView|
                e.label == l && forall|i: int| 0 <= i < cs.len() ==> edge_meets(#[trigger] cs[i], e),
        ),
{
    let c = db.holdings();
    if db.answers_query(&CypherLiteLanguage, node_query(l, cs), Ok(r)) {
        law_cypher_node_query_means_its_conditions(l, cs);
        let f = CypherLiteLanguage.command(node_query(l, cs))->Ok_0->MatchNodes_0;
        law_nodes_that_pass_are_given(c, f, r);
        assert forall|i: int| 0 <= i < r->Nodes_0@.len() implies (
        #[trigger] r->Nodes_0@[i])@.label == l && forall|k: int|
            0 <= k < cs.len() ==> node_meets(#[trigger] cs[k], r->Nodes_0@[i]@) by {
            assert(f.accepts(r->Nodes_0@[i]@));
        }
        assert forall|id: NodeId| #[trigger]
            c.nodes.contains_key(id) && (c.nodes[id].label == l && forall|k: int|
                0 <= k < cs.len() ==> node_meets(#[trigger] cs[k], c.nodes[id])) implies exists|
            i: int,
        |
            0 <= i < r->Nodes_0@.len() && (#[trigger] r->Nodes_0@[i]).id == id by {
            assert(f.accepts(c.nodes[id]));
        }
    }
    if (forall|i: int| 0 <= i < cs.len() ==> weighs_numbers(#[trigger] cs[i])) && db.answers_query(
        &CypherLiteLanguage,
        edge_query(l, cs),
        Ok(r),
    ) {
        law_cypher_edge_query_means_its_conditions(l, cs);
        let f = CypherLiteLanguage.command(edge_query(l, cs))->Ok_0->MatchEdges_0;
        law_edges_that_pass_are_given(c, f, r);
        assert forall|i: int| 0 <= i < r->Edges_0@.len() implies (
        #[trigger] r->Edges_0@[i])@.label == l && forall|k: int|
            0 <= k < cs.len() ==> edge_meets(#[trigger] cs[k], r->Edges_0@[i]@) by {
            assert(f.accepts(r->Edges_0@[i]@));
        }
        assert forall|id: EdgeId| #[trigger]
            c.edges.contains_key(id) && (c.edges[id].label == l && forall|k: int|
                0 <= k < cs.len() ==> edge_meets(#[trigger] cs[k], c.edges[id])) implies exists|
            i: int,
        |
            0 <= i < r->Edges_0@.len() && (#[trigger] r->Edges_0@[i]).id == id by {
            assert(f.accepts(c.edges[id]));
        }
    }
}

/// A query that cannot be read is answered with the error of its language, and one that
/// can be read and needs no more than the structure of the graph is answered.
pub proof fn law_queries_fail_only_with_reason<
    S: StoragePort,
    C: CachePort,
    E: GraphEnginePort,
    L: QueryLanguagePort,
>(
    db: LayeredGraphDatabase<S, C, E>,
    language: L,
    query: Seq<char>,
    r: Result<QueryResult, GraphErrorView>,
)
    requires
        db.answers_query(&language, query, r),
    ensures
        language.command(query) is Err ==> r is Err && r->Err_0 == language.command(query)->Err_0,
        language.command(query) is Ok && db.reliable() && db.scan_error() is None ==> r is Ok,
        language.command(query) matches Ok(c) && (c is CountNodes || c is CountEdges
            || c is Traverse || c is ShortestPath) ==> r is Ok,
        language.command(query) matches Ok(c) && (c is GetNode || c is GetEdge || c is MatchEdges)
            && db.reliable() ==> r is Ok,
{
}

/// A scan of all nodes is refused exactly where a limit is set and there are more nodes.
pub proof fn law_scan_limit<S: StoragePort, C: CachePort, E: GraphEnginePort>(
    db: LayeredGraphDatabase<S, C, E>,
)
    requires
        db.coherent(),
    ensures
        db.scan_error() is Some <==> (db.settings().max_full_scan_nodes matches Some(max)
            && db.graph().nodes.dom().len() > max),
{
}

/// A query is told to be slow exactly where a threshold is set and it took as many whole
/// milliseconds or more, and these are told.
pub proof fn law_slow_queries_are_told(config: DatabaseConfig, ns: u64, ms: u64)
    ensures
        slow_ms(config, ns) == Some(ms) <==> (config.slow_query_warn_ms matches Some(t) && ms >= t)
            && ms * 1_000_000 <= ns < (ms + 1) * 1_000_000,
{
}

/// Every property is indexed, or none, or exactly those that are listed.
pub proof fn law_indexing_covers(listed: Vec<String>, field: Seq<char>)
    requires
        field != "*"@,
    ensures
        NodeFieldIndexing::All.covers(field),
        !NodeFieldIndexing::NoFields.covers(field),
        NodeFieldIndexing::OnlyFields(listed).covers(field) <==> exists|i: int|
            0 <= i < listed@.len() && (#[trigger] listed@[i])@ == field,
{
    let t = texts(listed@);
    if t.contains(field) {
        let i = choose|i: int| 0 <= i < t.len() && t[i] == field;
        assert(listed@[i]@ == field);
    }
    if exists|i: int| 0 <= i < listed@.len() && (#[trigger] listed@[i])@ == field {
        let i = choose|i: int| 0 <= i < listed@.len() && (#[trigger] listed@[i])@ == field;
        assert(t[i] == field);
    }
}

/// A counter that goes on some steps grows by as many, starting again at zero where it
/// runs over.
pub proof fn law_counter_advances(counter: u64, steps: nat)
    ensures
        advanced(counter, steps) == (counter + steps) % 0x1_0000_0000_0000_0000,
    decreases steps,
{
    if steps > 0 {
        law_counter_advances(counter, (steps - 1) as nat);
        law_counter_counts(advanced(counter, (steps - 1) as nat));
    }
}

/// A read counts as served by the cache or as not served, once, and nothing else changes.
pub proof fn law_read_is_a_hit_or_a_miss(m: DatabaseMetrics)
    requires
        m.cache_node_hits < u64::MAX,
        m.cache_node_misses < u64::MAX,
        m.cache_edge_hits < u64::MAX,
        m.cache_edge_misses < u64::MAX,
    ensures
        node_read(m, true) == (DatabaseMetrics {
            cache_node_hits: (m.cache_node_hits + 1) as u64,
            ..m
        }),
        node_read(m, false) == (DatabaseMetrics {
            cache_node_misses: (m.cache_node_misses + 1) as u64,
            ..m
        }),
        edge_read(m, true) == (DatabaseMetrics {
            cache_edge_hits: (m.cache_edge_hits + 1) as u64,
            ..m
        }),
        edge_read(m, false) == (DatabaseMetrics {
            cache_edge_misses: (m.cache_edge_misses + 1) as u64,
            ..m
        }),
{
}

/// The explanation of a query begins with the number of nodes, shows the time in whole
/// microseconds, and ends with the plan.
#[verifier::rlimit(50)]
pub proof fn law_explanation_shows_the_plan(stats: StatsView, ns: u64, plan: PlanView)
    ensures
        begins_with(
            explanation(stats, ns, plan),
            "stats: "@ + decimal(stats.node_count) + " nodes"@,
        ),
        ends_with(explanation(stats, ns, plan), "plan: "@ + plan.description(stats)),
        shows(explanation(stats, ns, plan), "elapsed: "@ + decimal((ns / 1000) as nat) + " µs"@),
{
    reveal_strlit(" nodes, ");
    reveal_strlit(" nodes");
    reveal_strlit(" indexed fields  |  elapsed: ");
    reveal_strlit("elapsed: ");
    reveal_strlit(" µs  |  plan: ");
    reveal_strlit(" µs");
    reveal_strlit("plan: ");
    let t = explanation(stats, ns, plan);
    let head = "stats: "@ + decimal(stats.node_count) + " nodes"@;
    assert(t.take(head.len() as int) =~= head);
    let tail = "plan: "@ + plan.description(stats);
    assert(t.skip(t.len() - tail.len()) =~= tail);
    let time = decimal((ns / 1000) as nat);
    let part = "elapsed: "@ + time + " µs"@;
    let a = " indexed fields  |  elapsed: "@;
    let b = " µs  |  plan: "@;
    let before = "stats: "@ + decimal(stats.node_count) + " nodes, "@ + decimal(
        sum_of(stats.label_counts),
    ) + " labeled, "@ + decimal(stats.indexed.len()) + a.take(a.len() - 9);
    let behind = b.skip(3) + plan.description(stats);
    assert(a =~= a.take(a.len() - 9) + "elapsed: "@);
    assert(b =~= " µs"@ + b.skip(3));
    assert(t =~= before + part + behind);
    lemma_shows(before, part, behind);
}

/// Each label of the statistics is counted with the number of nodes of the graph that carry
/// it, labels with more nodes come first, and no label of a node is left out.
pub proof fn law_label_statistics_count_nodes(
    g: GraphView,
    labels: Map<Seq<char>, Seq<NodeId>>,
    s: Seq<LabelCount>,
    i: int,
    j: int,
    id: NodeId,
)
    requires
        labels_match(g, labels),
        counts_labels(s, labels),
        by_count(s),
        0 <= i <= j < s.len(),
    ensures
        s[i].count == Set::new(
            |x: NodeId| g.nodes.contains_key(x) && g.nodes[x].label == s[i].label@,
        ).len(),
        s[i].count >= s[j].count,
        g.nodes.contains_key(id) ==> exists|k: int|
            0 <= k < s.len() && (#[trigger] s[k]).label@ == g.nodes[id].label,
{
    let l = s[i].label@;
    let bucket = labels[l];
    assert(label_bucket(labels, l) == bucket);
    assert(bucket.no_duplicates()) by {
        assert(label_bucket(labels, l).no_duplicates());
    }
    bucket.unique_seq_to_set();
    let carriers = Set::new(|x: NodeId| g.nodes.contains_key(x) && g.nodes[x].label == l);
    assert forall|x: NodeId| carriers.contains(x) == bucket.to_set().contains(x) by {
        assert(label_bucket(labels, l).contains(x) <==> g.nodes.contains_key(x) && g.nodes[x].label
            == l);
        assert(bucket.to_set().contains(x) <==> bucket.contains(x));
    }
    assert(carriers =~= bucket.to_set());
    if g.nodes.contains_key(id) {
        let m = g.nodes[id].label;
        assert(label_bucket(labels, m).contains(id));
        assert(labels.contains_key(m));
    }
}

/// A query is counted once, and changes no counter of writes, compactions or transactions.
pub proof fn law_query_counts_as_a_query<S: StoragePort, C: CachePort, E: GraphEnginePort>(
    before: LayeredGraphDatabase<S, C, E>,
    after: LayeredGraphDatabase<S, C, E>,
)
    requires
        after.has_counted_query(&before),
        before.counters().queries_executed < u64::MAX,
    ensures
        after.counters().queries_executed == before.counters().queries_executed + 1,
        after.counters().nodes_inserted == before.counters().nodes_inserted,
        after.counters().nodes_deleted == before.counters().nodes_deleted,
        after.counters().edges_inserted == before.counters().edges_inserted,
        after.counters().edges_deleted == before.counters().edges_deleted,
        after.counters().compactions == before.counters().compactions,
        after.counters().transactions_committed == before.counters().transactions_committed,
        after.counters().transactions_rolled_back == before.counters().transactions_rolled_back,
        after.slow() is Some ==> before.settings().slow_query_warn_ms is Some && after.slow()->0
            >= before.settings().slow_query_warn_ms->0,
{
}

/// A list of nodes that is asked for counts as one use of the index that serves it, or as
/// one scan, and as nothing else.
pub proof fn law_lookups_count_once<S: StoragePort, C: CachePort, E: GraphEnginePort>(
    before: LayeredGraphDatabase<S, C, E>,
    after: LayeredGraphDatabase<S, C, E>,
    ask: NodeAsk,
    r: Result<Vec<Node>, GraphError>,
)
    requires
        after.gave_nodes(&before, ask, r),
        before.counters().label_index_hits < u64::MAX,
        before.counters().property_index_hits < u64::MAX,
        before.counters().full_node_scans < u64::MAX,
    ensures
        ({
            let a = before.counters();
            let b = after.counters();
            let indexed = ask matches NodeAsk::Property(c) && before.fields().contains_key(c.key);
            let scanned = (ask is All || (ask is Property && !indexed)) && before.scan_error()
                is None;
            &&& b.label_index_hits == a.label_index_hits + (if ask is Labelled {
                1int
            } else {
                0
            })
            &&& b.property_index_hits == a.property_index_hits + (if indexed {
                1int
            } else {
                0
            })
            &&& b.full_node_scans == a.full_node_scans + (if scanned {
                1int
            } else {
                0
            })
            &&& b.full_edge_scans == a.full_edge_scans
            &&& b.queries_executed == a.queries_executed
        }),
{
}

/// The edges that go with a node are those that leave or enter it.
pub proof fn law_edges_that_go_with_a_node(g: GraphView, e: EngineView, id: NodeId, x: EdgeId)
    requires
        engine_matches(g, e),
    ensures
        incident_edges(e, id).contains(x) <==> g.edges.contains_key(x) && (g.edges[x].source == id
            || g.edges[x].target == id),
{
    let a = edge_ids(e.out_of(id));
    let b = edge_ids(e.into(id));
    let all = incident_edges(e, id);
    if all.contains(x) {
        let k = choose|k: int| 0 <= k < all.len() && all[k] == x;
        if k < a.len() {
            assert(e.out_of(id).contains(e.out_of(id)[k]));
        } else {
            assert(e.into(id).contains(e.into(id)[k - a.len()]));
        }
    }
    if g.edges.contains_key(x) {
        let edge = g.edges[x];
        if edge.source == id {
            assert(e.out_of(id).contains(forward(edge)));
            let k = choose|k: int| 0 <= k < e.out_of(id).len() && e.out_of(id)[k] == forward(edge);
            assert(all[k] == x);
        } else if edge.target == id {
            assert(e.into(id).contains(backward(edge)));
            let k = choose|k: int| 0 <= k < e.into(id).len() && e.into(id)[k] == backward(edge);
            assert(all[a.len() + k] == x);
        }
    }
}

/// Edges that are deleted one after the other are gone, and all else is as it was.
pub proof fn law_edges_deleted_one_by_one(st: StorageView, ids: Seq<EdgeId>, x: EdgeId)
    requires
        st.txn is None,
    ensures
        delete_each(st, ids).txn is None,
        delete_each(st, ids).nodes == st.nodes,
        delete_each(st, ids).edges.contains_key(x) <==> st.edges.contains_key(x) && !ids.contains(
            x,
        ),
        delete_each(st, ids).edges.contains_key(x) ==> delete_each(st, ids).edges[x] == st.edges[x],
    decreases ids.len(),
{
    if ids.len() > 0 {
        let rest = ids.drop_last();
        law_edges_deleted_one_by_one(st, rest, x);
        assert(rest.push(ids.last()) =~= ids);
        lemma_push_contains(rest, ids.last(), x);
    }
}

} // verus!
