//! Queries against the database.

use crate::algorithms::bfs::BreadthFirstSearch;
use crate::algorithms::dfs::DepthFirstSearch;
use crate::algorithms::dijkstra::Dijkstra;
use crate::database::config::DatabaseConfig;
use crate::adapters::index::label_index::label_bucket;
use crate::database::layered::reading::ids_of_nodes;
use crate::database::layered::{edge_read, node_read, same_but_cache, LayeredGraphDatabase};
use crate::database::metrics::{count, next, DatabaseMetrics, QueryTimer};
use crate::float::Float64;
use crate::model::edge::Edge;
use crate::model::edge_id::EdgeId;
use crate::model::error::{GraphError, GraphErrorView};
use crate::model::node::Node;
use crate::model::node_id::NodeId;
use crate::model::value::Value;
use crate::ports::cache::CachePort;
use crate::ports::engine::GraphEnginePort;
use crate::ports::query_context::{ContextView, DatabaseContext, NodeAsk};
use crate::ports::storage::StoragePort;
use crate::query::ast::ComparisonOp;
use crate::query::executor::{answered, execute_plan, reads_nothing, refusal, relays};
use crate::query::planner::{
    plan_of, sum_of, DatabaseStats, ExecutionPlan, PlanView, QueryPlanner, StatsView,
};
use crate::query::port::QueryLanguagePort;
use crate::query::result::QueryResult;
use crate::text::{decimal, u128_to_text, u64_to_text};
use vstd::prelude::*;
use vstd::string::StringExecFns;

verus! {

/// Whether two sets of counters differ at most in what was read, and from where.
pub open spec fn same_but_reads(a: DatabaseMetrics, b: DatabaseMetrics) -> bool {
    a == DatabaseMetrics {
        label_index_hits: a.label_index_hits,
        property_index_hits: a.property_index_hits,
        full_node_scans: a.full_node_scans,
        full_edge_scans: a.full_edge_scans,
        cache_node_hits: a.cache_node_hits,
        cache_node_misses: a.cache_node_misses,
        cache_edge_hits: a.cache_edge_hits,
        cache_edge_misses: a.cache_edge_misses,
        ..b
    }
}

impl<S: StoragePort, C: CachePort, E: GraphEnginePort> DatabaseContext for LayeredGraphDatabase<
    S,
    C,
    E,
> {
    open spec fn valid(&self) -> bool {
        self.well_formed()
    }

    open spec fn steady(&self) -> bool {
        self.coherent()
    }

    open spec fn unfailing(&self) -> bool {
        self.reliable()
    }

    open spec fn scan_refusal(&self) -> Option<GraphErrorView> {
        self.scan_error()
    }

    open spec fn contents(&self) -> ContextView {
        self.holdings()
    }

    open spec fn only_read_since(&self, earlier: &Self) -> bool {
        self.same_layers(earlier) && same_but_reads(self.counters(), earlier.counters())
    }

    /// The nodes come in the order of the index that serves them, and one more use of
    /// the index, or one more scan, is counted.
    open spec fn gave_nodes(
        &self,
        earlier: &Self,
        ask: NodeAsk,
        r: Result<Vec<Node>, GraphError>,
    ) -> bool {
        let m = earlier.counters();
        let scanned = if earlier.scan_error() is Some {
            m
        } else {
            DatabaseMetrics { full_node_scans: next(m.full_node_scans), ..m }
        };
        match ask {
            NodeAsk::All => same_but_cache(self.counters(), scanned),
            NodeAsk::Labelled(l) => {
                &&& same_but_cache(
                    self.counters(),
                    DatabaseMetrics { label_index_hits: next(m.label_index_hits), ..m },
                )
                &&& earlier.coherent() && r is Ok ==> ids_of_nodes(r->Ok_0@) == label_bucket(
                    earlier.labels(),
                    l,
                )
            },
            NodeAsk::Property(c) => if earlier.fields().contains_key(c.key) {
                &&& same_but_cache(
                    self.counters(),
                    DatabaseMetrics { property_index_hits: next(m.property_index_hits), ..m },
                )
                &&& earlier.coherent() && r is Ok ==> ids_of_nodes(r->Ok_0@)
                    == earlier.fields()[c.key].query(c.op, c.value)
            } else {
                same_but_cache(self.counters(), scanned)
            },
        }
    }

    /// One more scan of the edges is counted.
    open spec fn gave_edges(&self, earlier: &Self, r: Result<Vec<Edge>, GraphError>) -> bool {
        same_but_cache(
            self.counters(),
            DatabaseMetrics {
                full_edge_scans: next(earlier.counters().full_edge_scans),
                ..earlier.counters()
            },
        )
    }

    /// One more read of a node is counted.
    open spec fn gave_node(
        &self,
        earlier: &Self,
        id: NodeId,
        r: Result<Option<Node>, GraphError>,
    ) -> bool {
        self.counters() == node_read(
            earlier.counters(),
            earlier.cached_nodes().contains_key(id),
        )
    }

    /// One more read of an edge is counted.
    open spec fn gave_edge(
        &self,
        earlier: &Self,
        id: EdgeId,
        r: Result<Option<Edge>, GraphError>,
    ) -> bool {
        self.counters() == edge_read(
            earlier.counters(),
            earlier.cached_edges().contains_key(id),
        )
    }

    proof fn lemma_no_read(&self) {
    }

    proof fn lemma_more_reads(&self, earlier: &Self, earliest: &Self) {
    }

    fn get_node(&mut self, id: NodeId) -> (r: Result<Option<Node>, GraphError>) {
        LayeredGraphDatabase::get_node(self, id)
    }

    fn get_all_nodes(&mut self) -> (r: Result<Vec<Node>, GraphError>) {
        self.scan_nodes()
    }

    fn get_nodes_by_label(&mut self, label: &str) -> (r: Result<Vec<Node>, GraphError>)
        ensures
            final(self).counters().label_index_hits == next(old(self).counters().label_index_hits),
    {
        count(&mut self.metrics.label_index_hits);
        self.nodes_by_label(label)
    }

    fn get_nodes_by_property(&mut self, field: &str, op: &ComparisonOp, value: &Value) -> (r:
        Result<Vec<Node>, GraphError>) {
        self.nodes_by_property(field, op, value)
    }

    fn get_edge(&mut self, id: EdgeId) -> (r: Result<Option<Edge>, GraphError>) {
        LayeredGraphDatabase::get_edge(self, id)
    }

    fn get_all_edges(&mut self) -> (r: Result<Vec<Edge>, GraphError>)
        ensures
            final(self).counters().full_edge_scans == next(old(self).counters().full_edge_scans),
    {
        count(&mut self.metrics.full_edge_scans);
        self.all_edges()
    }

    fn node_count(&self) -> (r: usize) {
        LayeredGraphDatabase::node_count(self)
    }

    fn edge_count(&self) -> (r: usize) {
        LayeredGraphDatabase::edge_count(self)
    }

    fn traverse_bfs(&self, start: NodeId) -> (r: Vec<NodeId>) {
        self.traverse(&BreadthFirstSearch, start)
    }

    fn traverse_dfs(&self, start: NodeId) -> (r: Vec<NodeId>) {
        self.traverse(&DepthFirstSearch, start)
    }

    fn shortest_path_dijkstra(&self, start: NodeId, goal: NodeId) -> (r: Option<
        (Vec<NodeId>, Float64),
    >) {
        self.find_shortest_path(&Dijkstra, start, goal)
    }

    fn stats(&self) -> (r: DatabaseStats) {
        self.build_stats()
    }
}

/// The milliseconds to report for a query that took the given time, if it was slow.
pub open spec fn slow_ms(config: DatabaseConfig, elapsed_ns: u64) -> Option<u64> {
    match config.slow_query_warn_ms {
        Some(threshold) => if elapsed_ns / 1_000_000 >= threshold {
            Some(elapsed_ns / 1_000_000)
        } else {
            None
        },
        None => None,
    }
}

/// What is shown of the database, of the time that a query took and of the plan that
/// was chosen for it.
pub open spec fn explanation(stats: StatsView, elapsed_ns: u64, plan: PlanView) -> Seq<char> {
    "stats: "@ + decimal(stats.node_count) + " nodes, "@ + decimal(sum_of(stats.label_counts))
        + " labeled, "@ + decimal(stats.indexed.len()) + " indexed fields  |  elapsed: "@ + decimal(
        (elapsed_ns / 1000) as nat,
    ) + " µs  |  plan: "@ + plan.description(stats)
}

impl<S: StoragePort, C: CachePort, E: GraphEnginePort> LayeredGraphDatabase<S, C, E> {
    /// Whether a result is right for a query in a language.
    pub open spec fn answers_query<L: QueryLanguagePort>(
        &self,
        language: &L,
        query: Seq<char>,
        r: Result<QueryResult, GraphErrorView>,
    ) -> bool {
        match language.command(query) {
            Err(e) => r == Err::<QueryResult, GraphErrorView>(e),
            Ok(c) => {
                let plan = plan_of(c, self.holdings().stats());
                match r {
                    Ok(res) => {
                        &&& refusal(self.holdings(), self.scan_error(), plan) is None
                        &&& answered(self.coherent(), self.holdings(), plan, res)
                    },
                    Err(e) => {
                        &&& !reads_nothing(plan)
                        &&& match refusal(self.holdings(), self.scan_error(), plan) {
                            Some(x) => e == x,
                            None => !self.reliable(),
                        }
                    },
                }
            },
        }
    }

    /// Whether one query has been counted and timed since an earlier state, and its
    /// reads have been counted.
    pub open spec fn has_counted_query(&self, before: &Self) -> bool {
        exists|read: DatabaseMetrics, elapsed_ns: u64|
            {
                &&& same_but_reads(read, before.counters())
                &&& self.counters() == #[trigger] read.with_query(elapsed_ns)
                &&& self.slow() == slow_ms(before.settings(), elapsed_ns)
            }
    }

    /// Counts a query that took the given time, and notes whether it was slow.
    pub fn note_query(&mut self, elapsed_ns: u64)
        ensures
            final(self).same_layers(old(self)),
            final(self).well_formed() == old(self).well_formed(),
            final(self).cached_nodes() == old(self).cached_nodes(),
            final(self).cached_edges() == old(self).cached_edges(),
            final(self).counters() == old(self).counters().with_query(elapsed_ns),
            final(self).slow() == slow_ms(old(self).settings(), elapsed_ns),
    {
        self.metrics.record_query(elapsed_ns);
        self.slow_query_ms = match self.config.slow_query_warn_ms {
            Some(threshold) => {
                let ms: u64 = elapsed_ns / 1_000_000;
                if ms >= threshold {
                    Some(ms)
                } else {
                    None
                }
            },
            None => None,
        };
    }

    /// The milliseconds that the last query took, if it was slow.
    pub fn last_slow_query_ms(&self) -> (r: Option<u64>)
        ensures
            r == self.slow(),
    {
        self.slow_query_ms
    }

    /// Runs a query in a language, and counts it with the time that it took. How
    /// long that is, the clock decides.
    pub fn execute_query<L: QueryLanguagePort>(&mut self, language: &L, query: &str) -> (r: Result<
        QueryResult,
        GraphError,
    >)
        requires
            old(self).well_formed(),
        ensures
            final(self).well_formed(),
            final(self).same_layers(old(self)),
            final(self).has_counted_query(old(self)),
            old(self).coherent() ==> final(self).coherent(),
            old(self).answers_query(
                language,
                query@,
                match r {
                    Ok(res) => Ok(res),
                    Err(e) => Err(e@),
                },
            ),
            exists|read: Self, elapsed_ns: u64|
                {
                    &&& same_but_reads(read.counters(), old(self).counters())
                    &&& match language.command(query@) {
                        Ok(c) => relays(
                            old(self),
                            &read,
                            plan_of(c, old(self).holdings().stats()),
                            r,
                        ),
                        Err(_) => read == *old(self),
                    }
                    &&& final(self).counters() == #[trigger] read.counters().with_query(elapsed_ns)
                    &&& final(self).slow() == slow_ms(old(self).settings(), elapsed_ns)
                },
    {
        let timer = QueryTimer::start();
        let result = language.execute(query, self);
        let elapsed_ns: u64 = timer.elapsed_ns();
        let ghost read = *self;
        self.note_query(elapsed_ns);
        assert(self.counters() == read.counters().with_query(elapsed_ns));
        result
    }

    /// Describes the plan that would be chosen for a query, without running it.
    pub fn explain_query<L: QueryLanguagePort>(&self, language: &L, query: &str) -> (r: Result<
        String,
        GraphError,
    >)
        ensures
            match language.command(query@) {
                Ok(c) => r matches Ok(text) && text@ == plan_of(
                    c,
                    self.holdings().stats(),
                ).description(self.holdings().stats()),
                Err(e) => r matches Err(x) && x@ == e,
            },
    {
        let stats = self.build_stats();
        match language.read_command(query) {
            Err(e) => Err(e),
            Ok(command) => {
                let plan = QueryPlanner::plan(command, &stats);
                Ok(plan.describe(&stats))
            },
        }
    }

    /// Runs a query in a language, and gives with its result a line about the
    /// database, the time that the query took and the plan that was chosen. A query
    /// that fails is not counted, and none is reported as slow.
    pub fn execute_query_with_explain<L: QueryLanguagePort>(
        &mut self,
        language: &L,
        query: &str,
    ) -> (r: Result<(QueryResult, String), GraphError>)
        requires
            old(self).well_formed(),
        ensures
            final(self).well_formed(),
            final(self).same_layers(old(self)),
            old(self).coherent() ==> final(self).coherent(),
            final(self).slow() is None,
            old(self).answers_query(
                language,
                query@,
                match r {
                    Ok((res, _)) => Ok(res),
                    Err(e) => Err(e@),
                },
            ),
            match r {
                Ok((res, text)) => exists|read: Self, elapsed_ns: u64|
                    {
                        &&& same_but_reads(read.counters(), old(self).counters())
                        &&& relays(
                            old(self),
                            &read,
                            plan_of(
                                language.command(query@)->Ok_0,
                                old(self).holdings().stats(),
                            ),
                            Ok(res),
                        )
                        &&& final(self).counters() == #[trigger] read.counters().with_query(
                            elapsed_ns,
                        )
                        &&& text@ == explanation(
                            old(self).holdings().stats(),
                            elapsed_ns,
                            plan_of(
                                language.command(query@)->Ok_0,
                                old(self).holdings().stats(),
                            ),
                        )
                    },
                Err(_) => same_but_reads(final(self).counters(), old(self).counters()),
            },
    {
        let stats = self.build_stats();
        let timer = QueryTimer::start();
        let command = match language.read_command(query) {
            Err(e) => {
                self.slow_query_ms = None;
                return Err(e);
            },
            Ok(c) => c,
        };
        let plan = QueryPlanner::plan(command, &stats);
        match execute_plan(plan.clone(), self) {
            Err(e) => {
                self.slow_query_ms = None;
                Err(e)
            },
            Ok(result) => {
                let ghost read = *self;
                let elapsed_ns: u64 = timer.finish(&mut self.metrics);
                self.slow_query_ms = None;
                assert(self.counters() == read.counters().with_query(elapsed_ns));
                let text = explain(&stats, elapsed_ns, &plan);
                Ok((result, text))
            },
        }
    }
}

/// The line about a database, the time that a query took and its plan.
pub fn explain(stats: &DatabaseStats, elapsed_ns: u64, plan: &ExecutionPlan) -> (r: String)
    ensures
        r@ == explanation(stats@, elapsed_ns, plan@),
{
    let mut s = String::from_str("stats: ");
    s.append(u64_to_text(stats.node_count as u64).as_str());
    s.append(" nodes, ");
    s.append(u128_to_text(stats.labelled()).as_str());
    s.append(" labeled, ");
    s.append(u64_to_text(stats.indexed_node_fields.len() as u64).as_str());
    s.append(" indexed fields  |  elapsed: ");
    s.append(u64_to_text(elapsed_ns / 1000).as_str());
    s.append(" µs  |  plan: ");
    s.append(plan.describe(stats).as_str());
    s
}

} // verus!
