//! Running plans against a database.

use crate::algorithms::bfs::BreadthFirstSearch;
use crate::algorithms::dfs::DepthFirstSearch;
use crate::algorithms::dijkstra::Dijkstra;
use crate::collections::filtering::lemma_filter_order;
use crate::model::edge::{Edge, EdgeView};
use crate::model::edge_id::EdgeId;
use crate::model::error::{GraphError, GraphErrorView};
use crate::model::node::{Node, NodeView};
use crate::model::node_id::NodeId;
use crate::ports::algorithm::{ShortestPathAlgorithm, TraversalAlgorithm};
use crate::ports::query_context::{
    select_edges, select_nodes, settles, ContextView, DatabaseContext, NodeAsk,
};
use crate::ports::storage::{lists_edges, lists_nodes};
use crate::query::ast::{
    EdgeFilter, EdgeFilterView, NodeFilter, NodeFilterView, QueryCommand, TraversalKind,
};
use crate::query::planner::{plan_of, ExecutionPlan, PlanView, QueryPlanner};
use crate::query::result::QueryResult;
use vstd::prelude::*;
use vstd::string::StringExecFns;

verus! {

/// The candidates that pass a filter.
pub open spec fn passing(m: Map<NodeId, NodeView>, f: NodeFilterView) -> Map<NodeId, NodeView> {
    select_nodes(m, |n: NodeView| f.accepts(n))
}

/// The edges that pass a filter.
pub open spec fn passing_edges(m: Map<EdgeId, EdgeView>, f: EdgeFilterView) -> Map<
    EdgeId,
    EdgeView,
> {
    select_edges(m, |e: EdgeView| f.accepts(e))
}

/// The nodes that a plan for nodes gives.
pub open spec fn plan_nodes_found(c: ContextView, p: PlanView) -> Map<NodeId, NodeView> {
    match p {
        PlanView::PropertyIndexScan { best, filter } => passing(c.found(best), filter),
        PlanView::LabelIndexScan { label, filter } => passing(c.labelled(label), filter),
        PlanView::FullNodeScan { filter } => passing(c.nodes, filter),
        _ => Map::empty(),
    }
}

/// Whether a result is right for a plan.
pub open spec fn answers(c: ContextView, p: PlanView, r: QueryResult) -> bool {
    match p {
        PlanView::PropertyIndexScan { .. } => r matches QueryResult::Nodes(v) && lists_nodes(
            v@,
            plan_nodes_found(c, p),
        ),
        PlanView::LabelIndexScan { .. } => r matches QueryResult::Nodes(v) && lists_nodes(
            v@,
            plan_nodes_found(c, p),
        ),
        PlanView::FullNodeScan { .. } => r matches QueryResult::Nodes(v) && lists_nodes(
            v@,
            plan_nodes_found(c, p),
        ),
        PlanView::FullEdgeScan { filter } => r matches QueryResult::Edges(v) && lists_edges(
            v@,
            passing_edges(c.edges, filter),
        ),
        PlanView::NodeLookup { id } => r matches QueryResult::SingleNode(o) && match o {
            Some(n) => c.nodes.contains_key(id) && n@ == c.nodes[id],
            None => !c.nodes.contains_key(id),
        },
        PlanView::EdgeLookup { id } => r matches QueryResult::SingleEdge(o) && match o {
            Some(e) => c.edges.contains_key(id) && e@ == c.edges[id],
            None => !c.edges.contains_key(id),
        },
        PlanView::Traverse { kind, start } => r matches QueryResult::Traversal(ids) && ids@
            == match kind {
            TraversalKind::Bfs => BreadthFirstSearch.visits(c.structure, start),
            TraversalKind::Dfs => DepthFirstSearch.visits(c.structure, start),
        },
        PlanView::ShortestPath { start, goal } => match r {
            QueryResult::Path { nodes, total_weight } => Dijkstra.solves(
                c.structure,
                start,
                goal,
                Some((nodes@, total_weight)),
            ),
            QueryResult::Empty => Dijkstra.solves(c.structure, start, goal, None),
            _ => false,
        },
        PlanView::CountNodes => r matches QueryResult::Count(n) && n == c.structure.outgoing.len(),
        PlanView::CountEdges => r matches QueryResult::Count(n) && n == c.structure.endpoints.len(),
    }
}

/// Whether a plan needs no node or edge to be read.
pub open spec fn reads_nothing(p: PlanView) -> bool {
    p is Traverse || p is ShortestPath || p is CountNodes || p is CountEdges
}

/// The error that a plan is refused with: that of a scan of all nodes, where the
/// plan needs one.
pub open spec fn refusal(
    c: ContextView,
    scan_refusal: Option<GraphErrorView>,
    p: PlanView,
) -> Option<GraphErrorView> {
    match p {
        PlanView::FullNodeScan { .. } => scan_refusal,
        PlanView::PropertyIndexScan { best, .. } => if c.indexed.contains(best.key) {
            None
        } else {
            scan_refusal
        },
        _ => None,
    }
}

/// Whether a result is right for a plan, as far as it can be told: where the
/// parts of the database agree, and for what needs only its structure.
pub open spec fn answered(steady: bool, c: ContextView, p: PlanView, r: QueryResult) -> bool {
    steady || reads_nothing(p) ==> answers(c, p, r)
}

/// Whether nodes that a database gave are passed on, those that pass a filter, in the
/// order in which they were given; or the error that it gave.
pub open spec fn passes_nodes(
    given: Result<Vec<Node>, GraphError>,
    filter: NodeFilterView,
    r: Result<QueryResult, GraphError>,
) -> bool {
    match (given, r) {
        (Ok(nodes), Ok(QueryResult::Nodes(v))) => v@ == nodes@.filter(
            |n: Node| filter.accepts(n@),
        ),
        (Err(e), Err(x)) => x == e,
        _ => false,
    }
}

/// Whether a database was asked once, for a list of nodes, and what it gave was
/// filtered and passed on.
pub open spec fn relays_nodes<C: DatabaseContext>(
    before: &C,
    after: &C,
    ask: NodeAsk,
    filter: NodeFilterView,
    r: Result<QueryResult, GraphError>,
) -> bool {
    exists|given: Result<Vec<Node>, GraphError>| #[trigger]
        after.gave_nodes(before, ask, given) && passes_nodes(given, filter, r)
}

/// Whether a database was asked once, for all edges, and what it gave was filtered
/// and passed on.
pub open spec fn relays_edges<C: DatabaseContext>(
    before: &C,
    after: &C,
    filter: EdgeFilterView,
    r: Result<QueryResult, GraphError>,
) -> bool {
    exists|given: Result<Vec<Edge>, GraphError>| #[trigger]
        after.gave_edges(before, given) && match (given, r) {
            (Ok(edges), Ok(QueryResult::Edges(v))) => v@ == edges@.filter(
                |e: Edge| filter.accepts(e@),
            ),
            (Err(e), Err(x)) => x == e,
            _ => false,
        }
}

/// Whether a database was asked once, for a node, and what it gave was passed on.
pub open spec fn relays_node<C: DatabaseContext>(
    before: &C,
    after: &C,
    id: NodeId,
    r: Result<QueryResult, GraphError>,
) -> bool {
    exists|given: Result<Option<Node>, GraphError>| #[trigger]
        after.gave_node(before, id, given) && match (given, r) {
            (Ok(o), Ok(QueryResult::SingleNode(x))) => x == o,
            (Err(e), Err(x)) => x == e,
            _ => false,
        }
}

/// Whether a database was asked once, for an edge, and what it gave was passed on.
pub open spec fn relays_edge<C: DatabaseContext>(
    before: &C,
    after: &C,
    id: EdgeId,
    r: Result<QueryResult, GraphError>,
) -> bool {
    exists|given: Result<Option<Edge>, GraphError>| #[trigger]
        after.gave_edge(before, id, given) && match (given, r) {
            (Ok(o), Ok(QueryResult::SingleEdge(x))) => x == o,
            (Err(e), Err(x)) => x == e,
            _ => false,
        }
}

/// Whether a plan was run with the one question to the database that it needs, if it
/// needs one, and what the database gave was passed on.
pub open spec fn relays<C: DatabaseContext>(
    before: &C,
    after: &C,
    p: PlanView,
    r: Result<QueryResult, GraphError>,
) -> bool {
    match p {
        PlanView::PropertyIndexScan { best, filter } => relays_nodes(
            before,
            after,
            NodeAsk::Property(best),
            filter,
            r,
        ),
        PlanView::LabelIndexScan { label, filter } => relays_nodes(
            before,
            after,
            NodeAsk::Labelled(label),
            filter,
            r,
        ),
        PlanView::FullNodeScan { filter } => relays_nodes(before, after, NodeAsk::All, filter, r),
        PlanView::FullEdgeScan { filter } => relays_edges(before, after, filter, r),
        PlanView::NodeLookup { id } => relays_node(before, after, id, r),
        PlanView::EdgeLookup { id } => relays_edge(before, after, id, r),
        _ => *after == *before,
    }
}

/// The nodes that pass a filter.
pub fn filter_nodes(nodes: Vec<Node>, filter: &NodeFilter) -> (r: Vec<Node>)
    ensures
        r@ == nodes@.filter(|n: Node| filter@.accepts(n@)),
        forall|m: Map<NodeId, NodeView>| #[trigger]
            lists_nodes(nodes@, m) ==> lists_nodes(r@, passing(m, filter@)),
{
    let ghost all = nodes@;
    let ghost p = |n: Node| filter@.accepts(n@);
    let mut out: Vec<Node> = Vec::new();
    proof {
        reveal(Seq::filter);
        assert(all.take(0).filter(p) =~= Seq::empty());
    }
    for n in it: nodes
        invariant
            it.seq() == all,
            p == (|n: Node| filter@.accepts(n@)),
            out@ == all.take(it.index() as int).filter(p),
    {
        let ghost i = it.index() as int;
        proof {
            reveal(Seq::filter);
            assert(all.take(i + 1).drop_last() =~= all.take(i));
            assert(all.take(i + 1).last() == n);
        }
        if filter.matches(&n) {
            out.push(n);
        }
    }
    proof {
        assert(all.take(all.len() as int) =~= all);
        assert forall|m: Map<NodeId, NodeView>| #[trigger] lists_nodes(all, m) implies lists_nodes(
            out@,
            passing(m, filter@),
        ) by {
            lemma_filter_lists(all, m, filter@, p);
        }
    }
    out
}

/// Filtering keeps a list free of repetition and complete.
proof fn lemma_filter_lists(
    all: Seq<Node>,
    m: Map<NodeId, NodeView>,
    f: NodeFilterView,
    p: spec_fn(Node) -> bool,
)
    requires
        lists_nodes(all, m),
        forall|n: Node| #[trigger] p(n) == f.accepts(n@),
    ensures
        lists_nodes(all.filter(p), passing(m, f)),
{
    broadcast use vstd::seq_lib::group_filter_ensures;

    let r = all.filter(p);
    lemma_filter_order(all, p);
    assert forall|i: int| 0 <= i < r.len() implies passing(m, f).contains_key((#[trigger] r[i]).id)
        && passing(m, f)[r[i].id] == r[i]@ by {
        assert(r.contains(r[i]));
        assert(all.contains(r[i]));
        let j = choose|j: int| 0 <= j < all.len() && all[j] == r[i];
        assert(m.contains_key(all[j].id));
        assert(p(r[i]));
    }
    assert forall|i: int, j: int| 0 <= i < j < r.len() implies (#[trigger] r[i]).id
        != (#[trigger] r[j]).id by {
        let (a, b) = choose|a: int, b: int|
            0 <= a < b < all.len() && all[a] == r[i] && all[b] == r[j];
        assert(all[a].id != all[b].id);
    }
    assert forall|id: NodeId| #[trigger] passing(m, f).contains_key(id) implies exists|i: int|
        0 <= i < r.len() && (#[trigger] r[i]).id == id by {
        assert(m.contains_key(id));
        let j = choose|j: int| 0 <= j < all.len() && (#[trigger] all[j]).id == id;
        assert(p(all[j]));
        assert(all.contains(all[j]));
        assert(r.contains(all[j]));
        let i = choose|i: int| 0 <= i < r.len() && r[i] == all[j];
        assert(r[i].id == id);
    }
}

/// The edges that pass a filter.
pub fn filter_edges(edges: Vec<Edge>, filter: &EdgeFilter) -> (r: Vec<Edge>)
    ensures
        r@ == edges@.filter(|e: Edge| filter@.accepts(e@)),
        forall|m: Map<EdgeId, EdgeView>| #[trigger]
            lists_edges(edges@, m) ==> lists_edges(r@, passing_edges(m, filter@)),
{
    let ghost all = edges@;
    let ghost p = |e: Edge| filter@.accepts(e@);
    let mut out: Vec<Edge> = Vec::new();
    proof {
        reveal(Seq::filter);
        assert(all.take(0).filter(p) =~= Seq::empty());
    }
    for e in it: edges
        invariant
            it.seq() == all,
            p == (|e: Edge| filter@.accepts(e@)),
            out@ == all.take(it.index() as int).filter(p),
    {
        let ghost i = it.index() as int;
        proof {
            reveal(Seq::filter);
            assert(all.take(i + 1).drop_last() =~= all.take(i));
            assert(all.take(i + 1).last() == e);
        }
        if filter.matches(&e) {
            out.push(e);
        }
    }
    proof {
        assert(all.take(all.len() as int) =~= all);
        assert forall|m: Map<EdgeId, EdgeView>| #[trigger] lists_edges(all, m) implies lists_edges(
            out@,
            passing_edges(m, filter@),
        ) by {
            lemma_filter_lists_edges(all, m, filter@, p);
        }
    }
    out
}

proof fn lemma_filter_lists_edges(
    all: Seq<Edge>,
    m: Map<EdgeId, EdgeView>,
    f: EdgeFilterView,
    p: spec_fn(Edge) -> bool,
)
    requires
        lists_edges(all, m),
        forall|e: Edge| #[trigger] p(e) == f.accepts(e@),
    ensures
        lists_edges(all.filter(p), passing_edges(m, f)),
{
    broadcast use vstd::seq_lib::group_filter_ensures;

    let r = all.filter(p);
    lemma_filter_order(all, p);
    assert forall|i: int| 0 <= i < r.len() implies passing_edges(m, f).contains_key(
        (#[trigger] r[i]).id,
    ) && passing_edges(m, f)[r[i].id] == r[i]@ by {
        assert(r.contains(r[i]));
        assert(all.contains(r[i]));
        let j = choose|j: int| 0 <= j < all.len() && all[j] == r[i];
        assert(m.contains_key(all[j].id));
        assert(p(r[i]));
    }
    assert forall|i: int, j: int| 0 <= i < j < r.len() implies (#[trigger] r[i]).id
        != (#[trigger] r[j]).id by {
        let (a, b) = choose|a: int, b: int|
            0 <= a < b < all.len() && all[a] == r[i] && all[b] == r[j];
        assert(all[a].id != all[b].id);
    }
    assert forall|id: EdgeId| #[trigger] passing_edges(m, f).contains_key(id) implies exists|i: int|
        0 <= i < r.len() && (#[trigger] r[i]).id == id by {
        assert(m.contains_key(id));
        let j = choose|j: int| 0 <= j < all.len() && (#[trigger] all[j]).id == id;
        assert(p(all[j]));
        assert(all.contains(all[j]));
        assert(r.contains(all[j]));
        let i = choose|i: int| 0 <= i < r.len() && r[i] == all[j];
        assert(r[i].id == id);
    }
}

fn pass_nodes(given: Result<Vec<Node>, GraphError>, filter: &NodeFilter) -> (r: Result<
    QueryResult,
    GraphError,
>)
    ensures
        passes_nodes(given, filter@, r),
        given is Ok == r is Ok,
        forall|m: Map<NodeId, NodeView>|
            given is Ok && #[trigger] lists_nodes(given->Ok_0@, m) ==> r->Ok_0 is Nodes
                && lists_nodes(r->Ok_0->Nodes_0@, passing(m, filter@)),
{
    match given {
        Ok(nodes) => Ok(QueryResult::Nodes(filter_nodes(nodes, filter))),
        Err(e) => Err(e),
    }
}

/// Plans and runs a command.
pub fn execute<C: DatabaseContext>(command: QueryCommand, ctx: &mut C) -> (r: Result<
    QueryResult,
    GraphError,
>)
    requires
        old(ctx).valid(),
    ensures
        final(ctx).valid(),
        final(ctx).only_read_since(old(ctx)),
        final(ctx).contents().structure == old(ctx).contents().structure,
        final(ctx).unfailing() == old(ctx).unfailing(),
        final(ctx).scan_refusal() == old(ctx).scan_refusal(),
        old(ctx).steady() ==> final(ctx).steady() && final(ctx).contents() == old(ctx).contents(),
        relays(old(ctx), final(ctx), plan_of(command@, old(ctx).contents().stats()), r),
        r matches Ok(res) ==> answered(
            old(ctx).steady(),
            old(ctx).contents(),
            plan_of(command@, old(ctx).contents().stats()),
            res,
        ),
        reads_nothing(plan_of(command@, old(ctx).contents().stats())) ==> r is Ok,
        settles(
            refusal(
                old(ctx).contents(),
                old(ctx).scan_refusal(),
                plan_of(command@, old(ctx).contents().stats()),
            ),
            old(ctx).unfailing(),
            r,
        ),
{
    let stats = ctx.stats();
    let plan = QueryPlanner::plan(command, &stats);
    execute_plan(plan, ctx)
}

/// Plans and runs a command, and gives the plan as well.
pub fn execute_with_explain<C: DatabaseContext>(command: QueryCommand, ctx: &mut C) -> (r: Result<
    (QueryResult, ExecutionPlan),
    GraphError,
>)
    requires
        old(ctx).valid(),
    ensures
        final(ctx).valid(),
        final(ctx).only_read_since(old(ctx)),
        final(ctx).contents().structure == old(ctx).contents().structure,
        final(ctx).unfailing() == old(ctx).unfailing(),
        final(ctx).scan_refusal() == old(ctx).scan_refusal(),
        old(ctx).steady() ==> final(ctx).steady() && final(ctx).contents() == old(ctx).contents(),
        relays(
            old(ctx),
            final(ctx),
            plan_of(command@, old(ctx).contents().stats()),
            match r {
                Ok((res, _)) => Ok(res),
                Err(e) => Err(e),
            },
        ),
        r matches Ok((res, plan)) ==> {
            &&& plan@ == plan_of(command@, old(ctx).contents().stats())
            &&& answered(old(ctx).steady(), old(ctx).contents(), plan@, res)
        },
        reads_nothing(plan_of(command@, old(ctx).contents().stats())) ==> r is Ok,
        settles(
            refusal(
                old(ctx).contents(),
                old(ctx).scan_refusal(),
                plan_of(command@, old(ctx).contents().stats()),
            ),
            old(ctx).unfailing(),
            r,
        ),
{
    let stats = ctx.stats();
    let plan = QueryPlanner::plan(command, &stats);
    match execute_plan(plan.clone(), ctx) {
        Ok(result) => Ok((result, plan)),
        Err(e) => Err(e),
    }
}

/// Runs a plan.
pub fn execute_plan<C: DatabaseContext>(plan: ExecutionPlan, ctx: &mut C) -> (r: Result<
    QueryResult,
    GraphError,
>)
    requires
        old(ctx).valid(),
    ensures
        final(ctx).valid(),
        final(ctx).only_read_since(old(ctx)),
        final(ctx).contents().structure == old(ctx).contents().structure,
        final(ctx).unfailing() == old(ctx).unfailing(),
        final(ctx).scan_refusal() == old(ctx).scan_refusal(),
        old(ctx).steady() ==> final(ctx).steady() && final(ctx).contents() == old(ctx).contents(),
        relays(old(ctx), final(ctx), plan@, r),
        r matches Ok(res) ==> answered(old(ctx).steady(), old(ctx).contents(), plan@, res),
        reads_nothing(plan@) ==> r is Ok,
        settles(
            refusal(old(ctx).contents(), old(ctx).scan_refusal(), plan@),
            old(ctx).unfailing(),
            r,
        ),
{
    proof {
        ctx.lemma_no_read();
    }
    match plan {
        ExecutionPlan::PropertyIndexScan { field, op, value, remaining_filter } => {
            let given = ctx.get_nodes_by_property(field.as_str(), &op, &value);
            pass_nodes(given, &remaining_filter)
        },
        ExecutionPlan::LabelIndexScan { label, remaining_filter } => {
            let given = ctx.get_nodes_by_label(label.as_str());
            pass_nodes(given, &remaining_filter)
        },
        ExecutionPlan::FullNodeScan { filter } => {
            let given = ctx.get_all_nodes();
            pass_nodes(given, &filter)
        },
        ExecutionPlan::FullEdgeScan { filter } => {
            match ctx.get_all_edges() {
                Ok(all) => Ok(QueryResult::Edges(filter_edges(all, &filter))),
                Err(e) => Err(e),
            }
        },
        ExecutionPlan::NodeLookup { id } => {
            match ctx.get_node(id) {
                Ok(o) => Ok(QueryResult::SingleNode(o)),
                Err(e) => Err(e),
            }
        },
        ExecutionPlan::EdgeLookup { id } => {
            match ctx.get_edge(id) {
                Ok(o) => Ok(QueryResult::SingleEdge(o)),
                Err(e) => Err(e),
            }
        },
        ExecutionPlan::Traverse { kind, start } => {
            let ids = match kind {
                TraversalKind::Bfs => ctx.traverse_bfs(start),
                TraversalKind::Dfs => ctx.traverse_dfs(start),
            };
            Ok(QueryResult::Traversal(ids))
        },
        ExecutionPlan::ShortestPath { start, goal } => {
            match ctx.shortest_path_dijkstra(start, goal) {
                Some((nodes, total_weight)) => Ok(QueryResult::Path { nodes, total_weight }),
                None => Ok(QueryResult::Empty),
            }
        },
        ExecutionPlan::CountNodes => Ok(QueryResult::Count(ctx.node_count())),
        ExecutionPlan::CountEdges => Ok(QueryResult::Count(ctx.edge_count())),
    }
}

} // verus!
