//! What a query gives back, in terms of what the database holds.

use crate::algorithms::bfs_laws::{law_bfs_level_order, level_order};
use crate::algorithms::dfs::{goes_on, law_dfs_goes_deep, law_dfs_visits_reachable};
use crate::algorithms::route::{
    lemma_route_walk, route_between, route_nodes, route_weight, weights_non_negative,
};
use crate::algorithms::walk::{has_edge, reachable};
use crate::float::{lemma_round_units, lemma_units_monotone, Float64};
use crate::model::edge_id::EdgeId;
use crate::model::node_id::NodeId;
use crate::ports::engine::Neighbor;
use crate::ports::query_context::ContextView;
use crate::query::ast::{CommandView, EdgeFilterView, NodeFilterView, TraversalKind};
use crate::query::executor::{answers, passing, passing_edges};
use crate::query::plan_laws::law_plan_keeps_meaning;
use crate::query::planner::plan_of;
use crate::query::result::QueryResult;
use vstd::prelude::*;

verus! {

/// A match of nodes gives the nodes that pass the filter, all of them, each once and as
/// it is, whatever plan was chosen.
pub proof fn law_nodes_that_pass_are_given(c: ContextView, f: NodeFilterView, r: QueryResult)
    requires
        answers(c, plan_of(CommandView::MatchNodes(f), c.stats()), r),
        forall|id: NodeId| #[trigger] c.nodes.contains_key(id) ==> c.nodes[id].id == id,
    ensures
        r is Nodes,
        forall|i: int|
            0 <= i < r->Nodes_0@.len() ==> {
                &&& c.nodes.contains_key((#[trigger] r->Nodes_0@[i]).id)
                &&& r->Nodes_0@[i]@ == c.nodes[r->Nodes_0@[i].id]
                &&& f.accepts(r->Nodes_0@[i]@)
            },
        forall|i: int, j: int|
            0 <= i < j < r->Nodes_0@.len() ==> (#[trigger] r->Nodes_0@[i]).id != (
            #[trigger] r->Nodes_0@[j]).id,
        forall|id: NodeId| #[trigger]
            c.nodes.contains_key(id) && f.accepts(c.nodes[id]) ==> exists|i: int|
                0 <= i < r->Nodes_0@.len() && (#[trigger] r->Nodes_0@[i]).id == id,
{
    law_plan_keeps_meaning(c, f);
    let v = r->Nodes_0@;
    let m = passing(c.nodes, f);
    assert forall|id: NodeId| #[trigger]
        c.nodes.contains_key(id) && f.accepts(c.nodes[id]) implies exists|i: int|
        0 <= i < v.len() && (#[trigger] v[i]).id == id by {
        assert(m.contains_key(id));
    }
}

/// A match of edges gives the edges that pass the filter, all of them, each once and as
/// it is.
pub proof fn law_edges_that_pass_are_given(c: ContextView, f: EdgeFilterView, r: QueryResult)
    requires
        answers(c, plan_of(CommandView::MatchEdges(f), c.stats()), r),
    ensures
        r is Edges,
        forall|i: int|
            0 <= i < r->Edges_0@.len() ==> {
                &&& c.edges.contains_key((#[trigger] r->Edges_0@[i]).id)
                &&& r->Edges_0@[i]@ == c.edges[r->Edges_0@[i].id]
                &&& f.accepts(r->Edges_0@[i]@)
            },
        forall|i: int, j: int|
            0 <= i < j < r->Edges_0@.len() ==> (#[trigger] r->Edges_0@[i]).id != (
            #[trigger] r->Edges_0@[j]).id,
        forall|id: EdgeId| #[trigger]
            c.edges.contains_key(id) && f.accepts(c.edges[id]) ==> exists|i: int|
                0 <= i < r->Edges_0@.len() && (#[trigger] r->Edges_0@[i]).id == id,
{
    let v = r->Edges_0@;
    let m = passing_edges(c.edges, f);
    assert forall|id: EdgeId| #[trigger]
        c.edges.contains_key(id) && f.accepts(c.edges[id]) implies exists|i: int|
        0 <= i < v.len() && (#[trigger] v[i]).id == id by {
        assert(m.contains_key(id));
    }
}

/// A query for one node or edge gives it where it is, and nothing where it is not.
pub proof fn law_lookup_gives_what_is_there(
    c: ContextView,
    node: NodeId,
    edge: EdgeId,
    r: QueryResult,
    s: QueryResult,
)
    requires
        answers(c, plan_of(CommandView::GetNode(node), c.stats()), r),
        answers(c, plan_of(CommandView::GetEdge(edge), c.stats()), s),
    ensures
        r is SingleNode,
        c.nodes.contains_key(node) <==> r->SingleNode_0 is Some,
        c.nodes.contains_key(node) ==> r->SingleNode_0->0@ == c.nodes[node],
        s is SingleEdge,
        c.edges.contains_key(edge) <==> s->SingleEdge_0 is Some,
        c.edges.contains_key(edge) ==> s->SingleEdge_0->0@ == c.edges[edge],
{
}

/// A count gives the number of nodes, or the number of edges.
pub proof fn law_counts_are_numbers(c: ContextView, r: QueryResult, s: QueryResult)
    requires
        answers(c, plan_of(CommandView::CountNodes, c.stats()), r),
        answers(c, plan_of(CommandView::CountEdges, c.stats()), s),
        c.structure.outgoing.dom() == c.nodes.dom(),
        c.structure.endpoints.dom() == c.edges.dom(),
    ensures
        r is Count,
        r->Count_0 == c.nodes.dom().len(),
        s is Count,
        s->Count_0 == c.edges.dom().len(),
{
}

/// A breadth-first traversal gives the nodes within reach level by level; a depth-first
/// one goes on from the latest node that leads on. Where the start is not there, neither
/// gives anything.
pub proof fn law_traversals_visit_what_is_in_reach(
    c: ContextView,
    start: NodeId,
    r: QueryResult,
    s: QueryResult,
)
    requires
        c.structure.finite(),
        answers(c, plan_of(CommandView::Traverse { kind: TraversalKind::Bfs, start }, c.stats()), r),
        answers(c, plan_of(CommandView::Traverse { kind: TraversalKind::Dfs, start }, c.stats()), s),
    ensures
        r is Traversal,
        s is Traversal,
        c.structure.outgoing.contains_key(start) ==> level_order(
            c.structure,
            start,
            r->Traversal_0@,
        ),
        c.structure.outgoing.contains_key(start) ==> {
            let order = s->Traversal_0@;
            &&& order.len() > 0
            &&& order[0] == start
            &&& order.no_duplicates()
            &&& forall|x: NodeId| #[trigger]
                order.contains(x) <==> reachable(c.structure, start, x)
            &&& forall|k: int|
                0 < k < order.len() ==> goes_on(c.structure, #[trigger] order.take(k), order[k])
        },
        !c.structure.outgoing.contains_key(start) ==> r->Traversal_0@.len() == 0
            && s->Traversal_0@.len() == 0,
{
    if c.structure.outgoing.contains_key(start) {
        law_bfs_level_order(c.structure, start);
        law_dfs_visits_reachable(c.structure, start);
        let order = s->Traversal_0@;
        assert forall|k: int| 0 < k < order.len() implies goes_on(
            c.structure,
            #[trigger] order.take(k),
            order[k],
        ) by {
            law_dfs_goes_deep(c.structure, start, k);
        }
    }
}

/// A shortest path leads from the start to the goal along edges, its weight is that of
/// the edges that it takes, and no other way weighs less.
pub proof fn law_path_is_shortest(
    c: ContextView,
    start: NodeId,
    goal: NodeId,
    r: QueryResult,
    other: Seq<Neighbor>,
)
    requires
        weights_non_negative(c.structure),
        answers(c, plan_of(CommandView::ShortestPath { start, goal }, c.stats()), r),
        route_between(c.structure, other, start, goal),
    ensures
        r matches QueryResult::Path { nodes, total_weight } ==> {
            &&& nodes@.len() > 0
            &&& nodes@[0] == start
            &&& nodes@.last() == goal
            &&& nodes@.no_duplicates()
            &&& forall|i: int|
                0 <= i < nodes@.len() - 1 ==> has_edge(
                    c.structure,
                    #[trigger] nodes@[i],
                    nodes@[i + 1],
                )
            &&& !Float64::lt(route_weight(other), total_weight)
            &&& exists|taken: Seq<Neighbor>|
                {
                    &&& #[trigger] route_between(c.structure, taken, start, goal)
                    &&& route_nodes(start, taken) == nodes@
                    &&& route_weight(taken) == total_weight
                }
        },
        r is Path || r is Empty,
        !c.structure.outgoing.contains_key(start) || !c.structure.outgoing.contains_key(goal)
            ==> r is Empty,
        c.structure.outgoing.contains_key(start) && c.structure.outgoing.contains_key(goal)
            && route_weight(other).finite() ==> r is Path,
{
    if r is Path {
        let nodes = r->Path_nodes@;
        let taken = choose|taken: Seq<Neighbor>| #[trigger]
            route_between(c.structure, taken, start, goal) && nodes == route_nodes(start, taken)
                && r->total_weight == route_weight(taken);
        lemma_route_walk(c.structure, start, taken);
    }
}

/// The weight of a way along one edge is the weight of that edge, and a way that goes on
/// along an edge that weighs something does not weigh less.
pub proof fn law_way_weighs_its_edges(n: Neighbor, r: Seq<Neighbor>, start: NodeId)
    requires
        n.weight.non_negative(),
        route_weight(r).positive_sign(),
    ensures
        Float64::same(route_weight(seq![n]), n.weight),
        !Float64::lt(route_weight(r.push(n)), route_weight(r)),
        route_nodes(start, r.push(n)) == route_nodes(start, r).push(n.node_id),
        route_nodes(start, Seq::empty()) == seq![start],
{
    assert(r.push(n).drop_last() =~= r);
    Float64::lemma_sum_grows(route_weight(r), n.weight);
    let one = seq![n];
    assert(one.drop_last() =~= Seq::empty());
    reveal_with_fuel(route_weight, 2);
    law_sum_with_zero(n.weight);
}

/// Adding zero changes nothing.
pub proof fn law_sum_with_zero(w: Float64)
    requires
        w.non_negative(),
    ensures
        Float64::same(Float64::sum(Float64::of_bits(0), w), w),
{
    Float64::lemma_of_bits(0);
    lemma_round_units(w.magnitude());
    lemma_round_units(0);
    if w.finite() {
        lemma_units_monotone(0, w.magnitude());
        Float64::lemma_of_bits(w.magnitude() as u64);
    }
}

} // verus!
