//! Routes along weighted edges, and their weight.

use crate::algorithms::walk::walk_between;
use crate::float::Float64;
use crate::model::node_id::NodeId;
use crate::ports::engine::{EngineView, Neighbor};
use vstd::prelude::*;

verus! {

/// The node at which a route from `start` ends.
pub open spec fn route_end(start: NodeId, r: Seq<Neighbor>) -> NodeId {
    if r.len() == 0 {
        start
    } else {
        r.last().node_id
    }
}

/// Whether each step of a route is an edge that leaves the node where the step
/// before it ended.
pub open spec fn is_route(g: EngineView, start: NodeId, r: Seq<Neighbor>) -> bool
    decreases r.len(),
{
    r.len() == 0 || (is_route(g, start, r.drop_last()) && g.out_of(
        route_end(start, r.drop_last()),
    ).contains(r.last()))
}

/// The nodes of a route, its start first.
pub open spec fn route_nodes(start: NodeId, r: Seq<Neighbor>) -> Seq<NodeId>
    decreases r.len(),
{
    if r.len() == 0 {
        seq![start]
    } else {
        route_nodes(start, r.drop_last()).push(r.last().node_id)
    }
}

/// The weights of a route added up from its start, as doubles.
pub open spec fn route_weight(r: Seq<Neighbor>) -> Float64
    decreases r.len(),
{
    if r.len() == 0 {
        Float64::of_bits(0)
    } else {
        Float64::sum(route_weight(r.drop_last()), r.last().weight)
    }
}

/// Whether no edge has a weight below zero, or one that is not a number.
pub open spec fn weights_non_negative(g: EngineView) -> bool {
    forall|id: NodeId, i: int|
        0 <= i < g.out_of(id).len() ==> (#[trigger] g.out_of(id)[i]).weight.non_negative()
}

/// Whether a route leads from one node to the other.
pub open spec fn route_between(g: EngineView, r: Seq<Neighbor>, a: NodeId, b: NodeId) -> bool {
    is_route(g, a, r) && route_end(a, r) == b
}

/// The zero distance.
pub proof fn lemma_zero()
    ensures
        Float64::of_bits(0).positive_sign(),
        Float64::of_bits(0).magnitude() == 0,
{
    Float64::lemma_of_bits(0);
}

/// The weight of a route is not below zero where no edge's is.
pub proof fn lemma_route_weight_sign(g: EngineView, start: NodeId, r: Seq<Neighbor>)
    requires
        weights_non_negative(g),
        is_route(g, start, r),
    ensures
        route_weight(r).positive_sign(),
    decreases r.len(),
{
    lemma_zero();
    if r.len() > 0 {
        let p = r.drop_last();
        lemma_route_weight_sign(g, start, p);
        lemma_step_weight(g, route_end(start, p), r.last());
        Float64::lemma_sum_grows(route_weight(p), r.last().weight);
    }
}

/// The weight of an edge of a graph without negative weights.
pub proof fn lemma_step_weight(g: EngineView, id: NodeId, n: Neighbor)
    requires
        weights_non_negative(g),
        g.out_of(id).contains(n),
    ensures
        n.weight.non_negative(),
{
    let i = choose|i: int| 0 <= i < g.out_of(id).len() && g.out_of(id)[i] == n;
    assert(g.out_of(id)[i].weight.non_negative());
}

/// The nodes of a route are a walk.
pub proof fn lemma_route_walk(g: EngineView, start: NodeId, r: Seq<Neighbor>)
    requires
        is_route(g, start, r),
    ensures
        walk_between(g, route_nodes(start, r), start, route_end(start, r)),
        route_nodes(start, r).len() == r.len() + 1,
    decreases r.len(),
{
    if r.len() > 0 {
        let p = r.drop_last();
        lemma_route_walk(g, start, p);
        let list = g.out_of(route_end(start, p));
        let i = choose|i: int| 0 <= i < list.len() && list[i] == r.last();
        assert(list[i].node_id == r.last().node_id);
        crate::algorithms::walk::lemma_walk_extend(
            g,
            route_nodes(start, p),
            start,
            route_end(start, p),
            r.last().node_id,
        );
    }
}

} // verus!
