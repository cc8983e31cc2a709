//! Shortest paths by Dijkstra's method.
//!
//! The method is for graphs in which no edge has a negative weight.

use crate::algorithms::frontier::{before, Frontier, HeapEntry};
use crate::algorithms::route::{
    is_route, lemma_route_walk, lemma_route_weight_sign, lemma_step_weight, lemma_zero,
    route_between, route_end, route_nodes, route_weight, weights_non_negative,
};
use crate::algorithms::walk::{
    has_edge, is_walk, lemma_targets, lemma_targets_in_universe, lemma_universe_finite, universe,
};
use crate::collections::id_map::IdMap;
use crate::float::{Float64, INFINITY_BITS};
use crate::model::node_id::NodeId;
use crate::ports::algorithm::ShortestPathAlgorithm;
use crate::ports::engine::{EngineView, GraphEnginePort, Neighbor};
use vstd::multiset::Multiset;
use vstd::prelude::*;

verus! {

/// Dijkstra's method with a frontier ordered by distance.
pub struct Dijkstra;

/// Whether a path and its weight are those of a lightest route, and the path visits
/// no node twice.
pub open spec fn lightest(
    g: EngineView,
    start: NodeId,
    goal: NodeId,
    path: Seq<NodeId>,
    weight: Float64,
) -> bool {
    &&& exists|r: Seq<Neighbor>| #[trigger]
        route_between(g, r, start, goal) && path == route_nodes(start, r) && weight == route_weight(
            r,
        )
    &&& path.no_duplicates()
    &&& forall|r: Seq<Neighbor>| #[trigger]
        route_between(g, r, start, goal) ==> !Float64::lt(route_weight(r), weight)
}

// ------------------------------------------------------------------ the search

/// The state of a search.
struct Search {
    /// The least distance found for each node.
    dist: Map<NodeId, Float64>,
    /// The node from which each node was found.
    pred: Map<NodeId, NodeId>,
    /// What waits to be expanded.
    heap: Multiset<HeapEntry>,
    /// The nodes that have been expanded.
    settled: Set<NodeId>,
    /// The route by which each node was found.
    route: Map<NodeId, Seq<Neighbor>>,
    /// The distance up to which nodes have been expanded.
    mark: nat,
    /// The node that is being expanded.
    cur: NodeId,
    /// How many of its edges have been looked at.
    upto: int,
}

spec fn found_at(dist: Map<NodeId, Float64>, id: NodeId) -> nat {
    if dist.contains_key(id) {
        dist[id].magnitude()
    } else {
        INFINITY_BITS as nat
    }
}

impl Search {
    #[verifier::opaque]
    spec fn routes_fit(self, g: EngineView, start: NodeId) -> bool {
        &&& self.dist.contains_key(start)
        &&& self.dist[start] == Float64::of_bits(0)
        &&& self.route[start] == Seq::<Neighbor>::empty()
        &&& forall|v: NodeId| #[trigger]
            self.dist.contains_key(v) ==> {
                &&& self.dist[v].positive_sign()
                &&& is_route(g, start, self.route[v])
                &&& route_end(start, self.route[v]) == v
                &&& route_weight(self.route[v]) == self.dist[v]
                &&& self.route[v].len() <= self.settled.len()
                &&& v == start || self.dist[v].magnitude() < INFINITY_BITS
                &&& v != start ==> {
                    &&& self.pred.contains_key(v)
                    &&& self.settled.contains(self.pred[v])
                    &&& self.route[v].len() > 0
                    &&& self.route[v].drop_last() == self.route[self.pred[v]]
                }
            }
        &&& self.settled.finite()
        &&& forall|u: NodeId| #[trigger]
            self.settled.contains(u) ==> self.dist.contains_key(u) && self.route[u].len()
                < self.settled.len() && self.dist[u].magnitude() <= self.mark
    }

    #[verifier::opaque]
    spec fn edges_relaxed(self, g: EngineView) -> bool {
        forall|u: NodeId, k: int|
            self.settled.contains(u) && 0 <= k < g.out_of(u).len() && !(u == self.cur && k
                >= self.upto) ==> found_at(self.dist, (#[trigger] g.out_of(u)[k]).node_id)
                <= Float64::sum(self.dist[u], g.out_of(u)[k].weight).magnitude()
    }

    #[verifier::opaque]
    spec fn heap_fits(self) -> bool {
        &&& forall|v: NodeId| #[trigger]
            self.dist.contains_key(v) && !self.settled.contains(v) ==> self.heap.contains(
                HeapEntry { distance: self.dist[v], node_id: v },
            )
        &&& forall|e: HeapEntry| #[trigger]
            self.heap.contains(e) ==> {
                &&& self.dist.contains_key(e.node_id)
                &&& e.distance.positive_sign()
                &&& self.dist[e.node_id].magnitude() <= e.distance.magnitude()
                &&& self.mark <= e.distance.magnitude()
            }
    }

    /// Every route leads over nodes that have been expanded, and visits none twice.
    #[verifier::opaque]
    spec fn routes_simple(self, start: NodeId) -> bool {
        forall|v: NodeId| #[trigger]
            self.dist.contains_key(v) ==> simple_over(self.settled, route_nodes(start, self.route[v]))
    }

    spec fn valid(self, g: EngineView, start: NodeId) -> bool {
        &&& self.routes_fit(g, start)
        &&& self.edges_relaxed(g)
        &&& self.heap_fits()
        &&& self.routes_simple(start)
    }
}

/// Whether nodes are without repetition and all but the last in a set.
spec fn simple_over(set: Set<NodeId>, nodes: Seq<NodeId>) -> bool {
    &&& nodes.no_duplicates()
    &&& forall|i: int| 0 <= i < nodes.len() - 1 ==> set.contains(#[trigger] nodes[i])
}

proof fn lemma_simple_in_more(set: Set<NodeId>, id: NodeId, nodes: Seq<NodeId>)
    requires
        simple_over(set, nodes),
    ensures
        simple_over(set.insert(id), nodes),
{
}

/// One step from a node of a set to one outside of it leaves nodes without
/// repetition.
proof fn lemma_simple_push(set: Set<NodeId>, nodes: Seq<NodeId>, id: NodeId)
    requires
        simple_over(set, nodes),
        nodes.len() > 0,
        set.contains(nodes.last()),
        !set.contains(id),
    ensures
        simple_over(set, nodes.push(id)),
{
    let all = nodes.push(id);
    assert forall|i: int| 0 <= i < all.len() - 1 implies set.contains(#[trigger] all[i]) by {
        if i < nodes.len() - 1 {
            assert(set.contains(nodes[i]));
        }
    }
    assert forall|i: int, j: int| 0 <= i < all.len() && 0 <= j < all.len() && i != j implies all[i]
        != all[j] by {
        if i < nodes.len() && j < nodes.len() {
            assert(nodes[i] != nodes[j]);
        } else if i < nodes.len() {
            assert(set.contains(all[i]));
        } else {
            assert(set.contains(all[j]));
        }
    }
}

proof fn lemma_begin(g: EngineView, start: NodeId) -> (s: Search)
    ensures
        s.valid(g, start),
        s.dist == Map::<NodeId, Float64>::empty().insert(start, Float64::of_bits(0)),
        s.pred == Map::<NodeId, NodeId>::empty(),
        s.heap == Multiset::<HeapEntry>::empty().insert(
            HeapEntry { distance: Float64::of_bits(0), node_id: start },
        ),
        s.settled == Set::<NodeId>::empty(),
        s.upto == g.out_of(s.cur).len(),
{
    reveal(Search::routes_fit);
    reveal(Search::edges_relaxed);
    reveal(Search::heap_fits);
    reveal(Search::routes_simple);
    lemma_zero();
    Search {
        dist: Map::<NodeId, Float64>::empty().insert(start, Float64::of_bits(0)),
        pred: Map::empty(),
        heap: Multiset::empty().insert(
            HeapEntry { distance: Float64::of_bits(0), node_id: start },
        ),
        settled: Set::empty(),
        route: Map::<NodeId, Seq<Neighbor>>::empty().insert(start, Seq::empty()),
        mark: 0,
        cur: start,
        upto: g.out_of(start).len() as int,
    }
}

/// A lower bound on the weight of every route, from the nodes that wait.
proof fn lemma_lower_bound(g: EngineView, start: NodeId, s: Search, q: Seq<Neighbor>, bound: nat)
    requires
        weights_non_negative(g),
        s.valid(g, start),
        s.upto == g.out_of(s.cur).len(),
        is_route(g, start, q),
        bound <= INFINITY_BITS,
        forall|v: NodeId| #[trigger]
            s.dist.contains_key(v) && !s.settled.contains(v) ==> s.dist[v].magnitude() >= bound,
    ensures
        (s.settled.contains(route_end(start, q)) && s.dist[route_end(start, q)].magnitude()
            <= route_weight(q).magnitude()) || route_weight(q).magnitude() >= bound,
    decreases q.len(),
{
    reveal(Search::routes_fit);
    lemma_zero();
    if q.len() > 0 {
        let p = q.drop_last();
        let n = q.last();
        let u = route_end(start, p);
        lemma_lower_bound(g, start, s, p, bound);
        lemma_route_weight_sign(g, start, p);
        lemma_step_weight(g, u, n);
        Float64::lemma_sum_grows(route_weight(p), n.weight);
        if s.settled.contains(u) && s.dist[u].magnitude() <= route_weight(p).magnitude() {
            let list = g.out_of(u);
            let k = choose|k: int| 0 <= k < list.len() && list[k] == n;
            assert(s.dist.contains_key(u));
            Float64::lemma_sum_monotone(s.dist[u], route_weight(p), n.weight);
            assert(found_at(s.dist, g.out_of(u)[k].node_id) <= Float64::sum(
                s.dist[u],
                g.out_of(u)[k].weight,
            ).magnitude()) by {
                reveal(Search::edges_relaxed);
            }
        }
    }
}

/// Taking an outdated entry out changes nothing else.
proof fn lemma_skip(g: EngineView, start: NodeId, s: Search, e: HeapEntry) -> (t: Search)
    requires
        s.valid(g, start),
        s.heap.contains(e),
        Float64::lt(s.dist[e.node_id], e.distance),
    ensures
        t == (Search { heap: s.heap.remove(e), ..s }),
        t.valid(g, start),
{
    reveal(Search::heap_fits);
    reveal(Search::routes_fit);
    reveal(Search::edges_relaxed);
    let t = Search { heap: s.heap.remove(e), ..s };
    assert(t.routes_simple(start)) by {
        reveal(Search::routes_simple);
    }
    assert forall|x: HeapEntry| #[trigger] t.heap.contains(x) implies s.heap.contains(x) by {}
    assert forall|v: NodeId| #[trigger] t.dist.contains_key(v) && !t.settled.contains(
        v,
    ) implies t.heap.contains(HeapEntry { distance: t.dist[v], node_id: v }) by {
        let f = HeapEntry { distance: s.dist[v], node_id: v };
        assert(s.heap.contains(f));
        assert(f != e);
    }
    t
}

/// Taking the first entry out to expand its node.
proof fn lemma_settle(g: EngineView, start: NodeId, s: Search, e: HeapEntry) -> (t: Search)
    requires
        s.valid(g, start),
        s.upto == g.out_of(s.cur).len(),
        s.heap.contains(e),
        s.dist[e.node_id].magnitude() >= e.distance.magnitude(),
        forall|x: HeapEntry| #[trigger] s.heap.contains(x) ==> !before(x, e),
    ensures
        t.dist == s.dist,
        t.pred == s.pred,
        t.heap == s.heap.remove(e),
        t.settled == s.settled.insert(e.node_id),
        t.cur == e.node_id,
        t.upto == 0,
        t.mark == e.distance.magnitude(),
        e.distance == s.dist[e.node_id],
        t.valid(g, start),
{
    reveal(Search::heap_fits);
    reveal(Search::routes_fit);
    reveal(Search::edges_relaxed);
    let id = e.node_id;
    let t = Search {
        heap: s.heap.remove(e),
        settled: s.settled.insert(id),
        cur: id,
        upto: 0,
        mark: e.distance.magnitude(),
        ..s
    };
    assert(e.distance == s.dist[id]) by {
        e.distance.lemma_same_bits(s.dist[id]);
    }
    assert(s.settled.len() <= t.settled.len());
    assert(t.routes_simple(start)) by {
        reveal(Search::routes_simple);
        assert forall|v: NodeId| #[trigger] t.dist.contains_key(v) implies simple_over(
            t.settled,
            route_nodes(start, t.route[v]),
        ) by {
            lemma_simple_in_more(s.settled, id, route_nodes(start, s.route[v]));
        }
    }
    assert forall|v: NodeId| #[trigger] t.dist.contains_key(v) && !t.settled.contains(
        v,
    ) implies t.heap.contains(HeapEntry { distance: t.dist[v], node_id: v }) by {
        let f = HeapEntry { distance: s.dist[v], node_id: v };
        assert(s.heap.contains(f));
    }
    assert forall|x: HeapEntry| #[trigger] t.heap.contains(x) implies t.mark
        <= x.distance.magnitude() by {
        assert(s.heap.contains(x));
        assert(!before(x, e));
    }
    assert forall|x: HeapEntry| #[trigger] t.heap.contains(x) implies s.heap.contains(x) by {}
    assert forall|u: NodeId| #[trigger] t.settled.contains(u) implies t.dist.contains_key(u)
        && t.route[u].len() < t.settled.len() && t.dist[u].magnitude() <= t.mark by {
        if u != id {
            assert(s.settled.contains(u));
        }
        if !s.settled.contains(id) {
            assert(t.settled.len() == s.settled.len() + 1);
        } else {
            assert(t.settled =~= s.settled);
        }
    }
    t
}

/// Looking at one more edge of the node that is being expanded, where it leads
/// nowhere nearer.
proof fn lemma_pass(g: EngineView, start: NodeId, s: Search) -> (t: Search)
    requires
        weights_non_negative(g),
        s.valid(g, start),
        s.settled.contains(s.cur),
        0 <= s.upto < g.out_of(s.cur).len(),
        ({
            let n = g.out_of(s.cur)[s.upto];
            let new = Float64::sum(s.dist[s.cur], n.weight);
            let known = if s.dist.contains_key(n.node_id) {
                s.dist[n.node_id]
            } else {
                Float64::of_bits(INFINITY_BITS)
            };
            !Float64::lt(new, known)
        }),
    ensures
        t == (Search { upto: s.upto + 1, ..s }),
        t.valid(g, start),
{
    reveal(Search::heap_fits);
    reveal(Search::routes_fit);
    let t = Search { upto: s.upto + 1, ..s };
    let n = g.out_of(s.cur)[s.upto];
    assert(n.weight.non_negative());
    Float64::lemma_of_bits(INFINITY_BITS);
    Float64::lemma_sum_grows(s.dist[s.cur], n.weight);
    assert(s.dist.contains_key(s.cur));
    assert(found_at(s.dist, n.node_id) <= Float64::sum(s.dist[s.cur], n.weight).magnitude());
    assert(t.edges_relaxed(g)) by {
        reveal(Search::edges_relaxed);
    }
    assert(t.routes_simple(start)) by {
        reveal(Search::routes_simple);
    }
    t
}

/// Looking at one more edge of the node that is being expanded, where it leads
/// nearer.
proof fn lemma_relax(g: EngineView, start: NodeId, s: Search) -> (t: Search)
    requires
        weights_non_negative(g),
        s.valid(g, start),
        s.settled.contains(s.cur),
        0 <= s.upto < g.out_of(s.cur).len(),
        s.dist[s.cur].magnitude() == s.mark,
        ({
            let n = g.out_of(s.cur)[s.upto];
            let new = Float64::sum(s.dist[s.cur], n.weight);
            let known = if s.dist.contains_key(n.node_id) {
                s.dist[n.node_id]
            } else {
                Float64::of_bits(INFINITY_BITS)
            };
            Float64::lt(new, known)
        }),
    ensures
        ({
            let n = g.out_of(s.cur)[s.upto];
            let new = Float64::sum(s.dist[s.cur], n.weight);
            &&& t.dist == s.dist.insert(n.node_id, new)
            &&& t.pred == s.pred.insert(n.node_id, s.cur)
            &&& t.heap == s.heap.insert(HeapEntry { distance: new, node_id: n.node_id })
        }),
        t.settled == s.settled,
        t.cur == s.cur,
        t.upto == s.upto + 1,
        t.mark == s.mark,
        t.dist[t.cur] == s.dist[s.cur],
        t.valid(g, start),
{
    reveal(Search::heap_fits);
    reveal(Search::routes_fit);
    let n = g.out_of(s.cur)[s.upto];
    let v = n.node_id;
    let new = Float64::sum(s.dist[s.cur], n.weight);
    assert(n.weight.non_negative());
    Float64::lemma_of_bits(INFINITY_BITS);
    lemma_zero();
    assert(s.dist.contains_key(s.cur));
    Float64::lemma_sum_grows(s.dist[s.cur], n.weight);
    // A node found nearer than before has not been expanded.
    assert(!s.settled.contains(v)) by {
        if s.settled.contains(v) {
            assert(s.dist[v].magnitude() <= s.mark);
        }
    }
    assert(v != start) by {
        if v == start {
            assert(s.dist[start].magnitude() == 0);
        }
    }
    let t = Search {
        dist: s.dist.insert(v, new),
        pred: s.pred.insert(v, s.cur),
        heap: s.heap.insert(HeapEntry { distance: new, node_id: v }),
        route: s.route.insert(v, s.route[s.cur].push(n)),
        upto: s.upto + 1,
        ..s
    };
    assert(g.out_of(s.cur).contains(n));
    assert(t.route[v].drop_last() =~= s.route[s.cur]);
    assert(t.routes_simple(start)) by {
        reveal(Search::routes_simple);
        assert forall|w: NodeId| #[trigger] t.dist.contains_key(w) implies simple_over(
            t.settled,
            route_nodes(start, t.route[w]),
        ) by {
            if w == v {
                let nodes = route_nodes(start, s.route[s.cur]);
                lemma_route_walk(g, start, s.route[s.cur]);
                assert(s.dist.contains_key(s.cur));
                lemma_simple_push(s.settled, nodes, v);
            } else {
                assert(s.dist.contains_key(w));
            }
        }
    }
    assert(t.routes_fit(g, start)) by {
        assert forall|w: NodeId| #[trigger] t.dist.contains_key(w) implies {
            &&& t.dist[w].positive_sign()
            &&& is_route(g, start, t.route[w])
            &&& route_end(start, t.route[w]) == w
            &&& route_weight(t.route[w]) == t.dist[w]
            &&& t.route[w].len() <= t.settled.len()
            &&& w == start || t.dist[w].magnitude() < INFINITY_BITS
            &&& w != start ==> {
                &&& t.pred.contains_key(w)
                &&& t.settled.contains(t.pred[w])
                &&& t.route[w].len() > 0
                &&& t.route[w].drop_last() == t.route[t.pred[w]]
            }
        } by {
            if w != v {
                assert(s.dist.contains_key(w));
                if w != start {
                    assert(s.settled.contains(s.pred[w]));
                }
            }
        }
        assert forall|u: NodeId| #[trigger] t.settled.contains(u) implies t.dist.contains_key(u)
            && t.route[u].len() < t.settled.len() && t.dist[u].magnitude() <= t.mark by {
            assert(s.settled.contains(u));
        }
    }
    assert(t.edges_relaxed(g)) by {
        reveal(Search::edges_relaxed);
        assert forall|u: NodeId, k: int|
            t.settled.contains(u) && 0 <= k < g.out_of(u).len() && !(u == t.cur && k
                >= t.upto) implies found_at(t.dist, (#[trigger] g.out_of(u)[k]).node_id)
            <= Float64::sum(t.dist[u], g.out_of(u)[k].weight).magnitude() by {
            assert(u != v);
            if u == s.cur && k == s.upto {
            } else {
                assert(found_at(s.dist, g.out_of(u)[k].node_id) <= Float64::sum(
                    s.dist[u],
                    g.out_of(u)[k].weight,
                ).magnitude());
                assert(found_at(t.dist, g.out_of(u)[k].node_id) <= found_at(
                    s.dist,
                    g.out_of(u)[k].node_id,
                ));
            }
        }
    }
    assert(t.heap_fits()) by {
        assert forall|w: NodeId| #[trigger] t.dist.contains_key(w) && !t.settled.contains(
            w,
        ) implies t.heap.contains(HeapEntry { distance: t.dist[w], node_id: w }) by {
            if w != v {
                assert(s.dist.contains_key(w));
            }
        }
        assert forall|e: HeapEntry| #[trigger] t.heap.contains(e) implies {
            &&& t.dist.contains_key(e.node_id)
            &&& e.distance.positive_sign()
            &&& t.dist[e.node_id].magnitude() <= e.distance.magnitude()
            &&& t.mark <= e.distance.magnitude()
        } by {
            if s.heap.contains(e) {
                assert(s.dist.contains_key(e.node_id));
            }
        }
    }
    t
}

/// When the goal comes out of the frontier its distance is the least weight of a
/// route to it.
proof fn lemma_goal_reached(
    g: EngineView,
    start: NodeId,
    goal: NodeId,
    s: Search,
    e: HeapEntry,
    path: Seq<NodeId>,
)
    requires
        weights_non_negative(g),
        s.valid(g, start),
        s.upto == g.out_of(s.cur).len(),
        !s.settled.contains(goal),
        s.heap.contains(e),
        e.node_id == goal,
        forall|x: HeapEntry| #[trigger] s.heap.contains(x) ==> !before(x, e),
        path == route_nodes(start, s.route[goal]),
    ensures
        lightest(g, start, goal, path, s.dist[goal]),
{
    reveal(Search::heap_fits);
    reveal(Search::routes_fit);
    let bound = s.dist[goal].magnitude();
    lemma_zero();
    assert(s.dist.contains_key(goal));
    assert(route_between(g, s.route[goal], start, goal));
    assert(path.no_duplicates()) by {
        reveal(Search::routes_simple);
    }
    assert forall|v: NodeId| #[trigger] s.dist.contains_key(v) && !s.settled.contains(
        v,
    ) implies s.dist[v].magnitude() >= bound by {
        let f = HeapEntry { distance: s.dist[v], node_id: v };
        assert(s.heap.contains(f));
        assert(!before(f, e));
    }
    assert forall|r: Seq<Neighbor>| #[trigger]
        route_between(g, r, start, goal) implies !Float64::lt(route_weight(r), s.dist[goal]) by {
        lemma_lower_bound(g, start, s, r, bound);
        lemma_route_weight_sign(g, start, r);
    }
}

/// When the frontier is empty, every route to a node that was not expanded is
/// infinitely heavy.
proof fn lemma_goal_missed(g: EngineView, start: NodeId, goal: NodeId, s: Search)
    requires
        weights_non_negative(g),
        s.valid(g, start),
        s.upto == g.out_of(s.cur).len(),
        !s.settled.contains(goal),
        s.heap == Multiset::<HeapEntry>::empty(),
    ensures
        forall|r: Seq<Neighbor>| #[trigger]
            route_between(g, r, start, goal) ==> !route_weight(r).finite(),
{
    reveal(Search::heap_fits);
    assert forall|v: NodeId| #[trigger] s.dist.contains_key(v) && !s.settled.contains(
        v,
    ) implies s.dist[v].magnitude() >= INFINITY_BITS by {
        assert(s.heap.contains(HeapEntry { distance: s.dist[v], node_id: v }));
    }
    assert forall|r: Seq<Neighbor>| #[trigger]
        route_between(g, r, start, goal) implies !route_weight(r).finite() by {
        lemma_lower_bound(g, start, s, r, INFINITY_BITS as nat);
    }
}

// ----------------------------------------------------------------- termination

/// How far a node's distance can still fall.
spec fn height(dist: Map<NodeId, Float64>, id: NodeId) -> nat {
    if dist.contains_key(id) {
        (dist[id].rank() + 0x1_0000_0000_0000_0000) as nat
    } else {
        (INFINITY_BITS + 0x1_0000_0000_0000_0000) as nat
    }
}

/// How far the distances of all nodes can still fall.
spec fn total_height(dist: Map<NodeId, Float64>, all: Seq<NodeId>) -> nat
    decreases all.len(),
{
    if all.len() == 0 {
        0
    } else {
        total_height(dist, all.drop_last()) + height(dist, all.last())
    }
}

proof fn lemma_height_falls(dist: Map<NodeId, Float64>, all: Seq<NodeId>, id: NodeId, d: Float64)
    requires
        height(dist.insert(id, d), id) < height(dist, id),
    ensures
        total_height(dist.insert(id, d), all) <= total_height(dist, all),
        all.contains(id) ==> total_height(dist.insert(id, d), all) < total_height(dist, all),
    decreases all.len(),
{
    if all.len() > 0 {
        let t = all.drop_last();
        lemma_height_falls(dist, t, id, d);
        if all.contains(id) && all.last() != id {
            let i = choose|i: int| 0 <= i < all.len() && all[i] == id;
            assert(t[i] == id);
        }
    }
}

// ---------------------------------------------------------------------- running

/// What holds of the search whatever the weights are.
spec fn chained(
    g: EngineView,
    start: NodeId,
    dist: Map<NodeId, Float64>,
    pred: Map<NodeId, NodeId>,
    heap: Multiset<HeapEntry>,
) -> bool {
    &&& dist.contains_key(start)
    &&& forall|v: NodeId| #[trigger] pred.contains_key(v) ==> has_edge(g, pred[v], v)
    &&& forall|e: HeapEntry| #[trigger] heap.contains(e) ==> dist.contains_key(e.node_id)
}

/// Walks back from the goal along the predecessors, at most `limit` steps, and
/// gives the nodes in forward order.
fn reconstruct_path(
    predecessor: &IdMap<NodeId, NodeId>,
    start: NodeId,
    goal: NodeId,
    limit: usize,
    Ghost(g): Ghost<EngineView>,
    Ghost(s): Ghost<Search>,
) -> (path: Vec<NodeId>)
    requires
        forall|v: NodeId| #[trigger]
            predecessor@.contains_key(v) ==> has_edge(g, predecessor@[v], v),
    ensures
        is_walk(g, path@),
        path@.last() == goal,
        s.valid(g, start) && s.pred == predecessor@ && s.dist.contains_key(goal) && s.settled.len()
            <= limit ==> path@ == route_nodes(start, s.route[goal]),
{
    let ghost fits = s.valid(g, start) && s.pred == predecessor@ && s.dist.contains_key(goal)
        && s.settled.len() <= limit;
    let mut back: Vec<NodeId> = Vec::new();
    let mut current = goal;
    let mut steps: usize = 0;
    back.push(goal);
    let ghost mut tail: Seq<NodeId> = seq![goal];
    proof {
        reveal(Search::routes_fit);
        if fits {
            assert(route_nodes(start, s.route[goal]).drop_last() + tail =~= route_nodes(
                start,
                s.route[goal],
            ));
            if current == start || steps == limit {
                assert(s.route[current].len() == 0);
            }
        }
    }
    while current != start && steps < limit
        invariant
            steps <= limit,
            fits == (s.valid(g, start) && s.pred == predecessor@ && s.dist.contains_key(goal)
                && s.settled.len() <= limit),
            forall|v: NodeId| #[trigger]
                predecessor@.contains_key(v) ==> has_edge(g, predecessor@[v], v),
            tail.len() > 0,
            tail[0] == current,
            tail.last() == goal,
            is_walk(g, tail),
            back.len() == tail.len(),
            forall|i: int| 0 <= i < tail.len() ==> #[trigger] back[tail.len() - 1 - i] == tail[i],
            fits ==> s.dist.contains_key(current) && s.route[current].len() + steps <= limit
                && route_nodes(start, s.route[goal]) == route_nodes(
                start,
                s.route[current],
            ).drop_last() + tail,
            fits && (current == start || steps == limit) ==> tail == route_nodes(
                start,
                s.route[goal],
            ),
        ensures
            tail.len() > 0,
            tail.last() == goal,
            is_walk(g, tail),
            back.len() == tail.len(),
            forall|i: int| 0 <= i < tail.len() ==> #[trigger] back[tail.len() - 1 - i] == tail[i],
            fits ==> tail == route_nodes(start, s.route[goal]),
        decreases limit - steps,
    {
        proof {
            reveal(Search::routes_fit);
        }
        match predecessor.get(current) {
            Some(prev) => {
                let ghost later = tail;
                proof {
                    tail = seq![*prev] + later;
                    assert forall|i: int| 0 <= i < tail.len() - 1 implies has_edge(
                        g,
                        #[trigger] tail[i],
                        tail[i + 1],
                    ) by {
                        if i > 0 {
                            assert(tail[i] == later[i - 1] && tail[i + 1] == later[i - 1 + 1]);
                        }
                    }
                    if fits {
                        let r = s.route[current];
                        assert(r.drop_last() == s.route[*prev]);
                        assert(s.settled.contains(*prev));
                        let before = route_nodes(start, r.drop_last());
                        lemma_route_walk(g, start, r.drop_last());
                        assert(before.last() == *prev);
                        assert(before.push(current).drop_last() =~= before);
                        assert(before + later =~= before.drop_last() + tail);
                    }
                }
                current = *prev;
                back.push(current);
                steps += 1;
                proof {
                    assert forall|i: int| 0 <= i < tail.len() implies #[trigger] back[tail.len() - 1
                        - i] == tail[i] by {
                        if i > 0 {
                            assert(later[i - 1] == back[later.len() - 1 - (i - 1)]);
                        }
                    }
                }
            },
            None => {
                break;
            },
        }
        proof {
            if fits && (current == start || steps == limit) {
                assert(s.route[current].len() == 0);
                assert(route_nodes(start, s.route[current]).drop_last() =~= Seq::empty());
                assert(Seq::<NodeId>::empty() + tail =~= tail);
            }
        }
    }
    let mut path: Vec<NodeId> = Vec::new();
    let mut i: usize = back.len();
    while i > 0
        invariant
            i <= back.len(),
            back.len() == tail.len(),
            path@.len() == back.len() - i,
            forall|j: int| 0 <= j < tail.len() ==> #[trigger] back[tail.len() - 1 - j] == tail[j],
            forall|j: int| 0 <= j < path@.len() ==> #[trigger] path@[j] == tail[j],
        decreases i,
    {
        i -= 1;
        let ghost j = path@.len() as int;
        assert(back[tail.len() - 1 - j] == tail[j]);
        path.push(back[i]);
    }
    assert(path@ =~= tail);
    path
}

/// The lightest way from a node to itself is to stay.
pub proof fn law_lightest_to_itself(
    g: EngineView,
    start: NodeId,
    path: Seq<NodeId>,
    weight: Float64,
)
    requires
        lightest(g, start, start, path, weight),
    ensures
        path == seq![start],
        weight == Float64::of_bits(0),
{
    let r = choose|r: Seq<Neighbor>| #[trigger]
        route_between(g, r, start, start) && path == route_nodes(start, r) && weight == route_weight(
            r,
        );
    lemma_route_walk(g, start, r);
    if r.len() > 0 {
        assert(path[0] == start && path[path.len() - 1] == start);
    }
    assert(r.len() == 0);
}

impl ShortestPathAlgorithm for Dijkstra {
    /// Nothing is found where an end is missing. Where no weight is negative, a
    /// lightest route is found unless every route is infinitely heavy. Where a
    /// weight is negative, what is found is a walk that ends at the goal, and no
    /// more is said.
    open spec fn solves(
        &self,
        g: EngineView,
        start: NodeId,
        goal: NodeId,
        result: Option<(Seq<NodeId>, Float64)>,
    ) -> bool {
        if !g.outgoing.contains_key(start) || !g.outgoing.contains_key(goal) {
            result is None
        } else {
            match result {
                Some((path, weight)) => {
                    &&& is_walk(g, path)
                    &&& path.last() == goal
                    &&& weights_non_negative(g) ==> lightest(g, start, goal, path, weight)
                },
                None => weights_non_negative(g) ==> forall|r: Seq<Neighbor>| #[trigger]
                    route_between(g, r, start, goal) ==> !route_weight(r).finite(),
            }
        }
    }

    fn find_shortest_path<E: GraphEnginePort>(&self, engine: &E, start: NodeId, goal: NodeId) -> (r:
        Option<(Vec<NodeId>, Float64)>) {
        if !engine.contains_node(start) || !engine.contains_node(goal) {
            return None;
        }
        let ghost g = engine.graph();
        let infinity = Float64::from_bits(INFINITY_BITS);
        let zero = Float64::from_bits(0);
        let mut distance: IdMap<NodeId, Float64> = IdMap::new();
        let mut predecessor: IdMap<NodeId, NodeId> = IdMap::new();
        distance.insert(start, zero);
        let mut heap = Frontier::new();
        heap.push(HeapEntry { distance: zero, node_id: start });
        let ghost tame = weights_non_negative(g);
        let ghost all = universe(g.outgoing).to_seq();
        let ghost mut s: Search = arbitrary();
        proof {
            engine.lemma_finite();
            lemma_universe_finite(g.outgoing);
            s = lemma_begin(g, start);
            lemma_zero();
        }
        loop
            invariant
                g == engine.graph(),
                g.finite(),
                g.outgoing.contains_key(start),
                g.outgoing.contains_key(goal),
                infinity == Float64::of_bits(INFINITY_BITS),
                tame == weights_non_negative(g),
                all == universe(g.outgoing).to_seq(),
                chained(g, start, distance@, predecessor@, heap@),
                tame ==> {
                    &&& s.valid(g, start)
                    &&& s.dist == distance@
                    &&& s.pred == predecessor@
                    &&& s.heap == heap@
                    &&& s.upto == g.out_of(s.cur).len()
                    &&& !s.settled.contains(goal)
                },
            decreases total_height(distance@, all), heap@.len(),
        {
            let ghost heap_before = heap@;
            let ghost dist_before = distance@;
            let entry = match heap.pop() {
                Some(e) => e,
                None => {
                    proof {
                        if tame {
                            lemma_goal_missed(g, start, goal, s);
                        }
                    }
                    return None;
                },
            };
            let current = entry.node_id;
            let current_dist = entry.distance;
            proof {
                assert(heap_before.contains(entry));
                assert(distance@.contains_key(current));
                assert forall|x: HeapEntry| #[trigger] heap@.contains(x) implies heap_before.contains(
                    x,
                ) by {}
                assert(chained(g, start, distance@, predecessor@, heap@));
            }
            if current == goal {
                let limit: usize = distance.len();
                proof {
                    if tame {
                        lemma_settled_count(g, start, s);
                    }
                }
                let path = reconstruct_path(&predecessor, start, goal, limit, Ghost(g), Ghost(s));
                proof {
                    if tame {
                        lemma_goal_reached(g, start, goal, s, entry, path@);
                    }
                }
                match distance.get(goal) {
                    Some(total) => {
                        return Some((path, *total));
                    },
                    None => {
                        return None;
                    },
                }
            }
            let known = match distance.get(current) {
                Some(d) => *d,
                None => infinity,
            };
            if known.is_less(current_dist) {
                proof {
                    if tame {
                        assert(s.heap.contains(entry));
                        assert(known == s.dist[current]);
                        s = lemma_skip(g, start, s, entry);
                    }
                }
                continue;
            }
            proof {
                if tame {
                    assert(s.dist[current].magnitude() >= current_dist.magnitude()) by {
                        reveal(Search::heap_fits);
                        reveal(Search::routes_fit);
                    }
                    s = lemma_settle(g, start, s, entry);
                }
            }
            let neighbors = engine.neighbors_outgoing(current);
            let mut i: usize = 0;
            let ghost heap_len = heap@.len();
            while i < neighbors.len()
                invariant
                    i <= neighbors.len(),
                    neighbors@ == g.out_of(current),
                    g.finite(),
                    current != goal,
                    infinity == Float64::of_bits(INFINITY_BITS),
                    tame == weights_non_negative(g),
                    all == universe(g.outgoing).to_seq(),
                    chained(g, start, distance@, predecessor@, heap@),
                    total_height(distance@, all) < total_height(dist_before, all) || (total_height(
                        distance@,
                        all,
                    ) == total_height(dist_before, all) && heap@.len() == heap_len),
                    tame ==> {
                        &&& s.valid(g, start)
                        &&& s.dist == distance@
                        &&& s.pred == predecessor@
                        &&& s.heap == heap@
                        &&& s.cur == current
                        &&& s.upto == i
                        &&& s.settled.contains(current)
                        &&& s.mark == current_dist.magnitude()
                        &&& s.dist[current] == current_dist
                        &&& !s.settled.contains(goal)
                    },
                decreases neighbors.len() - i,
            {
                let n = neighbors[i];
                let new_dist = current_dist.plus(n.weight);
                let known = match distance.get(n.node_id) {
                    Some(d) => *d,
                    None => infinity,
                };
                proof {
                    assert(g.out_of(current)[i as int] == n);
                    lemma_targets(g.out_of(current), n.node_id);
                    lemma_targets_in_universe(g.outgoing, current);
                    assert(has_edge(g, current, n.node_id));
                }
                if new_dist.is_less(known) {
                    proof {
                        if tame {
                            s = lemma_relax(g, start, s);
                        }
                        Float64::lemma_of_bits(INFINITY_BITS);
                        lemma_height_falls(distance@, all, n.node_id, new_dist);
                        lemma_in_universe_seq(g, n.node_id);
                    }
                    distance.insert(n.node_id, new_dist);
                    predecessor.insert(n.node_id, current);
                    let ghost waiting = heap@;
                    heap.push(HeapEntry { distance: new_dist, node_id: n.node_id });
                    proof {
                        assert forall|x: HeapEntry| #[trigger] heap@.contains(x) implies waiting.contains(
                            x,
                        ) || x == (HeapEntry { distance: new_dist, node_id: n.node_id }) by {}
                    }
                } else {
                    proof {
                        if tame {
                            s = lemma_pass(g, start, s);
                        }
                    }
                }
                i += 1;
            }
        }
    }
}

/// Every node that has been expanded has a distance.
proof fn lemma_settled_count(g: EngineView, start: NodeId, s: Search)
    requires
        s.valid(g, start),
        s.dist.dom().finite(),
    ensures
        s.settled.len() <= s.dist.len(),
{
    reveal(Search::routes_fit);
    assert(s.settled.subset_of(s.dist.dom()));
    vstd::set_lib::lemma_len_subset(s.settled, s.dist.dom());
}

proof fn lemma_in_universe_seq(g: EngineView, id: NodeId)
    requires
        g.finite(),
        universe(g.outgoing).contains(id),
    ensures
        universe(g.outgoing).to_seq().contains(id),
{
    lemma_universe_finite(g.outgoing);
    universe(g.outgoing).lemma_to_seq_to_set_id();
}

} // verus!
