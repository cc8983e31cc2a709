//! Depth-first traversal with an explicit stack.

use crate::algorithms::walk::{
    has_edge, is_walk, lemma_targets, lemma_universe_finite, lemma_walk_extend, reachable, targets,
    universe, walk_between,
};
use crate::collections::id_map::IdMap;
use crate::model::node_id::NodeId;
use crate::ports::algorithm::TraversalAlgorithm;
use crate::ports::engine::{EngineView, GraphEnginePort, Neighbor};
use vstd::prelude::*;

verus! {

/// Follows each branch to its end before the next.
pub struct DepthFirstSearch;

/// The nodes of a list of neighbours that have not been visited, in order.
pub open spec fn unvisited(list: Seq<Neighbor>, visited: Set<NodeId>) -> Seq<NodeId>
    decreases list.len(),
{
    if list.len() == 0 {
        Seq::empty()
    } else {
        let before = unvisited(list.drop_last(), visited);
        if visited.contains(list.last().node_id) {
            before
        } else {
            before.push(list.last().node_id)
        }
    }
}

/// Visiting from a stack: the top is visited unless it was before, and what its
/// edges lead to is put on the stack, the last on top.
pub open spec fn dfs_order(g: EngineView, stack: Seq<NodeId>, visited: Set<NodeId>) -> Seq<NodeId>
    decreases universe(g.outgoing).difference(visited).len(), stack.len(),
        when g.finite()
        via dfs_order_decreases
{
    if stack.len() == 0 {
        Seq::empty()
    } else if visited.contains(stack.last()) {
        dfs_order(g, stack.drop_last(), visited)
    } else {
        let now = visited.insert(stack.last());
        seq![stack.last()] + dfs_order(
            g,
            stack.drop_last() + unvisited(g.out_of(stack.last()), now),
            now,
        )
    }
}

proof fn lemma_unvisited(list: Seq<Neighbor>, visited: Set<NodeId>, x: NodeId)
    ensures
        unvisited(list, visited).contains(x) <==> targets(list).contains(x) && !visited.contains(
            x,
        ),
    decreases list.len(),
{
    lemma_targets(list, x);
    if list.len() > 0 {
        let t = list.drop_last();
        let before = unvisited(t, visited);
        let all = unvisited(list, visited);
        lemma_unvisited(t, visited, x);
        lemma_targets(t, x);
        if targets(t).contains(x) {
            let i = choose|i: int| 0 <= i < t.len() && (#[trigger] t[i]).node_id == x;
            assert(list[i].node_id == x);
        }
        if targets(list).contains(x) && list.last().node_id != x {
            let i = choose|i: int| 0 <= i < list.len() && (#[trigger] list[i]).node_id == x;
            assert(t[i].node_id == x);
        }
        if list.last().node_id == x {
            assert(list[list.len() - 1].node_id == x);
            if !visited.contains(x) {
                assert(all[all.len() - 1] == x);
            }
        }
        if before.contains(x) {
            let i = choose|i: int| 0 <= i < before.len() && before[i] == x;
            assert(all[i] == x);
        }
        if all.contains(x) && list.last().node_id != x {
            let i = choose|i: int| 0 <= i < all.len() && all[i] == x;
            assert(before[i] == x);
        }
    }
}

#[via_fn]
proof fn dfs_order_decreases(g: EngineView, stack: Seq<NodeId>, visited: Set<NodeId>) {
    if stack.len() > 0 && !visited.contains(stack.last()) {
        lemma_dfs_measure(g, stack, visited);
    }
}

/// Visiting a node leaves fewer nodes, or as many and a shorter stack.
proof fn lemma_dfs_measure(g: EngineView, stack: Seq<NodeId>, visited: Set<NodeId>)
    requires
        g.finite(),
        stack.len() > 0,
        !visited.contains(stack.last()),
    ensures
        ({
            let now = visited.insert(stack.last());
            let u = universe(g.outgoing);
            let rest = stack.drop_last() + unvisited(g.out_of(stack.last()), now);
            u.difference(now).len() < u.difference(visited).len() || (u.difference(now).len()
                == u.difference(visited).len() && rest.len() < stack.len())
        }),
{
    let top = stack.last();
    let now = visited.insert(top);
    let u = universe(g.outgoing);
    lemma_universe_finite(g.outgoing);
    if u.contains(top) {
        assert(u.difference(now) =~= u.difference(visited).remove(top));
    } else {
        assert(u.difference(now) =~= u.difference(visited));
        assert(!g.outgoing.contains_key(top));
        assert(g.out_of(top) =~= Seq::empty());
    }
}

impl TraversalAlgorithm for DepthFirstSearch {
    open spec fn visits(&self, g: EngineView, start: NodeId) -> Seq<NodeId> {
        if g.outgoing.contains_key(start) {
            dfs_order(g, seq![start], Set::empty())
        } else {
            Seq::empty()
        }
    }

    fn traverse<E: GraphEnginePort>(&self, engine: &E, start: NodeId) -> (r: Vec<NodeId>) {
        let mut order: Vec<NodeId> = Vec::new();
        if !engine.contains_node(start) {
            return order;
        }
        let ghost g = engine.graph();
        let mut visited: IdMap<NodeId, ()> = IdMap::new();
        let mut stack: Vec<NodeId> = Vec::new();
        stack.push(start);
        proof {
            engine.lemma_finite();
            assert(stack@ =~= seq![start]);
            assert(visited@.dom() =~= Set::empty());
        }
        let ghost goal = dfs_order(g, seq![start], Set::empty());
        assert(goal =~= order@ + dfs_order(g, stack@, visited@.dom()));
        while stack.len() > 0
            invariant
                g == engine.graph(),
                g.finite(),
                goal == order@ + dfs_order(g, stack@, visited@.dom()),
            decreases universe(g.outgoing).difference(visited@.dom()).len(), stack.len(),
        {
            let ghost stack_before = stack@;
            let ghost visited_before = visited@.dom();
            let ghost order_before = order@;
            let current = match stack.pop() {
                Some(id) => id,
                None => {
                    return order;
                },
            };
            if visited.contains_key(current) {
                continue;
            }
            visited.insert(current, ());
            order.push(current);
            let ghost now = visited_before.insert(current);
            assert(visited@.dom() =~= now);
            let neighbors = engine.neighbors_outgoing(current);
            let mut i: usize = 0;
            assert(stack@ =~= stack_before.drop_last() + unvisited(neighbors@.take(0), now));
            while i < neighbors.len()
                invariant
                    i <= neighbors.len(),
                    visited@.dom() == now,
                    stack@ == stack_before.drop_last() + unvisited(neighbors@.take(i as int), now),
                decreases neighbors.len() - i,
            {
                let next = neighbors[i].node_id;
                let ghost so_far = unvisited(neighbors@.take(i as int), now);
                proof {
                    assert(neighbors@.take(i + 1).drop_last() =~= neighbors@.take(i as int));
                    assert(neighbors@.take(i + 1).last() == neighbors@[i as int]);
                }
                if !visited.contains_key(next) {
                    stack.push(next);
                    assert(stack@ =~= stack_before.drop_last() + so_far.push(next));
                }
                i += 1;
            }
            proof {
                assert(neighbors@.take(i as int) =~= neighbors@);
                lemma_dfs_measure(g, stack_before, visited_before);
                assert(order@ + dfs_order(g, stack@, visited@.dom()) =~= order_before + (seq![
                    current,
                ] + dfs_order(g, stack@, visited@.dom())));
            }
        }
        assert(order@ + Seq::<NodeId>::empty() =~= order@);
        order
    }
}

/// What holds between two visits: `done` has been visited and `stack` waits.
spec fn in_progress(
    g: EngineView,
    start: NodeId,
    done: Seq<NodeId>,
    stack: Seq<NodeId>,
    visited: Set<NodeId>,
) -> bool {
    &&& done.no_duplicates()
    &&& forall|x: NodeId| #[trigger] visited.contains(x) <==> done.contains(x)
    &&& forall|i: int| 0 <= i < stack.len() ==> reachable(g, start, #[trigger] stack[i])
    &&& forall|i: int| 0 <= i < done.len() ==> reachable(g, start, #[trigger] done[i])
    &&& forall|x: NodeId, y: NodeId|
        done.contains(x) && #[trigger] has_edge(g, x, y) ==> visited.contains(y) || stack.contains(
            y,
        )
    &&& if done.len() > 0 {
        done[0] == start
    } else {
        stack.len() == 1 && stack[0] == start
    }
}

proof fn lemma_visit(
    g: EngineView,
    start: NodeId,
    done: Seq<NodeId>,
    stack: Seq<NodeId>,
    visited: Set<NodeId>,
)
    requires
        stack.len() > 0,
        !visited.contains(stack.last()),
        in_progress(g, start, done, stack, visited),
    ensures
        ({
            let now = visited.insert(stack.last());
            in_progress(
                g,
                start,
                done.push(stack.last()),
                stack.drop_last() + unvisited(g.out_of(stack.last()), now),
                now,
            )
        }),
{
    let top = stack.last();
    let now = visited.insert(top);
    let list = g.out_of(top);
    let fresh = unvisited(list, now);
    let stack2 = stack.drop_last() + fresh;
    let done2 = done.push(top);
    assert(reachable(g, start, stack[stack.len() - 1]));
    assert forall|x: NodeId| #[trigger] now.contains(x) <==> done2.contains(x) by {
        if done.contains(x) {
            let i = choose|i: int| 0 <= i < done.len() && done[i] == x;
            assert(done2[i] == x);
        }
        if done2.contains(x) && x != top {
            let i = choose|i: int| 0 <= i < done2.len() && done2[i] == x;
            assert(done[i] == x);
        }
        assert(done2[done.len() as int] == top);
    }
    assert(done2.no_duplicates()) by {
        assert forall|i: int, j: int| 0 <= i < j < done2.len() implies done2[i] != done2[j] by {
            if j == done.len() {
                assert(done.contains(done[i]));
                assert(visited.contains(done[i]));
            }
        }
    }
    assert forall|i: int| 0 <= i < stack2.len() implies reachable(g, start, #[trigger] stack2[i]) by {
        if i < stack.len() - 1 {
            assert(stack2[i] == stack[i]);
        } else {
            let x = stack2[i];
            assert(fresh[i - (stack.len() - 1)] == x);
            assert(fresh.contains(x));
            lemma_unvisited(list, now, x);
            lemma_targets(list, x);
            assert(has_edge(g, top, x));
            let p = choose|p: Seq<NodeId>| #[trigger] walk_between(g, p, start, top);
            lemma_walk_extend(g, p, start, top, x);
        }
    }
    assert forall|x: NodeId, y: NodeId| done2.contains(x) && #[trigger] has_edge(
        g,
        x,
        y,
    ) implies now.contains(y) || stack2.contains(y) by {
        if x == top {
            lemma_targets(list, y);
            lemma_unvisited(list, now, y);
            if fresh.contains(y) {
                let j = choose|j: int| 0 <= j < fresh.len() && fresh[j] == y;
                assert(stack2[stack.len() - 1 + j] == y);
            }
        } else {
            let i = choose|i: int| 0 <= i < done2.len() && done2[i] == x;
            assert(done[i] == x);
            assert(done.contains(x));
            if stack.contains(y) && y != top {
                let j = choose|j: int| 0 <= j < stack.len() && stack[j] == y;
                assert(stack2[j] == y);
            }
        }
    }
}

proof fn lemma_finish(
    g: EngineView,
    start: NodeId,
    done: Seq<NodeId>,
    stack: Seq<NodeId>,
    visited: Set<NodeId>,
)
    requires
        g.finite(),
        in_progress(g, start, done, stack, visited),
    ensures
        exists|all: Set<NodeId>|
            in_progress(g, start, done + dfs_order(g, stack, visited), Seq::empty(), all),
    decreases universe(g.outgoing).difference(visited).len(), stack.len(),
{
    if stack.len() == 0 {
        assert(done + dfs_order(g, stack, visited) =~= done);
        assert(stack =~= Seq::empty());
        assert(in_progress(
            g,
            start,
            done + dfs_order(g, stack, visited),
            Seq::empty(),
            visited,
        ));
    } else if visited.contains(stack.last()) {
        let rest = stack.drop_last();
        assert forall|x: NodeId, y: NodeId| done.contains(x) && #[trigger] has_edge(
            g,
            x,
            y,
        ) implies visited.contains(y) || rest.contains(y) by {
            if stack.contains(y) && y != stack.last() {
                let j = choose|j: int| 0 <= j < stack.len() && stack[j] == y;
                assert(rest[j] == y);
            }
        }
        assert(done.contains(stack.last()));
        lemma_finish(g, start, done, rest, visited);
        assert(dfs_order(g, stack, visited) == dfs_order(g, rest, visited));
    } else {
        let top = stack.last();
        let now = visited.insert(top);
        let rest = stack.drop_last() + unvisited(g.out_of(top), now);
        lemma_visit(g, start, done, stack, visited);
        lemma_dfs_measure(g, stack, visited);
        lemma_finish(g, start, done.push(top), rest, now);
        assert(done + dfs_order(g, stack, visited) =~= done.push(top) + dfs_order(g, rest, now));
    }
}

proof fn lemma_walk_done(
    g: EngineView,
    start: NodeId,
    order: Seq<NodeId>,
    all: Set<NodeId>,
    p: Seq<NodeId>,
    k: int,
)
    requires
        in_progress(g, start, order, Seq::empty(), all),
        is_walk(g, p),
        p[0] == start,
        0 <= k < p.len(),
    ensures
        order.contains(p[k]),
    decreases k,
{
    if k == 0 {
        assert(order[0] == start);
    } else {
        lemma_walk_done(g, start, order, all, p, k - 1);
        assert(has_edge(g, p[k - 1], p[k - 1 + 1]));
        assert(all.contains(p[k]));
    }
}

/// A depth-first traversal visits exactly the nodes that can be reached from the
/// start, each once, the start first.
pub proof fn law_dfs_visits_reachable(g: EngineView, start: NodeId)
    requires
        g.finite(),
        g.outgoing.contains_key(start),
    ensures
        ({
            let order = DepthFirstSearch.visits(g, start);
            &&& order.len() > 0
            &&& order[0] == start
            &&& order.no_duplicates()
            &&& forall|x: NodeId| #[trigger] order.contains(x) <==> reachable(g, start, x)
        }),
{
    let order = DepthFirstSearch.visits(g, start);
    let none = Seq::<NodeId>::empty();
    assert(walk_between(g, seq![start], start, start));
    assert(in_progress(g, start, none, seq![start], Set::empty()));
    lemma_finish(g, start, none, seq![start], Set::empty());
    assert(none + dfs_order(g, seq![start], Set::empty()) =~= order);
    let all = choose|all: Set<NodeId>| in_progress(g, start, order, none, all);
    assert forall|x: NodeId| #[trigger] order.contains(x) <==> reachable(g, start, x) by {
        if reachable(g, start, x) {
            let p = choose|p: Seq<NodeId>| #[trigger] walk_between(g, p, start, x);
            lemma_walk_done(g, start, order, all, p, p.len() - 1);
        }
    }
}

/// The neighbours of visited nodes that have not been visited, node by node in the
/// order of the visits.
spec fn pending(g: EngineView, done: Seq<NodeId>, visited: Set<NodeId>) -> Seq<NodeId>
    decreases done.len(),
{
    if done.len() == 0 {
        Seq::empty()
    } else {
        pending(g, done.drop_last(), visited) + unvisited(g.out_of(done.last()), visited)
    }
}

/// Whether a node has not been visited.
spec fn fresh(visited: Set<NodeId>) -> spec_fn(NodeId) -> bool {
    |x: NodeId| !visited.contains(x)
}

proof fn lemma_filter_push(s: Seq<NodeId>, x: NodeId, p: spec_fn(NodeId) -> bool)
    ensures
        s.push(x).filter(p) == if p(x) {
            s.filter(p).push(x)
        } else {
            s.filter(p)
        },
{
    reveal(Seq::filter);
    assert(s.push(x).drop_last() =~= s);
}

proof fn lemma_filter_add(a: Seq<NodeId>, b: Seq<NodeId>, p: spec_fn(NodeId) -> bool)
    ensures
        (a + b).filter(p) == a.filter(p) + b.filter(p),
    decreases b.len(),
{
    if b.len() == 0 {
        reveal(Seq::filter);
        assert(a + b =~= a);
        assert(a.filter(p) + b.filter(p) =~= a.filter(p));
    } else {
        let c = b.drop_last();
        lemma_filter_add(a, c, p);
        assert(a + b =~= (a + c).push(b.last()));
        assert(b =~= c.push(b.last()));
        lemma_filter_push(a + c, b.last(), p);
        lemma_filter_push(c, b.last(), p);
        assert((a + b).filter(p) =~= a.filter(p) + b.filter(p));
    }
}

/// Visiting more leaves what is then still not visited.
proof fn lemma_unvisited_later(list: Seq<Neighbor>, visited: Set<NodeId>, later: Set<NodeId>)
    requires
        visited.subset_of(later),
    ensures
        unvisited(list, later) == unvisited(list, visited).filter(fresh(later)),
    decreases list.len(),
{
    if list.len() == 0 {
        reveal(Seq::filter);
        assert(unvisited(list, visited).filter(fresh(later)) =~= Seq::empty());
    } else {
        lemma_unvisited_later(list.drop_last(), visited, later);
        lemma_filter_push(
            unvisited(list.drop_last(), visited),
            list.last().node_id,
            fresh(later),
        );
    }
}

proof fn lemma_pending_later(
    g: EngineView,
    done: Seq<NodeId>,
    visited: Set<NodeId>,
    later: Set<NodeId>,
)
    requires
        visited.subset_of(later),
    ensures
        pending(g, done, later) == pending(g, done, visited).filter(fresh(later)),
    decreases done.len(),
{
    if done.len() == 0 {
        reveal(Seq::filter);
        assert(pending(g, done, visited).filter(fresh(later)) =~= Seq::empty());
    } else {
        lemma_pending_later(g, done.drop_last(), visited, later);
        lemma_unvisited_later(g.out_of(done.last()), visited, later);
        lemma_filter_add(
            pending(g, done.drop_last(), visited),
            unvisited(g.out_of(done.last()), visited),
            fresh(later),
        );
    }
}

proof fn lemma_filter_twice(s: Seq<NodeId>, visited: Set<NodeId>, later: Set<NodeId>)
    requires
        visited.subset_of(later),
    ensures
        s.filter(fresh(visited)).filter(fresh(later)) == s.filter(fresh(later)),
    decreases s.len(),
{
    if s.len() == 0 {
        reveal(Seq::filter);
        assert(s.filter(fresh(visited)).filter(fresh(later)) =~= s.filter(fresh(later)));
    } else {
        let t = s.drop_last();
        lemma_filter_twice(t, visited, later);
        assert(s =~= t.push(s.last()));
        lemma_filter_push(t, s.last(), fresh(visited));
        lemma_filter_push(t, s.last(), fresh(later));
        lemma_filter_push(t.filter(fresh(visited)), s.last(), fresh(later));
    }
}

/// The neighbours of a node that are not among the visited ones, in the order of its
/// edges.
pub open spec fn ahead(g: EngineView, done: Seq<NodeId>, x: NodeId) -> Seq<NodeId> {
    unvisited(g.out_of(x), done.to_set())
}

/// Whether, of the visited nodes, the one at a place is the latest that still has a
/// neighbour ahead.
pub open spec fn latest_open(g: EngineView, done: Seq<NodeId>, i: int) -> bool {
    &&& 0 <= i < done.len()
    &&& ahead(g, done, done[i]).len() > 0
    &&& forall|j: int| i < j < done.len() ==> ahead(g, done, #[trigger] done[j]).len() == 0
}

/// Whether the walk goes on to a node from the latest visited one that has a neighbour
/// ahead, along the last such edge.
pub open spec fn goes_on(g: EngineView, done: Seq<NodeId>, x: NodeId) -> bool {
    exists|i: int| #[trigger]
        latest_open(g, done, i) && x == ahead(g, done, done[i]).last()
}

proof fn lemma_pending_last(g: EngineView, done: Seq<NodeId>, n: int)
    requires
        0 <= n <= done.len(),
        pending(g, done.take(n), done.to_set()).len() > 0,
        forall|j: int| n <= j < done.len() ==> ahead(g, done, #[trigger] done[j]).len() == 0,
    ensures
        goes_on(g, done, pending(g, done.take(n), done.to_set()).last()),
    decreases n,
{
    let t = done.take(n);
    let v = done.to_set();
    if n > 0 {
        assert(t.drop_last() =~= done.take(n - 1));
        assert(t.last() == done[n - 1]);
        if ahead(g, done, done[n - 1]).len() > 0 {
            assert(latest_open(g, done, n - 1));
            assert(pending(g, t, v).last() == ahead(g, done, done[n - 1]).last());
        } else {
            assert(pending(g, t, v) =~= pending(g, done.take(n - 1), v));
            lemma_pending_last(g, done, n - 1);
        }
    }
}

proof fn lemma_steps(
    g: EngineView,
    done: Seq<NodeId>,
    stack: Seq<NodeId>,
    visited: Set<NodeId>,
    k: int,
)
    requires
        g.finite(),
        visited == done.to_set(),
        stack.filter(fresh(visited)) == pending(g, done, visited),
        done.len() <= k < (done + dfs_order(g, stack, visited)).len(),
    ensures
        ({
            let order = done + dfs_order(g, stack, visited);
            goes_on(g, order.take(k), order[k])
        }),
    decreases universe(g.outgoing).difference(visited).len(), stack.len(),
{
    let order = done + dfs_order(g, stack, visited);
    assert(stack.len() > 0);
    let top = stack.last();
    let below = stack.drop_last();
    assert(stack =~= below.push(top));
    lemma_filter_push(below, top, fresh(visited));
    if visited.contains(top) {
        lemma_steps(g, done, below, visited, k);
    } else {
        let now = visited.insert(top);
        let more = unvisited(g.out_of(top), now);
        let rest = below + more;
        let next = done.push(top);
        lemma_dfs_measure(g, stack, visited);
        assert(order =~= next + dfs_order(g, rest, now));
        if k == done.len() {
            assert(order.take(k) =~= done);
            assert(done.take(done.len() as int) =~= done);
            assert(pending(g, done, visited).last() == top);
            lemma_pending_last(g, done, done.len() as int);
        } else {
            done.lemma_push_to_set_commute(top);
            assert(next.to_set() =~= now);
            lemma_filter_add(below, more, fresh(now));
            lemma_filter_twice(below, visited, now);
            lemma_pending_later(g, done, visited, now);
            lemma_filter_push(below.filter(fresh(visited)), top, fresh(now));
            lemma_unvisited_later(g.out_of(top), now, now);
            assert(next.drop_last() =~= done);
            assert(rest.filter(fresh(now)) =~= pending(g, next, now));
            lemma_steps(g, next, rest, now, k);
        }
    }
}

/// A depth-first traversal goes on from the latest visited node that has a neighbour
/// not visited yet, to the last such neighbour.
pub proof fn law_dfs_goes_deep(g: EngineView, start: NodeId, k: int)
    requires
        g.finite(),
        g.outgoing.contains_key(start),
        0 < k < DepthFirstSearch.visits(g, start).len(),
    ensures
        goes_on(
            g,
            DepthFirstSearch.visits(g, start).take(k),
            DepthFirstSearch.visits(g, start)[k],
        ),
{
    let none = Set::<NodeId>::empty();
    let stack = seq![start];
    let now = none.insert(start);
    let more = unvisited(g.out_of(start), now);
    let done = seq![start];
    lemma_dfs_measure(g, stack, none);
    assert(stack.drop_last() + more =~= more);
    assert(done.to_set() =~= now) by {
        assert(done[0] == start);
    }
    lemma_unvisited_later(g.out_of(start), now, now);
    assert(done.drop_last() =~= Seq::empty());
    assert(pending(g, done, now) =~= more) by {
        reveal_with_fuel(pending, 2);
    }
    lemma_steps(g, done, more, now, k);
}

} // verus!
