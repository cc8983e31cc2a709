//! What a breadth-first traversal visits, and in which order.

use crate::algorithms::bfs::{bfs_order, discover, lemma_bfs_measure, lemma_discover, BreadthFirstSearch};
use crate::algorithms::walk::{
    has_distance, has_edge, hop_distance, is_walk, lemma_targets, lemma_walk_extend, reachable,
    targets, universe, walk_between,
};
use crate::model::node_id::NodeId;
use crate::ports::algorithm::TraversalAlgorithm;
use crate::ports::engine::{EngineView, Neighbor};
use vstd::prelude::*;

verus! {

/// What holds between two visits: `done` has been visited, `queue` waits, and
/// `level` counts the edges from the start.
#[verifier::opaque]
spec fn in_progress(
    g: EngineView,
    start: NodeId,
    done: Seq<NodeId>,
    queue: Seq<NodeId>,
    seen: Set<NodeId>,
    level: Map<NodeId, nat>,
) -> bool {
    let all = done + queue;
    &&& all.no_duplicates()
    &&& forall|x: NodeId| #[trigger] seen.contains(x) <==> all.contains(x)
    &&& forall|x: NodeId| #[trigger] seen.contains(x) ==> level.contains_key(x)
    &&& all.len() > 0
    &&& all[0] == start
    &&& level[start] == 0
    &&& forall|x: NodeId| #[trigger]
        seen.contains(x) ==> exists|p: Seq<NodeId>| #[trigger]
            walk_between(g, p, start, x) && p.len() == level[x] + 1
    &&& forall|i: int, j: int|
        0 <= i <= j < all.len() ==> level[#[trigger] all[i]] <= level[#[trigger] all[j]]
    &&& queue.len() > 0 ==> level[all.last()] <= level[queue[0]] + 1
    &&& forall|x: NodeId, y: NodeId|
        done.contains(x) && #[trigger] has_edge(g, x, y) ==> seen.contains(y) && level[y]
            <= level[x] + 1
}

proof fn lemma_step(
    g: EngineView,
    start: NodeId,
    done: Seq<NodeId>,
    queue: Seq<NodeId>,
    seen: Set<NodeId>,
    level: Map<NodeId, nat>,
) -> (next: Map<NodeId, nat>)
    requires
        queue.len() > 0,
        in_progress(g, start, done, queue, seen, level),
    ensures
        ({
            let fresh = discover(g.out_of(queue[0]), seen);
            in_progress(
                g,
                start,
                done.push(queue[0]),
                queue.drop_first() + fresh,
                seen + fresh.to_set(),
                next,
            )
        }),
{
    reveal(in_progress);
    let cur = queue[0];
    let list = g.out_of(cur);
    let fresh = discover(list, seen);
    lemma_discover(list, seen);
    let next = Map::new(
        |x: NodeId| level.contains_key(x) || fresh.contains(x),
        |x: NodeId| if fresh.contains(x) {
            level[cur] + 1
        } else {
            level[x]
        },
    );
    let all = done + queue;
    let all2 = done.push(cur) + (queue.drop_first() + fresh);
    let seen2 = seen + fresh.to_set();
    assert(all2 =~= all + fresh);
    assert(all[done.len() as int] == cur);
    assert(all.contains(cur));
    assert(seen.contains(cur));
    assert forall|x: NodeId| #[trigger] seen2.contains(x) <==> all2.contains(x) by {
        if all2.contains(x) {
            let i = choose|i: int| 0 <= i < all2.len() && all2[i] == x;
            if i < all.len() {
                assert(all[i] == x);
                assert(all.contains(x));
            } else {
                assert(fresh[i - all.len()] == x);
            }
        }
        if all.contains(x) {
            let i = choose|i: int| 0 <= i < all.len() && all[i] == x;
            assert(all2[i] == x);
        }
        if fresh.contains(x) {
            let i = choose|i: int| 0 <= i < fresh.len() && fresh[i] == x;
            assert(all2[all.len() + i] == x);
        }
    }
    assert(all2.no_duplicates()) by {
        assert forall|i: int, j: int| 0 <= i < j < all2.len() implies all2[i] != all2[j] by {
            if j < all.len() {
                assert(all[i] != all[j]);
            } else {
                assert(fresh.contains(fresh[j - all.len()]));
                if i < all.len() {
                    assert(all.contains(all[i]));
                    assert(seen.contains(all[i]));
                }
            }
        }
    }
    assert forall|x: NodeId| #[trigger] seen2.contains(x) implies exists|p: Seq<NodeId>| #[trigger]
        walk_between(g, p, start, x) && p.len() == next[x] + 1 by {
        if fresh.contains(x) {
            let p = choose|p: Seq<NodeId>| #[trigger]
                walk_between(g, p, start, cur) && p.len() == level[cur] + 1;
            lemma_targets(list, x);
            let i = choose|i: int| 0 <= i < list.len() && (#[trigger] list[i]).node_id == x;
            assert(has_edge(g, cur, x));
            lemma_walk_extend(g, p, start, cur, x);
            assert(p.push(x).len() == next[x] + 1);
        } else {
            assert(seen.contains(x));
        }
    }
    // Every node seen so far lies at most one level beyond the current one.
    assert forall|i: int| 0 <= i < all.len() implies level[#[trigger] all[i]] <= level[cur] + 1 by {
        assert(level[all[i]] <= level[all[all.len() - 1]]);
    }
    assert forall|i: int, j: int| 0 <= i <= j < all2.len() implies next[#[trigger] all2[i]]
        <= next[#[trigger] all2[j]] by {
        if j < all.len() {
            assert(all.contains(all[i]) && all.contains(all[j]));
            assert(seen.contains(all[i]) && seen.contains(all[j]));
        } else {
            assert(fresh.contains(fresh[j - all.len()]));
            if i < all.len() {
                assert(all.contains(all[i]));
                assert(seen.contains(all[i]));
            } else {
                assert(fresh.contains(fresh[i - all.len()]));
            }
        }
    }
    let queue2 = queue.drop_first() + fresh;
    if queue2.len() > 0 {
        let head = all2[done.len() as int + 1];
        assert(head == queue2[0]);
        assert(next[all2[done.len() as int]] <= next[all2[done.len() as int + 1]]);
        let last = all2[all2.len() - 1];
        if fresh.len() > 0 {
            assert(fresh.contains(fresh[fresh.len() - 1]));
        } else {
            assert(last == all[all.len() - 1]);
            assert(all.contains(last));
            assert(seen.contains(last));
        }
    }
    assert(seen.contains(start)) by {
        assert(all.contains(all[0]));
    }
    let done2 = done.push(cur);
    assert forall|x: NodeId, y: NodeId| done2.contains(x) && #[trigger] has_edge(
        g,
        x,
        y,
    ) implies seen2.contains(y) && next[y] <= next[x] + 1 by {
        if x == cur {
            let i = choose|i: int| 0 <= i < list.len() && (#[trigger] list[i]).node_id == y;
            lemma_targets(list, y);
            if seen.contains(y) {
                assert(all.contains(y));
                let j = choose|j: int| 0 <= j < all.len() && all[j] == y;
                assert(level[all[j]] <= level[cur] + 1);
            } else {
                assert(fresh.contains(y));
            }
        } else {
            let i = choose|i: int| 0 <= i < done2.len() && done2[i] == x;
            assert(done[i] == x);
            assert(done.contains(x));
            assert(seen.contains(y));
            assert(all[i] == x);
            assert(all.contains(x));
            assert(seen.contains(x));
        }
    }
    next
}

/// The traversal from a state in progress ends with every node visited that the
/// start leads to, level by level.
proof fn lemma_finish(
    g: EngineView,
    start: NodeId,
    done: Seq<NodeId>,
    queue: Seq<NodeId>,
    seen: Set<NodeId>,
    level: Map<NodeId, nat>,
) -> (last: Map<NodeId, nat>)
    requires
        g.finite(),
        in_progress(g, start, done, queue, seen, level),
    ensures
        exists|all_seen: Set<NodeId>|
            in_progress(
                g,
                start,
                done + bfs_order(g, queue, seen),
                Seq::empty(),
                all_seen,
                last,
            ),
    decreases universe(g.outgoing).difference(seen).len() + queue.len(),
{
    if queue.len() == 0 {
        assert(done + bfs_order(g, queue, seen) =~= done);
        assert(queue =~= Seq::empty());
        level
    } else {
        let fresh = discover(g.out_of(queue[0]), seen);
        let next = lemma_step(g, start, done, queue, seen, level);
        lemma_bfs_measure(g, queue, seen, fresh);
        let done2 = done.push(queue[0]);
        let queue2 = queue.drop_first() + fresh;
        let seen2 = seen + fresh.to_set();
        let last = lemma_finish(g, start, done2, queue2, seen2, next);
        assert(done + bfs_order(g, queue, seen) =~= done2 + bfs_order(g, queue2, seen2));
        last
    }
}

proof fn lemma_walk_level(
    g: EngineView,
    start: NodeId,
    order: Seq<NodeId>,
    seen: Set<NodeId>,
    level: Map<NodeId, nat>,
    p: Seq<NodeId>,
    k: int,
)
    requires
        in_progress(g, start, order, Seq::empty(), seen, level),
        is_walk(g, p),
        p[0] == start,
        0 <= k < p.len(),
    ensures
        order.contains(p[k]),
        level[p[k]] <= k,
    decreases k,
{
    reveal(in_progress);
    assert(order + Seq::<NodeId>::empty() =~= order);
    if k == 0 {
        assert(order[0] == start);
    } else {
        lemma_walk_level(g, start, order, seen, level, p, k - 1);
        assert(has_edge(g, p[k - 1], p[k - 1 + 1]));
        assert(seen.contains(p[k]));
    }
}

proof fn lemma_begin(g: EngineView, start: NodeId)
    ensures
        in_progress(
            g,
            start,
            Seq::empty(),
            seq![start],
            set![start],
            Map::<NodeId, nat>::empty().insert(start, 0),
        ),
{
    reveal(in_progress);
    let level = Map::<NodeId, nat>::empty().insert(start, 0);
    let queue = seq![start];
    let seen = set![start];
    assert(Seq::<NodeId>::empty() + queue =~= queue);
    assert forall|x: NodeId| #[trigger] seen.contains(x) implies exists|p: Seq<NodeId>| #[trigger]
        walk_between(g, p, start, x) && p.len() == level[x] + 1 by {
        assert(walk_between(g, seq![start], start, start));
    }
    assert forall|x: NodeId| #[trigger] seen.contains(x) <==> queue.contains(x) by {
        assert(queue[0] == start);
    }
}

/// Whether a list holds the nodes that can be reached from the start, each once,
/// the start first, in non-decreasing distance counted in edges.
pub open spec fn level_order(g: EngineView, start: NodeId, order: Seq<NodeId>) -> bool {
    &&& order.len() > 0
    &&& order[0] == start
    &&& order.no_duplicates()
    &&& forall|x: NodeId| #[trigger] order.contains(x) <==> reachable(g, start, x)
    &&& forall|i: int| 0 <= i < order.len() ==> has_distance(g, start, #[trigger] order[i])
    &&& forall|i: int, j: int, n: nat, m: nat|
        0 <= i <= j < order.len() && #[trigger] hop_distance(g, start, order[i], n)
            && #[trigger] hop_distance(g, start, order[j], m) ==> n <= m
}

proof fn lemma_sorted(
    g: EngineView,
    start: NodeId,
    order: Seq<NodeId>,
    seen: Set<NodeId>,
    level: Map<NodeId, nat>,
    i: int,
    j: int,
    n: nat,
    m: nat,
)
    requires
        in_progress(g, start, order, Seq::empty(), seen, level),
        0 <= i <= j < order.len(),
        hop_distance(g, start, order[i], n),
        hop_distance(g, start, order[j], m),
    ensures
        n <= m,
{
    reveal(in_progress);
    assert(order + Seq::<NodeId>::empty() =~= order);
    assert(order.contains(order[i]) && order.contains(order[j]));
    lemma_levels(g, start, order, seen, level, order[i]);
    lemma_levels(g, start, order, seen, level, order[j]);
    lemma_distance_unique(g, start, order[i], n, level[order[i]]);
    lemma_distance_unique(g, start, order[j], m, level[order[j]]);
    assert(level[order[i]] <= level[order[j]]);
}

proof fn lemma_order_basics(
    g: EngineView,
    start: NodeId,
    order: Seq<NodeId>,
    seen: Set<NodeId>,
    level: Map<NodeId, nat>,
)
    requires
        in_progress(g, start, order, Seq::empty(), seen, level),
    ensures
        order.len() > 0,
        order[0] == start,
        order.no_duplicates(),
{
    reveal(in_progress);
    assert(order + Seq::<NodeId>::empty() =~= order);
}

proof fn lemma_level_order(
    g: EngineView,
    start: NodeId,
    order: Seq<NodeId>,
    seen: Set<NodeId>,
    level: Map<NodeId, nat>,
)
    requires
        in_progress(g, start, order, Seq::empty(), seen, level),
    ensures
        level_order(g, start, order),
{
    lemma_order_basics(g, start, order, seen, level);
    assert forall|x: NodeId| #[trigger] order.contains(x) <==> reachable(g, start, x) by {
        lemma_levels(g, start, order, seen, level, x);
    }
    assert forall|i: int| 0 <= i < order.len() implies has_distance(
        g,
        start,
        #[trigger] order[i],
    ) by {
        assert(order.contains(order[i]));
        lemma_levels(g, start, order, seen, level, order[i]);
    }
    assert forall|i: int, j: int, n: nat, m: nat|
        0 <= i <= j < order.len() && #[trigger] hop_distance(g, start, order[i], n)
            && #[trigger] hop_distance(g, start, order[j], m) implies n <= m by {
        lemma_sorted(g, start, order, seen, level, i, j, n, m);
    }
}

/// At the end the levels are the distances.
proof fn lemma_levels(
    g: EngineView,
    start: NodeId,
    order: Seq<NodeId>,
    seen: Set<NodeId>,
    level: Map<NodeId, nat>,
    x: NodeId,
)
    requires
        in_progress(g, start, order, Seq::empty(), seen, level),
    ensures
        order.contains(x) <==> reachable(g, start, x),
        order.contains(x) ==> hop_distance(g, start, x, level[x]),
{
    reveal(in_progress);
    assert(order + Seq::<NodeId>::empty() =~= order);
    if order.contains(x) {
        assert(seen.contains(x));
        let p = choose|p: Seq<NodeId>| #[trigger]
            walk_between(g, p, start, x) && p.len() == level[x] + 1;
        assert(walk_between(g, p, start, x));
        assert forall|q: Seq<NodeId>| #[trigger] walk_between(g, q, start, x) implies q.len()
            >= level[x] + 1 by {
            lemma_walk_level(g, start, order, seen, level, q, q.len() - 1);
        }
    }
    if reachable(g, start, x) {
        let p = choose|p: Seq<NodeId>| #[trigger] walk_between(g, p, start, x);
        lemma_walk_level(g, start, order, seen, level, p, p.len() - 1);
    }
}

/// A breadth-first traversal visits exactly the nodes that can be reached from
/// the start, each once, the start first, in non-decreasing distance counted in
/// edges.
pub proof fn law_bfs_level_order(g: EngineView, start: NodeId)
    requires
        g.finite(),
        g.outgoing.contains_key(start),
    ensures
        level_order(g, start, BreadthFirstSearch.visits(g, start)),
{
    let none = Seq::<NodeId>::empty();
    lemma_begin(g, start);
    let level = lemma_finish(
        g,
        start,
        none,
        seq![start],
        set![start],
        Map::<NodeId, nat>::empty().insert(start, 0),
    );
    let order = BreadthFirstSearch.visits(g, start);
    assert(none + bfs_order(g, seq![start], set![start]) =~= order);
    let seen = choose|seen: Set<NodeId>| in_progress(g, start, order, none, seen, level);
    lemma_level_order(g, start, order, seen, level);
}

proof fn lemma_distance_unique(g: EngineView, a: NodeId, b: NodeId, n: nat, m: nat)
    requires
        hop_distance(g, a, b, n),
        hop_distance(g, a, b, m),
    ensures
        n == m,
{
    let p = choose|p: Seq<NodeId>| #[trigger] walk_between(g, p, a, b) && p.len() == n + 1;
    let q = choose|q: Seq<NodeId>| #[trigger] walk_between(g, q, a, b) && q.len() == m + 1;
}

/// What the edges of a node newly lead to comes in the order of the edges: of two such
/// nodes the one comes first to which an edge leads before any leads to the other.
pub proof fn law_discovered_in_order_of_edges(
    list: Seq<Neighbor>,
    seen: Set<NodeId>,
    i: int,
    j: int,
)
    requires
        0 <= i < j < discover(list, seen).len(),
    ensures
        exists|a: int|
            0 <= a < list.len() && (#[trigger] list[a]).node_id == discover(list, seen)[i]
                && forall|b: int|
                0 <= b <= a ==> (#[trigger] list[b]).node_id != discover(list, seen)[j],
    decreases list.len(),
{
    let t = list.drop_last();
    let before = discover(t, seen);
    let fresh = discover(list, seen);
    let n = list.len() - 1;
    lemma_discover(t, seen);
    if j < before.len() {
        law_discovered_in_order_of_edges(t, seen, i, j);
        let a = choose|a: int|
            0 <= a < t.len() && (#[trigger] t[a]).node_id == before[i] && forall|b: int|
                0 <= b <= a ==> (#[trigger] t[b]).node_id != before[j];
        assert(list[a] == t[a]);
        assert forall|b: int| 0 <= b <= a implies (#[trigger] list[b]).node_id != fresh[j] by {
            assert(t[b] == list[b]);
        }
    } else {
        assert(before.contains(before[i]));
        lemma_targets(t, before[i]);
        let a = choose|a: int| 0 <= a < t.len() && (#[trigger] t[a]).node_id == before[i];
        assert(list[a] == t[a]);
        assert forall|b: int| 0 <= b <= a implies (#[trigger] list[b]).node_id != fresh[j] by {
            assert(t[b] == list[b]);
            if t[b].node_id == fresh[j] {
                lemma_targets(t, fresh[j]);
                assert(targets(t).contains(fresh[j]));
                assert(before.contains(fresh[j]));
            }
        }
    }
}

/// A breadth-first traversal begins with the start, and the nodes to which the edges of
/// the start lead come next, in the order of these edges.
pub proof fn law_bfs_neighbours_of_start_come_next(g: EngineView, start: NodeId)
    requires
        g.finite(),
        g.outgoing.contains_key(start),
    ensures
        ({
            let order = BreadthFirstSearch.visits(g, start);
            let next = discover(g.out_of(start), set![start]);
            order.len() > next.len() && order.subrange(1, 1 + next.len() as int) == next
        }),
{
    let next = discover(g.out_of(start), set![start]);
    let queue = seq![start];
    assert(queue.drop_first() + next =~= next);
    let seen = set![start] + next.to_set();
    lemma_queue_first(g, next, seen);
    let order = bfs_order(g, queue, set![start]);
    let rest = bfs_order(g, next, seen);
    assert(order == seq![start] + rest);
    assert(order.subrange(1, 1 + next.len() as int) =~= rest.take(next.len() as int));
}

proof fn lemma_queue_first(g: EngineView, queue: Seq<NodeId>, seen: Set<NodeId>)
    requires
        g.finite(),
    ensures
        bfs_order(g, queue, seen).len() >= queue.len(),
        bfs_order(g, queue, seen).take(queue.len() as int) == queue,
    decreases universe(g.outgoing).difference(seen).len() + queue.len(),
{
    if queue.len() > 0 {
        let fresh = discover(g.out_of(queue[0]), seen);
        lemma_bfs_measure(g, queue, seen, fresh);
        let longer = queue.drop_first() + fresh;
        lemma_queue_first(g, longer, seen + fresh.to_set());
        let rest = bfs_order(g, longer, seen + fresh.to_set());
        assert(rest.take(longer.len() as int) == longer);
        assert forall|k: int| 0 <= k < queue.len() - 1 implies #[trigger] rest[k] == queue[k + 1] by {
            assert(rest.take(longer.len() as int)[k] == longer[k]);
        }
        assert(bfs_order(g, queue, seen).take(queue.len() as int) =~= queue);
    } else {
        assert(bfs_order(g, queue, seen).take(0) =~= queue);
    }
}

} // verus!
