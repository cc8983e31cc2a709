//! Breadth-first traversal.
//!
//! Nodes are visited in non-decreasing distance, counted in edges, from the
//! start.

use crate::algorithms::walk::{
    lemma_targets, lemma_targets_in_universe, lemma_universe_finite, targets, universe,
};
use crate::collections::id_map::IdMap;
use crate::model::node_id::NodeId;
use crate::ports::algorithm::TraversalAlgorithm;
use crate::ports::engine::{EngineView, GraphEnginePort, Neighbor};
use std::collections::VecDeque;
use vstd::prelude::*;

verus! {

/// Visits nodes level by level.
pub struct BreadthFirstSearch;

/// The nodes of a list of neighbours that have not been seen, each once, in
/// order of first occurrence.
pub open spec fn discover(list: Seq<Neighbor>, seen: Set<NodeId>) -> Seq<NodeId>
    decreases list.len(),
{
    if list.len() == 0 {
        Seq::empty()
    } else {
        let before = discover(list.drop_last(), seen);
        let x = list.last().node_id;
        if seen.contains(x) || before.contains(x) {
            before
        } else {
            before.push(x)
        }
    }
}

/// Visiting in order of discovery: the head of the queue is visited, and what
/// its edges newly lead to joins the queue.
pub open spec fn bfs_order(g: EngineView, queue: Seq<NodeId>, seen: Set<NodeId>) -> Seq<NodeId>
    decreases universe(g.outgoing).difference(seen).len() + queue.len(),
        when g.finite()
        via bfs_order_decreases
{
    if queue.len() == 0 {
        Seq::empty()
    } else {
        let fresh = discover(g.out_of(queue[0]), seen);
        seq![queue[0]] + bfs_order(g, queue.drop_first() + fresh, seen + fresh.to_set())
    }
}

pub proof fn lemma_discover(list: Seq<Neighbor>, seen: Set<NodeId>)
    ensures
        discover(list, seen).no_duplicates(),
        forall|x: NodeId| #[trigger]
            discover(list, seen).contains(x) <==> targets(list).contains(x) && !seen.contains(x),
    decreases list.len(),
{
    let fresh = discover(list, seen);
    if list.len() == 0 {
        assert forall|x: NodeId| !targets(list).contains(x) by {
            lemma_targets(list, x);
        }
    } else {
        let t = list.drop_last();
        let y = list.last().node_id;
        let before = discover(t, seen);
        lemma_discover(t, seen);
        assert forall|x: NodeId| #[trigger] fresh.contains(x) <==> targets(list).contains(x)
            && !seen.contains(x) by {
            lemma_targets(list, x);
            lemma_targets(t, x);
            if fresh.contains(x) {
                if x == y {
                    assert(list[list.len() - 1].node_id == x);
                    if before.contains(x) {
                        assert(targets(t).contains(x));
                    }
                } else {
                    assert(before.contains(x)) by {
                        if fresh != before {
                            let i = choose|i: int| 0 <= i < fresh.len() && fresh[i] == x;
                            assert(before[i] == x);
                        }
                    }
                    let i = choose|i: int| 0 <= i < t.len() && (#[trigger] t[i]).node_id == x;
                    assert(list[i].node_id == x);
                }
            }
            if targets(list).contains(x) && !seen.contains(x) {
                let i = choose|i: int| 0 <= i < list.len() && (#[trigger] list[i]).node_id == x;
                if i < t.len() {
                    assert(t[i].node_id == x);
                    assert(before.contains(x));
                    let j = choose|j: int| 0 <= j < before.len() && before[j] == x;
                    assert(fresh[j] == x);
                } else if before.contains(y) {
                    assert(fresh == before);
                } else {
                    assert(fresh[before.len() as int] == x);
                }
            }
        }
    }
}

#[via_fn]
proof fn bfs_order_decreases(g: EngineView, queue: Seq<NodeId>, seen: Set<NodeId>) {
    if queue.len() > 0 {
        let list = g.out_of(queue[0]);
        let fresh = discover(list, seen);
        lemma_bfs_measure(g, queue, seen, fresh);
    }
}

pub proof fn lemma_bfs_measure(
    g: EngineView,
    queue: Seq<NodeId>,
    seen: Set<NodeId>,
    fresh: Seq<NodeId>,
)
    requires
        g.finite(),
        queue.len() > 0,
        fresh == discover(g.out_of(queue[0]), seen),
    ensures
        universe(g.outgoing).difference(seen + fresh.to_set()).len() + (queue.drop_first()
            + fresh).len() < universe(g.outgoing).difference(seen).len() + queue.len(),
{
    let list = g.out_of(queue[0]);
    let u = universe(g.outgoing);
    lemma_discover(list, seen);
    lemma_universe_finite(g.outgoing);
    lemma_targets_in_universe(g.outgoing, queue[0]);
    fresh.unique_seq_to_set();
    let open = u.difference(seen);
    let rest = u.difference(seen + fresh.to_set());
    assert(rest =~= open.difference(fresh.to_set()));
    assert(fresh.to_set().subset_of(open)) by {
        assert forall|x: NodeId| fresh.to_set().contains(x) implies #[trigger] open.contains(x) by {
            assert(fresh.contains(x));
        }
    }
    assert(open =~= rest + fresh.to_set());
    vstd::set_lib::lemma_set_disjoint_lens(rest, fresh.to_set());
}

impl TraversalAlgorithm for BreadthFirstSearch {
    open spec fn visits(&self, g: EngineView, start: NodeId) -> Seq<NodeId> {
        if g.outgoing.contains_key(start) {
            bfs_order(g, seq![start], set![start])
        } else {
            Seq::empty()
        }
    }

    fn traverse<E: GraphEnginePort>(&self, engine: &E, start: NodeId) -> (r: Vec<NodeId>) {
        let mut order: Vec<NodeId> = Vec::new();
        if !engine.contains_node(start) {
            return order;
        }
        let ghost g = engine.graph();
        let mut visited: IdMap<NodeId, ()> = IdMap::new();
        let mut queue: VecDeque<NodeId> = VecDeque::new();
        queue.push_back(start);
        visited.insert(start, ());
        proof {
            engine.lemma_finite();
            assert(queue@ =~= seq![start]);
            assert(visited@.dom() =~= set![start]);
        }
        let ghost goal = bfs_order(g, seq![start], set![start]);
        assert(goal =~= order@ + bfs_order(g, queue@, visited@.dom()));
        while queue.len() > 0
            invariant
                g == engine.graph(),
                g.finite(),
                goal == order@ + bfs_order(g, queue@, visited@.dom()),
            decreases universe(g.outgoing).difference(visited@.dom()).len() + queue.len(),
        {
            let ghost queue_before = queue@;
            let ghost seen = visited@.dom();
            let ghost order_before = order@;
            let current = match queue.pop_front() {
                Some(id) => id,
                None => {
                    return order;
                },
            };
            order.push(current);
            let neighbors = engine.neighbors_outgoing(current);
            let ghost fresh = discover(neighbors@, seen);
            let mut i: usize = 0;
            assert(queue@ =~= queue_before.drop_first() + discover(neighbors@.take(0), seen));
            assert(visited@.dom() =~= seen + discover(neighbors@.take(0), seen).to_set());
            while i < neighbors.len()
                invariant
                    i <= neighbors.len(),
                    queue@ == queue_before.drop_first() + discover(neighbors@.take(i as int), seen),
                    visited@.dom() == seen + discover(neighbors@.take(i as int), seen).to_set(),
                decreases neighbors.len() - i,
            {
                let ghost so_far = discover(neighbors@.take(i as int), seen);
                let next = neighbors[i].node_id;
                proof {
                    assert(neighbors@.take(i + 1).drop_last() =~= neighbors@.take(i as int));
                    assert(neighbors@.take(i + 1).last() == neighbors@[i as int]);
                    assert(so_far.to_set().contains(next) == so_far.contains(next));
                }
                if !visited.contains_key(next) {
                    visited.insert(next, ());
                    queue.push_back(next);
                    proof {
                        let grown = so_far.push(next);
                        assert(queue@ =~= queue_before.drop_first() + grown);
                        so_far.lemma_push_to_set_commute(next);
                        assert(visited@.dom() =~= seen + grown.to_set());
                    }
                }
                i += 1;
            }
            proof {
                assert(neighbors@.take(i as int) =~= neighbors@);
                lemma_bfs_measure(g, queue_before, seen, fresh);
                assert(order@ + bfs_order(g, queue@, visited@.dom()) =~= order_before + (seq![
                    current,
                ] + bfs_order(g, queue@, visited@.dom())));
            }
        }
        assert(order@ + Seq::<NodeId>::empty() =~= order@);
        order
    }
}

} // verus!
