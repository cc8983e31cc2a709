//! Walks through a graph, and which nodes they reach.

use crate::model::node_id::NodeId;
use crate::ports::engine::{list_of, EngineView, Neighbor};
use vstd::prelude::*;

verus! {

/// Whether an edge leads from one node to the other.
pub open spec fn has_edge(g: EngineView, a: NodeId, b: NodeId) -> bool {
    exists|i: int| 0 <= i < g.out_of(a).len() && (#[trigger] g.out_of(a)[i]).node_id == b
}

/// A sequence of nodes in which an edge leads from each to the next.
pub open spec fn is_walk(g: EngineView, p: Seq<NodeId>) -> bool {
    p.len() > 0 && forall|i: int| 0 <= i < p.len() - 1 ==> has_edge(g, #[trigger] p[i], p[i + 1])
}

/// Whether a walk leads from one node to the other.
pub open spec fn walk_between(g: EngineView, p: Seq<NodeId>, a: NodeId, b: NodeId) -> bool {
    is_walk(g, p) && p[0] == a && p.last() == b
}

/// Whether some walk leads from one node to the other.
pub open spec fn reachable(g: EngineView, a: NodeId, b: NodeId) -> bool {
    exists|p: Seq<NodeId>| #[trigger] walk_between(g, p, a, b)
}

/// Whether `n` edges are the fewest that lead from one node to the other.
pub open spec fn hop_distance(g: EngineView, a: NodeId, b: NodeId, n: nat) -> bool {
    &&& exists|p: Seq<NodeId>| #[trigger] walk_between(g, p, a, b) && p.len() == n + 1
    &&& forall|p: Seq<NodeId>| #[trigger] walk_between(g, p, a, b) ==> p.len() >= n + 1
}

/// Whether there is a fewest number of edges from one node to the other.
pub open spec fn has_distance(g: EngineView, a: NodeId, b: NodeId) -> bool {
    exists|n: nat| #[trigger] hop_distance(g, a, b, n)
}

/// A walk can be continued along an edge.
pub proof fn lemma_walk_extend(g: EngineView, p: Seq<NodeId>, a: NodeId, b: NodeId, c: NodeId)
    requires
        walk_between(g, p, a, b),
        has_edge(g, b, c),
    ensures
        walk_between(g, p.push(c), a, c),
{
    let q = p.push(c);
    assert forall|i: int| 0 <= i < q.len() - 1 implies has_edge(g, #[trigger] q[i], q[i + 1]) by {
        if i < p.len() - 1 {
            assert(has_edge(g, p[i], p[i + 1]));
        }
    }
}

/// The nodes that neighbours stand for.
pub open spec fn targets(s: Seq<Neighbor>) -> Set<NodeId> {
    s.map_values(|n: Neighbor| n.node_id).to_set()
}

pub proof fn lemma_targets(s: Seq<Neighbor>, x: NodeId)
    ensures
        targets(s).contains(x) <==> exists|i: int| 0 <= i < s.len() && (#[trigger] s[i]).node_id
            == x,
{
    let ids = s.map_values(|n: Neighbor| n.node_id);
    if targets(s).contains(x) {
        let i = choose|i: int| 0 <= i < ids.len() && ids[i] == x;
        assert(s[i].node_id == x);
    }
    if exists|i: int| 0 <= i < s.len() && (#[trigger] s[i]).node_id == x {
        let i = choose|i: int| 0 <= i < s.len() && (#[trigger] s[i]).node_id == x;
        assert(ids[i] == x);
    }
}

/// All nodes that have a list of edges or are named in one.
pub open spec fn universe(m: Map<NodeId, Seq<Neighbor>>) -> Set<NodeId> {
    m.dom() + named(m)
}

/// The nodes that are named in the lists.
pub open spec fn named(m: Map<NodeId, Seq<Neighbor>>) -> Set<NodeId> {
    Set::new(|x: NodeId| exists|id: NodeId| #[trigger] m.contains_key(id) && targets(m[id]).contains(x))
}

proof fn lemma_named_finite(m: Map<NodeId, Seq<Neighbor>>)
    requires
        m.dom().finite(),
    ensures
        named(m).finite(),
    decreases m.dom().len(),
{
    if m.dom().len() == 0 {
        assert forall|x: NodeId| !named(m).contains(x) by {
            if named(m).contains(x) {
                let id = choose|id: NodeId| #[trigger]
                    m.contains_key(id) && targets(m[id]).contains(x);
                assert(m.dom().contains(id));
            }
        }
        assert(named(m) =~= Set::empty());
    } else {
        let k = m.dom().choose();
        let rest = m.remove(k);
        assert(rest.dom() =~= m.dom().remove(k));
        lemma_named_finite(rest);
        vstd::seq_lib::seq_to_set_is_finite(m[k].map_values(|n: Neighbor| n.node_id));
        assert forall|x: NodeId| #[trigger] named(m).contains(x) == (named(rest) + targets(
            m[k],
        )).contains(x) by {
            if named(m).contains(x) {
                let id = choose|id: NodeId| #[trigger]
                    m.contains_key(id) && targets(m[id]).contains(x);
                if id != k {
                    assert(rest.contains_key(id) && targets(rest[id]).contains(x));
                }
            }
            if named(rest).contains(x) {
                let id = choose|id: NodeId| #[trigger]
                    rest.contains_key(id) && targets(rest[id]).contains(x);
                assert(m.contains_key(id) && targets(m[id]).contains(x));
            }
            if targets(m[k]).contains(x) {
                assert(m.contains_key(k));
            }
        }
        assert(named(m) =~= named(rest) + targets(m[k]));
    }
}

/// A finite graph has finitely many nodes, named ones included.
pub proof fn lemma_universe_finite(m: Map<NodeId, Seq<Neighbor>>)
    requires
        m.dom().finite(),
    ensures
        universe(m).finite(),
{
    lemma_named_finite(m);
}

/// What a node's edges lead to belongs to the graph.
pub proof fn lemma_targets_in_universe(m: Map<NodeId, Seq<Neighbor>>, id: NodeId)
    ensures
        targets(list_of(m, id)).subset_of(universe(m)),
{
    assert forall|x: NodeId| targets(list_of(m, id)).contains(x) implies #[trigger] universe(
        m,
    ).contains(x) by {
        if m.contains_key(id) {
            assert(named(m).contains(x));
        } else {
            lemma_targets(list_of(m, id), x);
        }
    }
}

} // verus!
