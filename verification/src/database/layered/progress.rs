//! What is known while the changes of a transaction are brought to the storage.
//!
//! The layers in memory show the graph from before the transaction. How nodes and
//! edges stand after the changes so far is followed here.

use crate::collections::id_map::IdMap;
use crate::database::batch::{
    apply_op, apply_ops, inserts_new, inserts_node, lemma_applied_touched, lemma_touches_push,
    touches_edge, touches_node,
};
use crate::database::coherence::{engine_matches, GraphView};
use crate::database::layered::{edge_ids, incident_edges, known_right, lemma_incident_lists};
use crate::database::settling::{
    delete_each, edge_not_deleted, lemma_delete_each, lemma_settled_delete_edge,
    lemma_settled_delete_node, lemma_settled_save_edge, lemma_settled_save_node, node_not_deleted,
    settled,
};
use crate::model::edge::EdgeView;
use crate::model::edge_id::EdgeId;
use crate::model::node::{Node, NodeView};
use crate::model::node_id::NodeId;
use crate::ports::engine::{EngineView, Neighbor};
use crate::ports::storage::StorageView;
use crate::transaction::{op_views, OpView, StagedOp};
use vstd::prelude::*;

verus! {

/// Whether what an open transaction has noted comes from the given changes, or
/// was in the graph before.
pub open spec fn notes(st: StorageView, g0: GraphView, done: Seq<OpView>, number: u64) -> bool {
    st.txn matches Some(t) ==> {
        &&& t.id == number
        &&& forall|i: int|
            0 <= i < t.node_inserts.len() ==> inserts_node(done, (#[trigger] t.node_inserts[i]).id)
        &&& forall|id: NodeId| #[trigger] t.node_deletes.contains(id) ==> touches_node(done, id)
        &&& forall|id: EdgeId| #[trigger]
            t.edge_deletes.contains(id) ==> g0.edges.contains_key(id) || touches_edge(done, id)
    }
}

/// Whether it is known of each node how it stands after the first `i` changes: a
/// node that a change touched was inserted by a known change, or is gone.
pub open spec fn nodes_tracked(
    staged: Map<NodeId, Option<usize>>,
    g0: GraphView,
    g: GraphView,
    ops: Seq<OpView>,
    i: int,
) -> bool {
    &&& forall|id: NodeId| #[trigger]
        touches_node(ops.take(i), id) == staged.contains_key(id)
    &&& forall|id: NodeId| #[trigger]
        g.nodes.contains_key(id) == if staged.contains_key(id) {
            staged[id] is Some
        } else {
            g0.nodes.contains_key(id)
        }
    &&& forall|id: NodeId| #[trigger]
        g.nodes.contains_key(id) ==> if staged.contains_key(id) {
            staged[id]->0 < i && ops[staged[id]->0 as int] == OpView::InsertNode(g.nodes[id])
        } else {
            g.nodes[id] == g0.nodes[id]
        }
}

/// Whether one of the first `i` changes inserts the edge.
pub open spec fn inserts_edge(ops: Seq<OpView>, i: int, e: EdgeView) -> bool {
    exists|k: int| 0 <= k < i && #[trigger] ops[k] == OpView::InsertEdge(e)
}

/// Whether it is known which edges are gone after the first `i` changes.
pub open spec fn edges_tracked(
    gone: Map<EdgeId, bool>,
    g0: GraphView,
    g: GraphView,
    ops: Seq<OpView>,
    i: int,
) -> bool {
    &&& forall|e: EdgeId| #[trigger]
        g.edges.contains_key(e) ==> {
            &&& !gone.contains_key(e)
            &&& {
                ||| g0.edges.contains_key(e) && g.edges[e] == g0.edges[e]
                ||| inserts_edge(ops, i, g.edges[e]) && g.edges[e].id == e
            }
        }
    &&& forall|e: EdgeId| #[trigger]
        g0.edges.contains_key(e) && !gone.contains_key(e) ==> g.edges.contains_key(e)
    &&& forall|e: EdgeId| #[trigger]
        gone.contains_key(e) ==> g0.edges.contains_key(e) || touches_edge(ops.take(i), e)
    &&& forall|k: int|
        0 <= k < i ==> match #[trigger] ops[k] {
            OpView::InsertEdge(x) => !gone.contains_key(x.id) ==> g.edges.contains_key(x.id)
                && g.edges[x.id] == x,
            _ => true,
        }
}

/// Whether the nodes that the first `i` changes delete are known.
pub open spec fn knowns_right(known: Seq<Option<Node>>, g0: GraphView, ops: Seq<OpView>, i: int) -> bool {
    &&& known.len() == i
    &&& forall|k: int|
        0 <= k < i ==> match ops[k] {
            OpView::DeleteNode(id) => known_right(
                #[trigger] known[k],
                apply_ops(g0, ops.take(k))->Ok_0,
                id,
            ),
            _ => true,
        }
}

/// Whether every staged node points to the insertion of a node.
pub open spec fn points_to_nodes(staged: Map<NodeId, Option<usize>>, ops: Seq<OpView>, i: int) -> bool {
    forall|id: NodeId| #[trigger]
        staged.contains_key(id) && staged[id] is Some ==> staged[id]->0 < i
            && ops[staged[id]->0 as int] is InsertNode
}

/// What is known while changes are brought to the storage.
pub struct Progress {
    /// The nodes that were inserted, by the change that did it, or deleted.
    pub staged: IdMap<NodeId, Option<usize>>,
    /// The edges that were deleted.
    pub gone: IdMap<EdgeId, bool>,
    /// For each change that deletes a node, that node.
    pub known: Vec<Option<Node>>,
}

impl Progress {
    /// Whether the first `i` changes have been brought to a storage.
    pub open spec fn noted(
        &self,
        st: StorageView,
        marks: bool,
        g0: GraphView,
        ops: Seq<OpView>,
        i: int,
        number: u64,
    ) -> bool {
        noted(st, marks, g0, ops, i, number, self.staged@, self.gone@, self.known@)
    }
}

/// Whether the first `i` changes have been brought to a storage, and what is known of
/// them is right.
pub open spec fn noted(
    st: StorageView,
    marks: bool,
    g0: GraphView,
    ops: Seq<OpView>,
    i: int,
    number: u64,
    staged: Map<NodeId, Option<usize>>,
    gone: Map<EdgeId, bool>,
    known: Seq<Option<Node>>,
) -> bool {
    let done = ops.take(i);
    let g = apply_ops(g0, done)->Ok_0;
    &&& apply_ops(g0, done) is Ok
    &&& settled(st) == g
    &&& st.txn is Some == marks
    &&& notes(st, g0, done, number)
    &&& nodes_tracked(staged, g0, g, ops, i)
    &&& edges_tracked(gone, g0, g, ops, i)
    &&& knowns_right(known, g0, ops, i)
}

/// Whether the next change can be brought to the storage.
pub open spec fn next_noted(g0: GraphView, ops: Seq<OpView>, i: int) -> bool {
    &&& 0 <= i < ops.len()
    &&& inserts_new(g0, ops)
    &&& apply_ops(g0, ops.take(i + 1)) is Ok
}

pub proof fn lemma_next_applied(g0: GraphView, ops: Seq<OpView>, i: int)
    requires
        next_noted(g0, ops, i),
    ensures
        apply_ops(g0, ops.take(i)) is Ok,
        apply_ops(g0, ops.take(i + 1)) == apply_op(
            apply_ops(g0, ops.take(i))->Ok_0,
            ops[i],
        ),
{
    assert(ops.take(i + 1).drop_last() =~= ops.take(i));
    assert(ops.take(i + 1).last() == ops[i]);
}

proof fn lemma_knowns_push(
    known: Seq<Option<Node>>,
    g0: GraphView,
    ops: Seq<OpView>,
    i: int,
    n: Option<Node>,
)
    requires
        knowns_right(known, g0, ops, i),
        0 <= i < ops.len(),
        ops[i] matches OpView::DeleteNode(id) ==> known_right(
            n,
            apply_ops(g0, ops.take(i))->Ok_0,
            id,
        ),
    ensures
        knowns_right(known.push(n), g0, ops, i + 1),
{
    let t = known.push(n);
    assert forall|k: int| 0 <= k < i + 1 implies match ops[k] {
        OpView::DeleteNode(id) => known_right(
            #[trigger] t[k],
            apply_ops(g0, ops.take(k))->Ok_0,
            id,
        ),
        _ => true,
    } by {
        if k < i {
            assert(t[k] == known[k]);
        }
    }
}

pub proof fn lemma_noted_insert_node(
    st: StorageView,
    marks: bool,
    g0: GraphView,
    ops: Seq<OpView>,
    i: int,
    number: u64,
    staged: Map<NodeId, Option<usize>>,
    gone: Map<EdgeId, bool>,
    known: Seq<Option<Node>>,
    n: NodeView,
)
    requires
        noted(st, marks, g0, ops, i, number, staged, gone, known),
        next_noted(g0, ops, i),
        i <= usize::MAX,
        ops[i] == OpView::InsertNode(n),
    ensures
        noted(
            st.save_node(n),
            marks,
            g0,
            ops,
            i + 1,
            number,
            staged.insert(n.id, Some(i as usize)),
            gone,
            known.push(None),
        ),
{
    let done = ops.take(i);
    let more = ops.take(i + 1);
    let g = apply_ops(g0, done)->Ok_0;
    lemma_next_applied(g0, ops, i);
    lemma_touches_push(ops, i);
    lemma_applied_touched(g0, done);
    lemma_knowns_push(known, g0, ops, i, None);
    assert(!touches_node(done, n.id));
    assert(node_not_deleted(st, n.id));
    lemma_settled_save_node(st, n);
    let h = g.insert_node(n);
    if let Some(t) = st.txn {
        let u = st.save_node(n).txn->0;
        assert forall|k: int| 0 <= k < u.node_inserts.len() implies inserts_node(
            more,
            (#[trigger] u.node_inserts[k]).id,
        ) by {
            if k < t.node_inserts.len() {
                assert(inserts_node(done, t.node_inserts[k].id));
            }
        }
    }
    assert(notes(st.save_node(n), g0, more, number));
    assert(nodes_tracked(staged.insert(n.id, Some(i as usize)), g0, h, ops, i + 1));
    assert(edges_tracked(gone, g0, h, ops, i + 1)) by {
        lemma_edges_later(gone, g0, g, ops, i);
    }
}

/// What is known of edges is still right after a change that is not about them.
proof fn lemma_edges_later(
    gone: Map<EdgeId, bool>,
    g0: GraphView,
    g: GraphView,
    ops: Seq<OpView>,
    i: int,
)
    requires
        0 <= i < ops.len(),
        edges_tracked(gone, g0, g, ops, i),
        !(ops[i] is InsertEdge),
    ensures
        edges_tracked(gone, g0, g, ops, i + 1),
{
    lemma_touches_push(ops, i);
    assert forall|e: EdgeId| #[trigger] g.edges.contains_key(e) && inserts_edge(
        ops,
        i,
        g.edges[e],
    ) implies inserts_edge(ops, i + 1, g.edges[e]) by {
        lemma_inserts_edge_later(ops, i, g.edges[e]);
    }
}

proof fn lemma_inserts_edge_later(ops: Seq<OpView>, i: int, e: EdgeView)
    requires
        inserts_edge(ops, i, e),
    ensures
        inserts_edge(ops, i + 1, e),
{
    let k = choose|k: int| 0 <= k < i && #[trigger] ops[k] == OpView::InsertEdge(e);
    assert(0 <= k < i + 1 && ops[k] == OpView::InsertEdge(e));
}

pub proof fn lemma_noted_insert_edge(
    st: StorageView,
    marks: bool,
    g0: GraphView,
    ops: Seq<OpView>,
    i: int,
    number: u64,
    staged: Map<NodeId, Option<usize>>,
    gone: Map<EdgeId, bool>,
    known: Seq<Option<Node>>,
    x: EdgeView,
)
    requires
        noted(st, marks, g0, ops, i, number, staged, gone, known),
        next_noted(g0, ops, i),
        ops[i] == OpView::InsertEdge(x),
    ensures
        noted(
            st.save_edge(x),
            marks,
            g0,
            ops,
            i + 1,
            number,
            staged,
            gone,
            known.push(None),
        ),
{
    let done = ops.take(i);
    let more = ops.take(i + 1);
    let g = apply_ops(g0, done)->Ok_0;
    lemma_next_applied(g0, ops, i);
    lemma_touches_push(ops, i);
    lemma_applied_touched(g0, done);
    lemma_knowns_push(known, g0, ops, i, None);
    assert(!touches_edge(done, x.id));
    assert(edge_not_deleted(st, x.id));
    lemma_settled_save_edge(st, x);
    let h = g.insert_edge(x);
    assert(notes(st.save_edge(x), g0, more, number));
    assert(nodes_tracked(staged, g0, h, ops, i + 1));
    assert(edges_tracked(gone, g0, h, ops, i + 1)) by {
        assert forall|e: EdgeId| #[trigger] h.edges.contains_key(e) implies {
            &&& !gone.contains_key(e)
            &&& {
                ||| g0.edges.contains_key(e) && h.edges[e] == g0.edges[e]
                ||| inserts_edge(ops, i + 1, h.edges[e]) && h.edges[e].id == e
            }
        } by {
            if e == x.id {
                assert(ops[i] == OpView::InsertEdge(x));
            } else {
                assert(g.edges.contains_key(e));
                if inserts_edge(ops, i, g.edges[e]) {
                    lemma_inserts_edge_later(ops, i, g.edges[e]);
                }
            }
        }
        assert forall|k: int| 0 <= k < i + 1 implies match #[trigger] ops[k] {
            OpView::InsertEdge(y) => !gone.contains_key(y.id) ==> h.edges.contains_key(y.id)
                && h.edges[y.id] == y,
            _ => true,
        } by {
            if k < i {
                if let OpView::InsertEdge(y) = ops[k] {
                    assert(done[k] == ops[k]);
                    assert(touches_edge(done, y.id));
                }
            }
        }
    }
}

pub proof fn lemma_noted_delete_edge(
    st: StorageView,
    marks: bool,
    g0: GraphView,
    ops: Seq<OpView>,
    i: int,
    number: u64,
    staged: Map<NodeId, Option<usize>>,
    gone: Map<EdgeId, bool>,
    known: Seq<Option<Node>>,
    id: EdgeId,
)
    requires
        noted(st, marks, g0, ops, i, number, staged, gone, known),
        next_noted(g0, ops, i),
        ops[i] == OpView::DeleteEdge(id),
    ensures
        noted(
            st.delete_edge(id),
            marks,
            g0,
            ops,
            i + 1,
            number,
            staged,
            gone.insert(id, true),
            known.push(None),
        ),
{
    let done = ops.take(i);
    let more = ops.take(i + 1);
    let g = apply_ops(g0, done)->Ok_0;
    lemma_next_applied(g0, ops, i);
    lemma_touches_push(ops, i);
    lemma_knowns_push(known, g0, ops, i, None);
    lemma_settled_delete_edge(st, id);
    let h = g.delete_edge(id);
    if let Some(t) = st.txn {
        let u = st.delete_edge(id).txn->0;
        assert forall|x: EdgeId| #[trigger]
            u.edge_deletes.contains(x) implies g0.edges.contains_key(x) || touches_edge(more, x) by {
            let k = choose|k: int| 0 <= k < u.edge_deletes.len() && u.edge_deletes[k] == x;
            if k < t.edge_deletes.len() {
                assert(t.edge_deletes[k] == x);
                assert(t.edge_deletes.contains(x));
            }
        }
    }
    assert(notes(st.delete_edge(id), g0, more, number));
    assert(nodes_tracked(staged, g0, h, ops, i + 1));
    lemma_edges_later(gone, g0, g, ops, i);
    assert(edges_tracked(gone.insert(id, true), g0, h, ops, i + 1));
}

pub proof fn lemma_noted_delete_node(
    st: StorageView,
    marks: bool,
    g0: GraphView,
    ops: Seq<OpView>,
    i: int,
    number: u64,
    staged: Map<NodeId, Option<usize>>,
    gone: Map<EdgeId, bool>,
    known: Seq<Option<Node>>,
    id: NodeId,
    edges: Seq<EdgeId>,
    after: Map<EdgeId, bool>,
    node: Option<Node>,
)
    requires
        noted(st, marks, g0, ops, i, number, staged, gone, known),
        next_noted(g0, ops, i),
        ops[i] == OpView::DeleteNode(id),
        edges.to_set() == apply_ops(g0, ops.take(i))->Ok_0.incident(id),
        after.dom() == gone.dom().union(edges.to_set()),
        known_right(node, apply_ops(g0, ops.take(i))->Ok_0, id),
    ensures
        noted(
            delete_each(st, edges).delete_node(id),
            marks,
            g0,
            ops,
            i + 1,
            number,
            staged.insert(id, None),
            after,
            known.push(node),
        ),
{
    let done = ops.take(i);
    let more = ops.take(i + 1);
    let g = apply_ops(g0, done)->Ok_0;
    let mid = delete_each(st, edges);
    let end = mid.delete_node(id);
    lemma_next_applied(g0, ops, i);
    lemma_touches_push(ops, i);
    lemma_applied_touched(g0, done);
    lemma_knowns_push(known, g0, ops, i, node);
    lemma_delete_each(st, edges);
    lemma_settled_delete_node(mid, id);
    let h = g.delete_node(id);
    assert(settled(end).nodes =~= h.nodes);
    assert(settled(end).edges =~= h.edges);
    if let Some(t) = st.txn {
        let u = end.txn->0;
        assert forall|x: NodeId| #[trigger] u.node_deletes.contains(x) implies touches_node(
            more,
            x,
        ) by {
            let k = choose|k: int| 0 <= k < u.node_deletes.len() && u.node_deletes[k] == x;
            if k < t.node_deletes.len() {
                assert(t.node_deletes[k] == x);
                assert(t.node_deletes.contains(x));
            }
        }
        assert forall|x: EdgeId| #[trigger]
            u.edge_deletes.contains(x) implies g0.edges.contains_key(x) || touches_edge(more, x) by {
            if !t.edge_deletes.contains(x) {
                assert(edges.contains(x));
                assert(edges.to_set().contains(x));
                assert(g.edges.contains_key(x));
            }
        }
    }
    assert(notes(end, g0, more, number));
    assert(nodes_tracked(staged.insert(id, None), g0, h, ops, i + 1));
    lemma_edges_later(gone, g0, g, ops, i);
    assert(edges_tracked(after, g0, h, ops, i + 1)) by {
        assert forall|e: EdgeId| #[trigger] after.contains_key(e) <==> gone.contains_key(e)
            || g.incident(id).contains(e) by {
            assert(after.dom().contains(e) <==> gone.dom().contains(e) || edges.to_set().contains(
                e,
            ));
        }
    }
}

/// Whether an edge that one of the first `i` changes inserts leaves or enters a node.
pub open spec fn staged_at(ops: Seq<OpView>, i: int, id: NodeId, e: EdgeId) -> bool {
    staged_side(ops, i, id, true, e) || staged_side(ops, i, id, false, e)
}

/// Whether an edge that one of the first `i` changes inserts has a node at one side.
pub open spec fn staged_side(ops: Seq<OpView>, i: int, id: NodeId, leaving: bool, e: EdgeId) -> bool {
    exists|k: int|
        0 <= k < i && match #[trigger] ops[k] {
            OpView::InsertEdge(x) => x.id == e && id == if leaving {
                x.source
            } else {
                x.target
            },
            _ => false,
        }
}

/// The edges of a node that are there after the first `i` changes.
pub proof fn lemma_standing(
    eng: EngineView,
    gone: Map<EdgeId, bool>,
    g0: GraphView,
    g: GraphView,
    ops: Seq<OpView>,
    i: int,
    id: NodeId,
    e: EdgeId,
)
    requires
        0 <= i <= ops.len(),
        engine_matches(g0, eng),
        inserts_new(g0, ops),
        edges_tracked(gone, g0, g, ops, i),
    ensures
        g.incident(id).contains(e) <==> !gone.contains_key(e) && (incident_edges(
            eng,
            id,
        ).contains(e) || staged_at(ops, i, id, e)),
{
    lemma_incident_lists(g0, eng, id);
    assert(incident_edges(eng, id).contains(e) <==> incident_edges(eng, id).to_set().contains(e));
    if g.incident(id).contains(e) {
        assert(g.edges.contains_key(e));
        let x = g.edges[e];
        if !(g0.edges.contains_key(e) && x == g0.edges[e]) {
            let k = choose|k: int| 0 <= k < i && #[trigger] ops[k] == OpView::InsertEdge(x);
            if x.source == id {
                assert(staged_side(ops, i, id, true, e));
            } else {
                assert(staged_side(ops, i, id, false, e));
            }
        }
    }
    if !gone.contains_key(e) && incident_edges(eng, id).contains(e) {
        assert(g0.incident(id).contains(e));
        assert(g0.edges.contains_key(e));
        assert(g.edges.contains_key(e));
        if g.edges[e] != g0.edges[e] {
            let x = g.edges[e];
            let k = choose|k: int| 0 <= k < i && #[trigger] ops[k] == OpView::InsertEdge(x);
            assert(!g0.edges.contains_key(x.id));
        }
    }
    if !gone.contains_key(e) && staged_at(ops, i, id, e) {
        let leaving = staged_side(ops, i, id, true, e);
        let k = choose|k: int|
            0 <= k < i && match #[trigger] ops[k] {
                OpView::InsertEdge(x) => x.id == e && id == if leaving {
                    x.source
                } else {
                    x.target
                },
                _ => false,
            };
        assert(ops[k] is InsertEdge);
    }
}

/// Adds the edges of a list that are not gone.
pub fn keep_standing(list: &Vec<Neighbor>, gone: &IdMap<EdgeId, bool>, out: &mut Vec<EdgeId>)
    ensures
        forall|e: EdgeId| #[trigger]
            final(out)@.contains(e) <==> old(out)@.contains(e) || !gone@.contains_key(e)
                && edge_ids(list@).contains(e),
{
    let ghost ids = edge_ids(list@);
    let mut i: usize = 0;
    while i < list.len()
        invariant
            i <= list.len(),
            ids == edge_ids(list@),
            forall|e: EdgeId| #[trigger]
                out@.contains(e) <==> old(out)@.contains(e) || !gone@.contains_key(e)
                    && ids.take(i as int).contains(e),
        decreases list.len() - i,
    {
        let id = list[i].edge_id;
        let ghost was = out@;
        if !gone.contains_key(id) {
            out.push(id);
        }
        proof {
            assert(ids[i as int] == id);
            assert forall|e: EdgeId| #[trigger] out@.contains(e) <==> old(out)@.contains(e)
                || !gone@.contains_key(e) && ids.take(i + 1).contains(e) by {
                lemma_take_contains(ids, i as int, e);
                if !gone@.contains_key(id) {
                    lemma_push_contains(was, id, e);
                }
                assert(was.contains(e) <==> old(out)@.contains(e) || !gone@.contains_key(e)
                    && ids.take(i as int).contains(e));
            }
        }
        i += 1;
    }
    assert(ids.take(i as int) =~= ids);
}

proof fn lemma_take_contains(s: Seq<EdgeId>, i: int, e: EdgeId)
    requires
        0 <= i < s.len(),
    ensures
        s.take(i + 1).contains(e) <==> s.take(i).contains(e) || s[i] == e,
{
    assert(s.take(i + 1) =~= s.take(i).push(s[i]));
    lemma_push_contains(s.take(i), s[i], e);
}

proof fn lemma_push_contains(s: Seq<EdgeId>, x: EdgeId, e: EdgeId)
    ensures
        s.push(x).contains(e) <==> s.contains(e) || x == e,
{
    let t = s.push(x);
    if s.contains(e) {
        let k = choose|k: int| 0 <= k < s.len() && s[k] == e;
        assert(t[k] == e);
    }
    if x == e {
        assert(t[s.len() as int] == e);
    }
    if t.contains(e) && x != e {
        let k = choose|k: int| 0 <= k < t.len() && t[k] == e;
        assert(s[k] == e);
    }
}

/// Adds the edges that the first `n` changes insert at one side of a node and that are
/// not gone.
pub fn keep_staged(
    ops: &Vec<StagedOp>,
    n: usize,
    id: NodeId,
    leaving: bool,
    gone: &IdMap<EdgeId, bool>,
    out: &mut Vec<EdgeId>,
)
    requires
        n <= ops.len(),
    ensures
        forall|e: EdgeId| #[trigger]
            final(out)@.contains(e) <==> old(out)@.contains(e) || !gone@.contains_key(e)
                && staged_side(op_views(ops@), n as int, id, leaving, e),
{
    let ghost all = op_views(ops@);
    let mut i: usize = 0;
    while i < n
        invariant
            i <= n <= ops.len(),
            all == op_views(ops@),
            forall|e: EdgeId| #[trigger]
                out@.contains(e) <==> old(out)@.contains(e) || !gone@.contains_key(e)
                    && staged_side(all, i as int, id, leaving, e),
        decreases n - i,
    {
        let ghost was = out@;
        assert(all[i as int] == ops[i as int]@);
        match &ops[i] {
            StagedOp::InsertEdge { edge } => {
                let end = if leaving {
                    edge.source
                } else {
                    edge.target
                };
                if end == id && !gone.contains_key(edge.id) {
                    out.push(edge.id);
                }
            },
            _ => {},
        }
        proof {
            assert forall|e: EdgeId| #[trigger] out@.contains(e) <==> old(out)@.contains(e)
                || !gone@.contains_key(e) && staged_side(all, i + 1, id, leaving, e) by {
                lemma_staged_side(all, i as int, id, leaving, e);
                if let OpView::InsertEdge(x) = all[i as int] {
                    lemma_push_contains(was, x.id, e);
                }
                assert(was.contains(e) <==> old(out)@.contains(e) || !gone@.contains_key(e)
                    && staged_side(all, i as int, id, leaving, e));
            }
        }
        i += 1;
    }
}

proof fn lemma_staged_side(ops: Seq<OpView>, i: int, id: NodeId, leaving: bool, e: EdgeId)
    requires
        0 <= i < ops.len(),
    ensures
        staged_side(ops, i + 1, id, leaving, e) <==> staged_side(ops, i, id, leaving, e) || (
        match ops[i] {
            OpView::InsertEdge(x) => x.id == e && id == if leaving {
                x.source
            } else {
                x.target
            },
            _ => false,
        }),
{
}

} // verus!
