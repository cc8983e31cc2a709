//! What the staged changes of a transaction amount to.

use crate::database::coherence::GraphView;
use crate::database::metrics::{next, DatabaseMetrics};
use crate::model::edge_id::EdgeId;
use crate::model::node_id::NodeId;
use crate::ports::storage::{storable_edge, storable_node};
use crate::transaction::OpView;
use vstd::prelude::*;

verus! {

/// The graph after one change, or the node that is missing for it.
pub open spec fn apply_op(g: GraphView, op: OpView) -> Result<GraphView, NodeId> {
    match op {
        OpView::InsertNode(n) => Ok(g.insert_node(n)),
        OpView::InsertEdge(e) => if !g.nodes.contains_key(e.source) {
            Err(e.source)
        } else if !g.nodes.contains_key(e.target) {
            Err(e.target)
        } else {
            Ok(g.insert_edge(e))
        },
        OpView::DeleteNode(id) => Ok(g.delete_node(id)),
        OpView::DeleteEdge(id) => Ok(g.delete_edge(id)),
    }
}

/// The graph after changes in order, or the first node that is missing for one.
pub open spec fn apply_ops(g: GraphView, ops: Seq<OpView>) -> Result<GraphView, NodeId>
    decreases ops.len(),
{
    if ops.len() == 0 {
        Ok(g)
    } else {
        match apply_ops(g, ops.drop_last()) {
            Ok(h) => apply_op(h, ops.last()),
            Err(id) => Err(id),
        }
    }
}

/// Whether a node is there after changes, given the nodes that were there before.
pub open spec fn present_after(nodes: Set<NodeId>, ops: Seq<OpView>, id: NodeId) -> bool
    decreases ops.len(),
{
    if ops.len() == 0 {
        nodes.contains(id)
    } else {
        match ops.last() {
            OpView::InsertNode(n) if n.id == id => true,
            OpView::DeleteNode(x) if x == id => false,
            _ => present_after(nodes, ops.drop_last(), id),
        }
    }
}

/// The first node that is missing for the insertion of an edge, given the nodes
/// that were there before.
pub open spec fn missing_end(nodes: Set<NodeId>, ops: Seq<OpView>) -> Option<NodeId>
    decreases ops.len(),
{
    if ops.len() == 0 {
        None
    } else {
        match missing_end(nodes, ops.drop_last()) {
            Some(id) => Some(id),
            None => match ops.last() {
                OpView::InsertEdge(e) => if !present_after(nodes, ops.drop_last(), e.source) {
                    Some(e.source)
                } else if !present_after(nodes, ops.drop_last(), e.target) {
                    Some(e.target)
                } else {
                    None
                },
                _ => None,
            },
        }
    }
}

/// Changes can be applied to a graph unless a node is missing.
pub proof fn lemma_missing_end(g: GraphView, ops: Seq<OpView>)
    ensures
        match apply_ops(g, ops) {
            Ok(h) => missing_end(g.nodes.dom(), ops) is None && forall|id: NodeId| #[trigger]
                h.nodes.contains_key(id) <==> present_after(g.nodes.dom(), ops, id),
            Err(id) => missing_end(g.nodes.dom(), ops) == Some(id),
        },
    decreases ops.len(),
{
    if ops.len() > 0 {
        lemma_missing_end(g, ops.drop_last());
    }
}

/// Whether one of the changes inserts the node.
pub open spec fn inserts_node(ops: Seq<OpView>, id: NodeId) -> bool {
    exists|i: int|
        0 <= i < ops.len() && (match #[trigger] ops[i] {
            OpView::InsertNode(n) => n.id == id,
            _ => false,
        })
}

/// Whether one of the changes inserts or deletes the node.
pub open spec fn touches_node(ops: Seq<OpView>, id: NodeId) -> bool {
    exists|i: int|
        0 <= i < ops.len() && (match #[trigger] ops[i] {
            OpView::InsertNode(n) => n.id == id,
            OpView::DeleteNode(x) => x == id,
            _ => false,
        })
}

/// Whether one of the changes inserts or deletes the edge.
pub open spec fn touches_edge(ops: Seq<OpView>, id: EdgeId) -> bool {
    exists|i: int|
        0 <= i < ops.len() && (match #[trigger] ops[i] {
            OpView::InsertEdge(e) => e.id == id,
            OpView::DeleteEdge(x) => x == id,
            _ => false,
        })
}

/// Whether changes insert only what is new: neither in the graph nor touched by
/// an earlier change. So it is with the changes of a transaction, if nothing was
/// inserted since it began.
pub open spec fn inserts_new(g: GraphView, ops: Seq<OpView>) -> bool {
    forall|i: int|
        0 <= i < ops.len() ==> match #[trigger] ops[i] {
            OpView::InsertNode(n) => !g.nodes.contains_key(n.id) && !touches_node(
                ops.take(i),
                n.id,
            ),
            OpView::InsertEdge(e) => !g.edges.contains_key(e.id) && !touches_edge(
                ops.take(i),
                e.id,
            ),
            _ => true,
        }
}

pub proof fn lemma_touches_push(ops: Seq<OpView>, i: int)
    requires
        0 <= i < ops.len(),
    ensures
        forall|id: NodeId| #[trigger]
            touches_node(ops.take(i + 1), id) <==> touches_node(ops.take(i), id) || (match ops[i] {
                OpView::InsertNode(n) => n.id == id,
                OpView::DeleteNode(x) => x == id,
                _ => false,
            }),
        forall|id: EdgeId| #[trigger]
            touches_edge(ops.take(i + 1), id) <==> touches_edge(ops.take(i), id) || (match ops[i] {
                OpView::InsertEdge(e) => e.id == id,
                OpView::DeleteEdge(x) => x == id,
                _ => false,
            }),
        forall|id: NodeId| #[trigger]
            inserts_node(ops.take(i + 1), id) <==> inserts_node(ops.take(i), id) || (match ops[i] {
                OpView::InsertNode(n) => n.id == id,
                _ => false,
            }),
        forall|id: NodeId| #[trigger]
            inserts_node(ops.take(i), id) ==> touches_node(ops.take(i), id),
{
    let a = ops.take(i);
    let b = ops.take(i + 1);
    assert(b[i] == ops[i]);
    assert forall|j: int| 0 <= j < a.len() implies #[trigger] a[j] == b[j] by {}
    assert forall|id: NodeId| #[trigger] touches_node(b, id) implies touches_node(a, id) || (
    match ops[i] {
        OpView::InsertNode(n) => n.id == id,
        OpView::DeleteNode(x) => x == id,
        _ => false,
    }) by {
        let j = choose|j: int|
            0 <= j < b.len() && (match #[trigger] b[j] {
                OpView::InsertNode(n) => n.id == id,
                OpView::DeleteNode(x) => x == id,
                _ => false,
            });
        if j < i {
            assert(a[j] == b[j]);
        }
    }
    assert forall|id: NodeId| #[trigger] touches_node(a, id) implies touches_node(b, id) by {
        let j = choose|j: int|
            0 <= j < a.len() && (match #[trigger] a[j] {
                OpView::InsertNode(n) => n.id == id,
                OpView::DeleteNode(x) => x == id,
                _ => false,
            });
        assert(a[j] == b[j]);
    }
    assert forall|id: EdgeId| #[trigger] touches_edge(b, id) implies touches_edge(a, id) || (
    match ops[i] {
        OpView::InsertEdge(e) => e.id == id,
        OpView::DeleteEdge(x) => x == id,
        _ => false,
    }) by {
        let j = choose|j: int|
            0 <= j < b.len() && (match #[trigger] b[j] {
                OpView::InsertEdge(e) => e.id == id,
                OpView::DeleteEdge(x) => x == id,
                _ => false,
            });
        if j < i {
            assert(a[j] == b[j]);
        }
    }
    assert forall|id: EdgeId| #[trigger] touches_edge(a, id) implies touches_edge(b, id) by {
        let j = choose|j: int|
            0 <= j < a.len() && (match #[trigger] a[j] {
                OpView::InsertEdge(e) => e.id == id,
                OpView::DeleteEdge(x) => x == id,
                _ => false,
            });
        assert(a[j] == b[j]);
    }
    assert forall|id: NodeId| #[trigger] inserts_node(b, id) implies inserts_node(a, id) || (
    match ops[i] {
        OpView::InsertNode(n) => n.id == id,
        _ => false,
    }) by {
        let j = choose|j: int|
            0 <= j < b.len() && (match #[trigger] b[j] {
                OpView::InsertNode(n) => n.id == id,
                _ => false,
            });
        if j < i {
            assert(a[j] == b[j]);
        }
    }
    assert forall|id: NodeId| #[trigger] inserts_node(a, id) implies inserts_node(b, id)
        && touches_node(a, id) by {
        let j = choose|j: int|
            0 <= j < a.len() && (match #[trigger] a[j] {
                OpView::InsertNode(n) => n.id == id,
                _ => false,
            });
        assert(a[j] == b[j]);
    }
}

/// What a graph holds after changes was there before or touched by one.
pub proof fn lemma_applied_touched(g: GraphView, ops: Seq<OpView>)
    requires
        apply_ops(g, ops) is Ok,
    ensures
        forall|id: NodeId| #[trigger]
            apply_ops(g, ops)->Ok_0.nodes.contains_key(id) ==> g.nodes.contains_key(id)
                || inserts_node(ops, id),
        forall|id: EdgeId| #[trigger]
            apply_ops(g, ops)->Ok_0.edges.contains_key(id) ==> g.edges.contains_key(id)
                || touches_edge(ops, id),
    decreases ops.len(),
{
    if ops.len() > 0 {
        let n = ops.len() - 1;
        let t = ops.drop_last();
        lemma_applied_touched(g, t);
        lemma_touches_push(ops, n as int);
        assert(ops.take(n as int) =~= t);
        assert(ops.take(n + 1) =~= ops);
    }
}

/// Whether the texts and counts of everything that is inserted fit 32-bit lengths.
pub open spec fn storable_ops(ops: Seq<OpView>) -> bool {
    forall|i: int|
        0 <= i < ops.len() ==> match #[trigger] ops[i] {
            OpView::InsertNode(n) => storable_node(n),
            OpView::InsertEdge(e) => storable_edge(e),
            _ => true,
        }
}

/// The nodes that changes insert, in order.
pub open spec fn inserted_nodes(ops: Seq<OpView>) -> Seq<NodeId>
    decreases ops.len(),
{
    if ops.len() == 0 {
        Seq::empty()
    } else {
        match ops.last() {
            OpView::InsertNode(n) => inserted_nodes(ops.drop_last()).push(n.id),
            _ => inserted_nodes(ops.drop_last()),
        }
    }
}

/// The edges that changes insert, in order.
pub open spec fn inserted_edges(ops: Seq<OpView>) -> Seq<EdgeId>
    decreases ops.len(),
{
    if ops.len() == 0 {
        Seq::empty()
    } else {
        match ops.last() {
            OpView::InsertEdge(e) => inserted_edges(ops.drop_last()).push(e.id),
            _ => inserted_edges(ops.drop_last()),
        }
    }
}

/// The nodes that changes delete, in order.
pub open spec fn deleted_nodes(ops: Seq<OpView>) -> Seq<NodeId>
    decreases ops.len(),
{
    if ops.len() == 0 {
        Seq::empty()
    } else {
        match ops.last() {
            OpView::DeleteNode(id) => deleted_nodes(ops.drop_last()).push(id),
            _ => deleted_nodes(ops.drop_last()),
        }
    }
}

/// The edges that changes delete, in order.
pub open spec fn deleted_edges(ops: Seq<OpView>) -> Seq<EdgeId>
    decreases ops.len(),
{
    if ops.len() == 0 {
        Seq::empty()
    } else {
        match ops.last() {
            OpView::DeleteEdge(id) => deleted_edges(ops.drop_last()).push(id),
            _ => deleted_edges(ops.drop_last()),
        }
    }
}

/// The counters after changes, apart from what the cache served.
pub open spec fn counted_ops(m: DatabaseMetrics, ops: Seq<OpView>) -> DatabaseMetrics
    decreases ops.len(),
{
    if ops.len() == 0 {
        m
    } else {
        let b = counted_ops(m, ops.drop_last());
        match ops.last() {
            OpView::InsertNode(_) => DatabaseMetrics {
                nodes_inserted: next(b.nodes_inserted),
                ..b
            },
            OpView::InsertEdge(_) => DatabaseMetrics {
                edges_inserted: next(b.edges_inserted),
                ..b
            },
            OpView::DeleteNode(_) => DatabaseMetrics { nodes_deleted: next(b.nodes_deleted), ..b },
            OpView::DeleteEdge(_) => DatabaseMetrics { edges_deleted: next(b.edges_deleted), ..b },
        }
    }
}

/// The number of writes after changes, of which each deletion counts.
pub open spec fn counted_deletes(writes: usize, ops: Seq<OpView>) -> usize
    decreases ops.len(),
{
    if ops.len() == 0 {
        writes
    } else {
        let b = counted_deletes(writes, ops.drop_last());
        match ops.last() {
            OpView::DeleteNode(_) => crate::database::layered::one_more(b),
            OpView::DeleteEdge(_) => crate::database::layered::one_more(b),
            _ => b,
        }
    }
}

} // verus!
