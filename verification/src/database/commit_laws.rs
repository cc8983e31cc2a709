//! What committing staged changes amounts to, change by change.

use crate::database::batch::{
    apply_ops, counted_deletes, counted_ops, deleted_edges, deleted_nodes, inserted_edges,
    inserted_nodes, lemma_missing_end, missing_end,
};
use crate::database::coherence::GraphView;
use crate::database::layered::committing::reports;
use crate::database::metrics::DatabaseMetrics;
use crate::model::edge_id::EdgeId;
use crate::model::node_id::NodeId;
use crate::transaction::{CommitResult, OpView};
use vstd::prelude::*;

verus! {

/// How many of the changes insert a node.
pub open spec fn node_insertions(ops: Seq<OpView>) -> nat {
    ops.filter(|op: OpView| op is InsertNode).len()
}

/// How many of the changes insert an edge.
pub open spec fn edge_insertions(ops: Seq<OpView>) -> nat {
    ops.filter(|op: OpView| op is InsertEdge).len()
}

/// How many of the changes delete a node.
pub open spec fn node_deletions(ops: Seq<OpView>) -> nat {
    ops.filter(|op: OpView| op is DeleteNode).len()
}

/// How many of the changes delete an edge.
pub open spec fn edge_deletions(ops: Seq<OpView>) -> nat {
    ops.filter(|op: OpView| op is DeleteEdge).len()
}

proof fn lemma_numbers(ops: Seq<OpView>)
    ensures
        ops.len() == 0 ==> node_insertions(ops) == 0 && edge_insertions(ops) == 0
            && node_deletions(ops) == 0 && edge_deletions(ops) == 0,
        ops.len() > 0 ==> {
            let rest = ops.drop_last();
            let op = ops.last();
            &&& node_insertions(ops) == node_insertions(rest) + (if op is InsertNode {
                1nat
            } else {
                0
            })
            &&& edge_insertions(ops) == edge_insertions(rest) + (if op is InsertEdge {
                1nat
            } else {
                0
            })
            &&& node_deletions(ops) == node_deletions(rest) + (if op is DeleteNode {
                1nat
            } else {
                0
            })
            &&& edge_deletions(ops) == edge_deletions(rest) + (if op is DeleteEdge {
                1nat
            } else {
                0
            })
        },
{
    reveal(Seq::filter);
}

proof fn lemma_listed(ops: Seq<OpView>, i: int)
    ensures
        inserted_nodes(ops).len() == node_insertions(ops),
        inserted_edges(ops).len() == edge_insertions(ops),
        deleted_nodes(ops).len() == node_deletions(ops),
        deleted_edges(ops).len() == edge_deletions(ops),
        0 <= i < ops.len() ==> match ops[i] {
            OpView::InsertNode(n) => {
                let k = node_insertions(ops.take(i));
                k < inserted_nodes(ops).len() && inserted_nodes(ops)[k as int] == n.id
            },
            OpView::InsertEdge(e) => {
                let k = edge_insertions(ops.take(i));
                k < inserted_edges(ops).len() && inserted_edges(ops)[k as int] == e.id
            },
            OpView::DeleteNode(id) => {
                let k = node_deletions(ops.take(i));
                k < deleted_nodes(ops).len() && deleted_nodes(ops)[k as int] == id
            },
            OpView::DeleteEdge(id) => {
                let k = edge_deletions(ops.take(i));
                k < deleted_edges(ops).len() && deleted_edges(ops)[k as int] == id
            },
        },
    decreases ops.len(),
{
    lemma_numbers(ops);
    if ops.len() > 0 {
        let rest = ops.drop_last();
        lemma_listed(rest, i);
        if i == ops.len() - 1 {
            assert(ops.take(i) =~= rest);
        } else if 0 <= i < rest.len() {
            assert(ops.take(i) =~= rest.take(i));
        }
    }
}

/// The report of a commit lists every staged change, in the order of staging: each of
/// its four lists is as long as there are changes of its kind, and the change at a
/// position stands behind those of its kind that were staged before it.
pub proof fn law_report_lists_every_change(r: CommitResult, ops: Seq<OpView>)
    requires
        reports(r, ops),
    ensures
        r.inserted_node_ids@.len() == node_insertions(ops),
        r.inserted_edge_ids@.len() == edge_insertions(ops),
        r.deleted_node_ids@.len() == node_deletions(ops),
        r.deleted_edge_ids@.len() == edge_deletions(ops),
        forall|i: int|
            0 <= i < ops.len() ==> match #[trigger] ops[i] {
                OpView::InsertNode(n) => {
                    let k = node_insertions(ops.take(i));
                    k < r.inserted_node_ids@.len() && r.inserted_node_ids@[k as int] == n.id
                },
                OpView::InsertEdge(e) => {
                    let k = edge_insertions(ops.take(i));
                    k < r.inserted_edge_ids@.len() && r.inserted_edge_ids@[k as int] == e.id
                },
                OpView::DeleteNode(id) => {
                    let k = node_deletions(ops.take(i));
                    k < r.deleted_node_ids@.len() && r.deleted_node_ids@[k as int] == id
                },
                OpView::DeleteEdge(id) => {
                    let k = edge_deletions(ops.take(i));
                    k < r.deleted_edge_ids@.len() && r.deleted_edge_ids@[k as int] == id
                },
            },
{
    lemma_listed(ops, -1);
    assert forall|i: int| 0 <= i < ops.len() implies match #[trigger] ops[i] {
        OpView::InsertNode(n) => {
            let k = node_insertions(ops.take(i));
            k < r.inserted_node_ids@.len() && r.inserted_node_ids@[k as int] == n.id
        },
        OpView::InsertEdge(e) => {
            let k = edge_insertions(ops.take(i));
            k < r.inserted_edge_ids@.len() && r.inserted_edge_ids@[k as int] == e.id
        },
        OpView::DeleteNode(id) => {
            let k = node_deletions(ops.take(i));
            k < r.deleted_node_ids@.len() && r.deleted_node_ids@[k as int] == id
        },
        OpView::DeleteEdge(id) => {
            let k = edge_deletions(ops.take(i));
            k < r.deleted_edge_ids@.len() && r.deleted_edge_ids@[k as int] == id
        },
    } by {
        lemma_listed(ops, i);
    }
}

/// Each counter of inserted and deleted things grows by the number of changes of its
/// kind, starting again at zero where it runs over, and the other counters stay.
pub proof fn law_counters_count_changes(m: DatabaseMetrics, ops: Seq<OpView>)
    ensures
        counted_ops(m, ops) == (DatabaseMetrics {
            nodes_inserted: counted_ops(m, ops).nodes_inserted,
            edges_inserted: counted_ops(m, ops).edges_inserted,
            nodes_deleted: counted_ops(m, ops).nodes_deleted,
            edges_deleted: counted_ops(m, ops).edges_deleted,
            ..m
        }),
        counted_ops(m, ops).nodes_inserted == (m.nodes_inserted + node_insertions(ops))
            % 0x1_0000_0000_0000_0000,
        counted_ops(m, ops).edges_inserted == (m.edges_inserted + edge_insertions(ops))
            % 0x1_0000_0000_0000_0000,
        counted_ops(m, ops).nodes_deleted == (m.nodes_deleted + node_deletions(ops))
            % 0x1_0000_0000_0000_0000,
        counted_ops(m, ops).edges_deleted == (m.edges_deleted + edge_deletions(ops))
            % 0x1_0000_0000_0000_0000,
    decreases ops.len(),
{
    lemma_numbers(ops);
    if ops.len() > 0 {
        law_counters_count_changes(m, ops.drop_last());
    }
}

/// The number of writes grows by the number of deletions.
pub proof fn law_writes_count_deletions(writes: usize, ops: Seq<OpView>)
    ensures
        counted_deletes(writes, ops) == (writes + node_deletions(ops) + edge_deletions(ops)) % (
        usize::MAX + 1),
    decreases ops.len(),
{
    lemma_numbers(ops);
    if ops.len() > 0 {
        let rest = ops.drop_last();
        law_writes_count_deletions(writes, rest);
        let m = usize::MAX + 1;
        let x = (writes + node_deletions(rest) + edge_deletions(rest)) as int;
        vstd::arithmetic::div_mod::lemma_add_mod_noop(x, 1, m);
        if counted_deletes(writes, rest) == usize::MAX {
            vstd::arithmetic::div_mod::lemma_mod_self_0(m);
        } else {
            vstd::arithmetic::div_mod::lemma_small_mod(((x % m) + 1) as nat, m as nat);
        }
        vstd::arithmetic::div_mod::lemma_small_mod(1, m as nat);
    } else {
        vstd::arithmetic::div_mod::lemma_small_mod(writes as nat, (usize::MAX + 1) as nat);
    }
}

/// Whether a change inserts or deletes a node.
pub open spec fn is_about_node(op: OpView, id: NodeId) -> bool {
    ||| op matches OpView::InsertNode(n) && n.id == id
    ||| op == OpView::DeleteNode(id)
}

/// Whether a change inserts or deletes an edge.
pub open spec fn is_about_edge(op: OpView, id: EdgeId) -> bool {
    ||| op matches OpView::InsertEdge(e) && e.id == id
    ||| op == OpView::DeleteEdge(id)
}

/// The last change to a node decides: a node that is inserted and not changed again is
/// there as it was inserted, one that is deleted and not inserted again is not there,
/// and one that no change is about is as it was.
pub proof fn law_last_change_to_node_decides(g: GraphView, ops: Seq<OpView>, i: int, id: NodeId)
    requires
        apply_ops(g, ops) is Ok,
        -1 <= i < ops.len(),
        forall|j: int| i < j < ops.len() ==> !is_about_node(#[trigger] ops[j], id),
    ensures
        ({
            let nodes = apply_ops(g, ops)->Ok_0.nodes;
            &&& i == -1 ==> nodes.contains_key(id) == g.nodes.contains_key(id)
            &&& i == -1 && g.nodes.contains_key(id) ==> nodes[id] == g.nodes[id]
            &&& i >= 0 && ops[i] == OpView::DeleteNode(id) ==> !nodes.contains_key(id)
            &&& i >= 0 && (ops[i] matches OpView::InsertNode(n) && n.id == id) ==> {
                &&& nodes.contains_key(id)
                &&& OpView::InsertNode(nodes[id]) == ops[i]
            }
        }),
    decreases ops.len(),
{
    if ops.len() > 0 {
        let rest = ops.drop_last();
        if i < rest.len() {
            assert(!is_about_node(ops[ops.len() - 1], id));
            assert forall|j: int| i < j < rest.len() implies !is_about_node(
                #[trigger] rest[j],
                id,
            ) by {
                assert(rest[j] == ops[j]);
            }
            law_last_change_to_node_decides(g, rest, i, id);
            if i >= 0 {
                assert(rest[i] == ops[i]);
            }
        }
    }
}

/// The last change to an edge decides, unless one of its ends is deleted behind it: an
/// edge that is inserted then is there as it was inserted, one that is deleted is not
/// there, and one that no change is about is as it was.
pub proof fn law_last_change_to_edge_decides(g: GraphView, ops: Seq<OpView>, i: int, id: EdgeId)
    requires
        apply_ops(g, ops) is Ok,
        -1 <= i < ops.len(),
        forall|j: int| i < j < ops.len() ==> !is_about_edge(#[trigger] ops[j], id),
    ensures
        ({
            let edges = apply_ops(g, ops)->Ok_0.edges;
            &&& i >= 0 && ops[i] == OpView::DeleteEdge(id) ==> !edges.contains_key(id)
            &&& i == -1 && !g.edges.contains_key(id) ==> !edges.contains_key(id)
            &&& i == -1 && g.edges.contains_key(id) && (forall|j: int|
                0 <= j < ops.len() ==> #[trigger] ops[j] != OpView::DeleteNode(g.edges[id].source)
                    && ops[j] != OpView::DeleteNode(g.edges[id].target))
                ==> edges.contains_key(id) && edges[id] == g.edges[id]
            &&& i >= 0 && (ops[i] matches OpView::InsertEdge(e) && e.id == id) && (forall|j: int|
                i < j < ops.len() ==> #[trigger] ops[j] != OpView::DeleteNode(
                    ops[i]->InsertEdge_0.source,
                ) && ops[j] != OpView::DeleteNode(ops[i]->InsertEdge_0.target))
                ==> edges.contains_key(id) && OpView::InsertEdge(edges[id]) == ops[i]
        }),
    decreases ops.len(),
{
    if ops.len() > 0 {
        let rest = ops.drop_last();
        if i < rest.len() {
            assert(!is_about_edge(ops[ops.len() - 1], id));
            assert forall|j: int| i < j < rest.len() implies !is_about_edge(
                #[trigger] rest[j],
                id,
            ) by {
                assert(rest[j] == ops[j]);
            }
            law_last_change_to_edge_decides(g, rest, i, id);
            assert(forall|j: int| 0 <= j < rest.len() ==> #[trigger] rest[j] == ops[j]);
            assert(ops.last() == ops[ops.len() - 1]);
        }
    }
}

/// Deleting a node takes the edges that touch it with it, also those that were
/// inserted by the same transaction before.
pub proof fn law_deleted_node_takes_its_edges(g: GraphView, ops: Seq<OpView>, id: NodeId)
    requires
        apply_ops(g, ops.push(OpView::DeleteNode(id))) is Ok,
    ensures
        ({
            let before = apply_ops(g, ops)->Ok_0;
            let after = apply_ops(g, ops.push(OpView::DeleteNode(id)))->Ok_0;
            &&& !after.nodes.contains_key(id)
            &&& forall|x: NodeId|
                x != id ==> (#[trigger] after.nodes.contains_key(x) == before.nodes.contains_key(
                    x,
                ))
            &&& forall|x: EdgeId| #[trigger]
                after.edges.contains_key(x) <==> before.edges.contains_key(x)
                    && before.edges[x].source != id && before.edges[x].target != id
            &&& forall|x: EdgeId| #[trigger]
                after.edges.contains_key(x) ==> after.edges[x] == before.edges[x]
        }),
{
    let all = ops.push(OpView::DeleteNode(id));
    assert(all.drop_last() =~= ops);
}

/// Changes are refused where a node is missing that an inserted edge needs: one that
/// was not there and that no earlier change inserts.
pub proof fn law_edge_needs_its_ends(g: GraphView, ops: Seq<OpView>, i: int, id: NodeId)
    requires
        0 <= i < ops.len(),
        ops[i] matches OpView::InsertEdge(e) && (e.source == id || e.target == id),
        !g.nodes.contains_key(id),
        forall|j: int|
            0 <= j < i ==> !(#[trigger] ops[j] matches OpView::InsertNode(n) && n.id == id),
    ensures
        apply_ops(g, ops) is Err,
    decreases ops.len(),
{
    let rest = ops.drop_last();
    if i < rest.len() {
        assert(rest[i] == ops[i]);
        assert forall|j: int| 0 <= j < i implies !(#[trigger] rest[j] matches OpView::InsertNode(n)
            && n.id == id) by {
            assert(rest[j] == ops[j]);
        }
        law_edge_needs_its_ends(g, rest, i, id);
    } else if apply_ops(g, rest) is Ok {
        assert forall|j: int| 0 <= j < rest.len() implies !(
        #[trigger] rest[j] matches OpView::InsertNode(n) && n.id == id) by {
            assert(rest[j] == ops[j]);
        }
        lemma_not_inserted(g, rest, id);
    }
}

proof fn lemma_not_inserted(g: GraphView, ops: Seq<OpView>, id: NodeId)
    requires
        apply_ops(g, ops) is Ok,
        !g.nodes.contains_key(id),
        forall|j: int|
            0 <= j < ops.len() ==> !(#[trigger] ops[j] matches OpView::InsertNode(n) && n.id == id),
    ensures
        !apply_ops(g, ops)->Ok_0.nodes.contains_key(id),
    decreases ops.len(),
{
    if ops.len() > 0 {
        let rest = ops.drop_last();
        assert(ops.last() == ops[ops.len() - 1]);
        assert forall|j: int| 0 <= j < rest.len() implies !(
        #[trigger] rest[j] matches OpView::InsertNode(n) && n.id == id) by {
            assert(rest[j] == ops[j]);
        }
        lemma_not_inserted(g, rest, id);
    }
}

/// Changes are refused for no other reason: without an inserted edge they all apply,
/// and with every node of every inserted edge there from the start and not deleted.
pub proof fn law_changes_with_their_ends_apply(g: GraphView, ops: Seq<OpView>)
    requires
        forall|j: int, k: int|
            0 <= j < k < ops.len() ==> (#[trigger] ops[k] matches OpView::InsertEdge(e)
                ==> #[trigger] ops[j] != OpView::DeleteNode(e.source) && ops[j]
                != OpView::DeleteNode(e.target)),
        forall|k: int|
            0 <= k < ops.len() ==> (#[trigger] ops[k] matches OpView::InsertEdge(e)
                ==> g.nodes.contains_key(e.source) && g.nodes.contains_key(e.target)),
    ensures
        apply_ops(g, ops) is Ok,
    decreases ops.len(),
{
    if ops.len() > 0 {
        let rest = ops.drop_last();
        assert(forall|j: int| 0 <= j < rest.len() ==> #[trigger] rest[j] == ops[j]);
        assert forall|j: int, k: int| 0 <= j < k < rest.len() implies (
        #[trigger] rest[k] matches OpView::InsertEdge(e) ==> #[trigger] rest[j]
            != OpView::DeleteNode(e.source) && rest[j] != OpView::DeleteNode(e.target)) by {
            assert(rest[k] == ops[k] && rest[j] == ops[j]);
        }
        law_changes_with_their_ends_apply(g, rest);
        let last = ops.len() - 1;
        assert(ops.last() == ops[last]);
        if ops[last] is InsertEdge {
            let e = ops[last]->InsertEdge_0;
            assert forall|j: int| 0 <= j < rest.len() implies #[trigger] rest[j]
                != OpView::DeleteNode(e.source) && rest[j] != OpView::DeleteNode(e.target) by {
                assert(ops[last] matches OpView::InsertEdge(x) && x == e);
                assert(ops[j] != OpView::DeleteNode(e.source));
            }
            lemma_not_deleted(g, rest, e.source);
            lemma_not_deleted(g, rest, e.target);
        }
    }
}

proof fn lemma_not_deleted(g: GraphView, ops: Seq<OpView>, id: NodeId)
    requires
        apply_ops(g, ops) is Ok,
        g.nodes.contains_key(id),
        forall|j: int| 0 <= j < ops.len() ==> #[trigger] ops[j] != OpView::DeleteNode(id),
    ensures
        apply_ops(g, ops)->Ok_0.nodes.contains_key(id),
    decreases ops.len(),
{
    if ops.len() > 0 {
        let rest = ops.drop_last();
        assert(ops.last() == ops[ops.len() - 1]);
        assert(forall|j: int| 0 <= j < rest.len() ==> #[trigger] rest[j] == ops[j]);
        lemma_not_deleted(g, rest, id);
    }
}

/// A commit is refused for the first node that is missing: all changes before the one that
/// needs it can be made, that change inserts an edge with the node as its source, or as its
/// target where the source is there, and the node is not there then.
pub proof fn law_refusal_names_the_first_missing_node(g: GraphView, ops: Seq<OpView>)
    ensures
        missing_end(g.nodes.dom(), ops) is None <==> apply_ops(g, ops) is Ok,
        missing_end(g.nodes.dom(), ops) matches Some(id) ==> exists|i: int|
            0 <= i < ops.len() && refused_at(g, ops, i, id),
    decreases ops.len(),
{
    lemma_missing_end(g, ops);
    if missing_end(g.nodes.dom(), ops) is Some {
        let id = missing_end(g.nodes.dom(), ops)->0;
        let rest = ops.drop_last();
        law_refusal_names_the_first_missing_node(g, rest);
        if missing_end(g.nodes.dom(), rest) is Some {
            let i = choose|i: int| 0 <= i < rest.len() && refused_at(g, rest, i, id);
            assert(rest.take(i) =~= ops.take(i));
            assert(rest[i] == ops[i]);
            assert(refused_at(g, ops, i, id));
        } else {
            let i = ops.len() - 1;
            assert(ops.take(i) =~= rest);
            assert(refused_at(g, ops, i, id));
        }
    }
}

/// Whether the change at a position is the first that cannot be made, for want of a node.
pub open spec fn refused_at(g: GraphView, ops: Seq<OpView>, i: int, id: NodeId) -> bool {
    &&& apply_ops(g, ops.take(i)) matches Ok(h) && !h.nodes.contains_key(id) && (
    ops[i] matches OpView::InsertEdge(e) && (e.source == id || (h.nodes.contains_key(e.source)
        && e.target == id)))
}

} // verus!
