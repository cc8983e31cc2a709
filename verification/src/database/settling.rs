//! The graph that a storage will hold once its open transaction is committed.

use crate::database::coherence::GraphView;
use crate::model::edge::EdgeView;
use crate::model::edge_id::EdgeId;
use crate::model::node::NodeView;
use crate::model::node_id::NodeId;
use crate::ports::storage::{insert_edges, insert_nodes, StorageView};
use vstd::prelude::*;

verus! {

/// The graph that a storage holds.
pub open spec fn stored_graph(st: StorageView) -> GraphView {
    GraphView { nodes: st.nodes, edges: st.edges }
}

/// The graph that a storage holds once its open transaction, if it has one, is
/// committed.
pub open spec fn settled(st: StorageView) -> GraphView {
    match st.txn {
        None => stored_graph(st),
        Some(t) => GraphView {
            nodes: insert_nodes(st.nodes, t.node_inserts).remove_keys(t.node_deletes.to_set()),
            edges: insert_edges(st.edges, t.edge_inserts).remove_keys(t.edge_deletes.to_set()),
        },
    }
}

/// Whether a node may be stored: the open transaction has not deleted it.
pub open spec fn node_not_deleted(st: StorageView, id: NodeId) -> bool {
    st.txn matches Some(t) ==> !t.node_deletes.contains(id)
}

/// Whether an edge may be stored: the open transaction has not deleted it.
pub open spec fn edge_not_deleted(st: StorageView, id: EdgeId) -> bool {
    st.txn matches Some(t) ==> !t.edge_deletes.contains(id)
}

/// Opening a transaction changes nothing yet.
pub proof fn lemma_settled_begin(st: StorageView, id: u64)
    requires
        st.txn is None,
    ensures
        settled(st.begin(id)) == settled(st),
{
    let t = st.begin(id).txn->0;
    assert(t.node_deletes.to_set() =~= Set::empty());
    assert(t.edge_deletes.to_set() =~= Set::empty());
    assert(st.nodes.remove_keys(Set::empty()) =~= st.nodes);
    assert(st.edges.remove_keys(Set::empty()) =~= st.edges);
}

/// Storing a node that was not deleted adds it.
pub proof fn lemma_settled_save_node(st: StorageView, n: NodeView)
    requires
        node_not_deleted(st, n.id),
    ensures
        settled(st.save_node(n)) == settled(st).insert_node(n),
{
    if let Some(t) = st.txn {
        assert(t.node_inserts.push(n).drop_last() =~= t.node_inserts);
        assert(!t.node_deletes.to_set().contains(n.id));
        assert(settled(st.save_node(n)).nodes =~= settled(st).insert_node(n).nodes);
    }
}

/// Storing an edge that was not deleted adds it.
pub proof fn lemma_settled_save_edge(st: StorageView, e: EdgeView)
    requires
        edge_not_deleted(st, e.id),
    ensures
        settled(st.save_edge(e)) == settled(st).insert_edge(e),
{
    if let Some(t) = st.txn {
        assert(t.edge_inserts.push(e).drop_last() =~= t.edge_inserts);
        assert(!t.edge_deletes.to_set().contains(e.id));
        assert(settled(st.save_edge(e)).edges =~= settled(st).insert_edge(e).edges);
    }
}

/// Deleting a node takes it out.
pub proof fn lemma_settled_delete_node(st: StorageView, id: NodeId)
    ensures
        settled(st.delete_node(id)) == (GraphView {
            nodes: settled(st).nodes.remove(id),
            edges: settled(st).edges,
        }),
{
    if let Some(t) = st.txn {
        t.node_deletes.lemma_push_to_set_commute(id);
        assert(settled(st.delete_node(id)).nodes =~= settled(st).nodes.remove(id));
    }
}

/// Deleting an edge takes it out.
pub proof fn lemma_settled_delete_edge(st: StorageView, id: EdgeId)
    ensures
        settled(st.delete_edge(id)) == settled(st).delete_edge(id),
{
    if let Some(t) = st.txn {
        t.edge_deletes.lemma_push_to_set_commute(id);
        assert(settled(st.delete_edge(id)).edges =~= settled(st).edges.remove(id));
    }
}

/// Committing the open transaction arrives at the settled graph.
pub proof fn lemma_settled_commit(st: StorageView, id: u64)
    requires
        st.txn matches Some(t) && t.id == id,
    ensures
        st.commit(id).txn is None,
        stored_graph(st.commit(id)) == settled(st),
{
}

/// A storage after the deletion of some edges, one after the other.
pub open spec fn delete_each(st: StorageView, ids: Seq<EdgeId>) -> StorageView
    decreases ids.len(),
{
    if ids.len() == 0 {
        st
    } else {
        delete_each(st, ids.drop_last()).delete_edge(ids.last())
    }
}

/// Deleting edges one after the other takes them all out, and nothing else.
pub proof fn lemma_delete_each(st: StorageView, ids: Seq<EdgeId>)
    ensures
        settled(delete_each(st, ids)) == crate::database::coherence::delete_edges(
            settled(st),
            ids.to_set(),
        ),
        delete_each(st, ids).nodes == st.nodes,
        delete_each(st, ids).txn is Some == st.txn is Some,
        delete_each(st, ids).txn matches Some(t) ==> {
            &&& st.txn matches Some(u)
            &&& t.id == st.txn->0.id
            &&& t.node_inserts == st.txn->0.node_inserts
            &&& t.edge_inserts == st.txn->0.edge_inserts
            &&& t.node_deletes == st.txn->0.node_deletes
            &&& forall|e: EdgeId| #[trigger]
                t.edge_deletes.contains(e) ==> st.txn->0.edge_deletes.contains(e) || ids.contains(e)
        },
    decreases ids.len(),
{
    let g = settled(st);
    if ids.len() == 0 {
        assert(ids.to_set() =~= Set::empty());
        assert(g.edges.remove_keys(Set::empty()) =~= g.edges);
    } else {
        let t = ids.drop_last();
        let before = delete_each(st, t);
        lemma_delete_each(st, t);
        lemma_settled_delete_edge(before, ids.last());
        t.lemma_push_to_set_commute(ids.last());
        assert(t.push(ids.last()) =~= ids);
        assert(g.edges.remove_keys(t.to_set()).remove(ids.last()) =~= g.edges.remove_keys(
            ids.to_set(),
        ));
        if let Some(u) = before.txn {
            let after = u.edge_deletes.push(ids.last());
            assert forall|e: EdgeId| #[trigger]
                after.contains(e) implies st.txn->0.edge_deletes.contains(e) || ids.contains(e) by {
                if e == ids.last() {
                    assert(ids[ids.len() - 1] == e);
                } else {
                    let i = choose|i: int| 0 <= i < after.len() && after[i] == e;
                    assert(u.edge_deletes[i] == e);
                    assert(u.edge_deletes.contains(e));
                    if t.contains(e) {
                        let j = choose|j: int| 0 <= j < t.len() && t[j] == e;
                        assert(ids[j] == e);
                    }
                }
            }
        }
    }
}

/// A node that the settled graph has, and that the open transaction did not
/// insert, is read from the storage as it is.
pub proof fn lemma_settled_read(st: StorageView, id: NodeId)
    requires
        settled(st).nodes.contains_key(id),
        st.txn matches Some(t) ==> forall|i: int|
            0 <= i < t.node_inserts.len() ==> (#[trigger] t.node_inserts[i]).id != id,
    ensures
        st.nodes.contains_key(id),
        st.nodes[id] == settled(st).nodes[id],
{
    if let Some(t) = st.txn {
        lemma_insert_nodes_other(st.nodes, t.node_inserts, id);
    }
}

proof fn lemma_insert_nodes_other(m: Map<NodeId, NodeView>, s: Seq<NodeView>, id: NodeId)
    requires
        forall|i: int| 0 <= i < s.len() ==> (#[trigger] s[i]).id != id,
    ensures
        insert_nodes(m, s).contains_key(id) == m.contains_key(id),
        m.contains_key(id) ==> insert_nodes(m, s)[id] == m[id],
    decreases s.len(),
{
    if s.len() > 0 {
        let t = s.drop_last();
        assert forall|i: int| 0 <= i < t.len() implies (#[trigger] t[i]).id != id by {
            assert(t[i] == s[i]);
        }
        lemma_insert_nodes_other(m, t, id);
        assert(s[s.len() - 1].id != id);
    }
}

} // verus!
