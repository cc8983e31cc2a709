//! What changes do to a storage and to an engine, as far as every adapter goes.

use crate::collections::filtering::lemma_filter_contains;
use crate::float::Float64;
use crate::model::edge::EdgeView;
use crate::model::edge_id::EdgeId;
use crate::model::node::NodeView;
use crate::model::node_id::NodeId;
use crate::ports::engine::{kept, EngineView, Neighbor};
use crate::ports::storage::{insert_edges, insert_nodes, StorageView};
use vstd::prelude::*;

verus! {

/// Outside a transaction what is stored is there at once and as it was stored, what is
/// deleted is gone, and everything else stays.
pub proof fn law_storage_changes_at_once(
    s: StorageView,
    n: NodeView,
    e: EdgeView,
    node: NodeId,
    edge: EdgeId,
)
    requires
        s.txn is None,
        node != n.id,
        edge != e.id,
    ensures
        s.save_node(n).nodes.contains_key(n.id) && s.save_node(n).nodes[n.id] == n,
        s.save_node(n).nodes.contains_key(node) == s.nodes.contains_key(node),
        s.nodes.contains_key(node) ==> s.save_node(n).nodes[node] == s.nodes[node],
        s.save_node(n).edges == s.edges,
        s.save_edge(e).edges.contains_key(e.id) && s.save_edge(e).edges[e.id] == e,
        s.save_edge(e).edges.contains_key(edge) == s.edges.contains_key(edge),
        s.edges.contains_key(edge) ==> s.save_edge(e).edges[edge] == s.edges[edge],
        s.save_edge(e).nodes == s.nodes,
        !s.delete_node(n.id).nodes.contains_key(n.id),
        s.delete_node(n.id).nodes.contains_key(node) == s.nodes.contains_key(node),
        s.nodes.contains_key(node) ==> s.delete_node(n.id).nodes[node] == s.nodes[node],
        s.delete_node(n.id).edges == s.edges,
        !s.delete_edge(e.id).edges.contains_key(e.id),
        s.delete_edge(e.id).edges.contains_key(edge) == s.edges.contains_key(edge),
        s.edges.contains_key(edge) ==> s.delete_edge(e.id).edges[edge] == s.edges[edge],
        s.delete_edge(e.id).nodes == s.nodes,
        s.save_node(n).txn is None && s.save_edge(e).txn is None && s.delete_node(n.id).txn is None
            && s.delete_edge(e.id).txn is None,
{
}

/// Within a transaction nothing changes before the commit; the commit stores what was
/// stored and not deleted, and drops what was deleted; a rollback leaves everything as
/// it was before.
pub proof fn law_transaction_takes_effect_at_its_commit(
    s: StorageView,
    id: u64,
    n: NodeView,
    e: EdgeView,
    node: NodeId,
    edge: EdgeId,
)
    requires
        node != n.id,
        edge != e.id,
    ensures
        ({
            let open = s.begin(id).save_node(n).save_edge(e).delete_node(node).delete_edge(edge);
            let done = open.commit(id);
            &&& open.nodes == s.nodes
            &&& open.edges == s.edges
            &&& open.txn is Some
            &&& open.rollback() == (StorageView { txn: None, ..s })
            &&& done.txn is None
            &&& done.nodes == s.nodes.insert(n.id, n).remove(node)
            &&& done.edges == s.edges.insert(e.id, e).remove(edge)
        }),
{
    let open = s.begin(id).save_node(n).save_edge(e).delete_node(node).delete_edge(edge);
    let t = open.txn->0;
    assert(t.node_inserts =~= seq![n]);
    assert(t.edge_inserts =~= seq![e]);
    assert(t.node_deletes =~= seq![node]);
    assert(t.edge_deletes =~= seq![edge]);
    reveal_with_fuel(insert_nodes, 2);
    reveal_with_fuel(insert_edges, 2);
    assert(seq![n].drop_last() =~= Seq::empty());
    assert(seq![e].drop_last() =~= Seq::empty());
    assert(t.node_deletes.to_set() =~= set![node]) by {
        assert(t.node_deletes[0] == node);
    }
    assert(t.edge_deletes.to_set() =~= set![edge]) by {
        assert(t.edge_deletes[0] == edge);
    }
    let done = open.commit(id);
    assert(done.nodes =~= s.nodes.insert(n.id, n).remove(node));
    assert(done.edges =~= s.edges.insert(e.id, e).remove(edge));
}

/// An edge comes at the end of the list of the node that it leaves and of the list of the
/// node that it enters, with its weight and the node at the other end; all other lists
/// stay.
pub proof fn law_edge_joins_two_lists(
    g: EngineView,
    id: EdgeId,
    source: NodeId,
    target: NodeId,
    weight: Float64,
    other: NodeId,
)
    ensures
        ({
            let h = g.insert_edge(id, source, target, weight);
            &&& h.out_of(source).drop_last() == g.out_of(source)
            &&& h.out_of(source).last().node_id == target
            &&& h.out_of(source).last().edge_id == id
            &&& h.out_of(source).last().weight == weight
            &&& h.into(target).drop_last() == g.into(target)
            &&& h.into(target).last().node_id == source
            &&& h.into(target).last().edge_id == id
            &&& h.into(target).last().weight == weight
            &&& other != source ==> h.out_of(other) == g.out_of(other)
            &&& other != target ==> h.into(other) == g.into(other)
            &&& h.endpoints.contains_key(id)
            &&& h.endpoints[id] == (source, target)
        }),
{
    let h = g.insert_edge(id, source, target, weight);
    assert(h.out_of(source).drop_last() =~= g.out_of(source));
    assert(h.into(target).drop_last() =~= g.into(target));
}

/// A node that is registered is there and has the edges that it had; other nodes stay.
pub proof fn law_registered_node_is_there(g: EngineView, id: NodeId, other: NodeId)
    ensures
        g.insert_node(id).outgoing.contains_key(id),
        g.insert_node(id).incoming.contains_key(id),
        g.insert_node(id).out_of(other) == g.out_of(other),
        g.insert_node(id).into(other) == g.into(other),
        other != id ==> g.insert_node(id).outgoing.contains_key(other) == g.outgoing.contains_key(
            other,
        ),
        g.insert_node(id).endpoints == g.endpoints,
{
}

/// A removed edge leaves the lists of its ends, and every other edge stays where it is.
pub proof fn law_removed_edge_leaves_its_lists(g: EngineView, id: EdgeId, a: NodeId, n: Neighbor)
    ensures
        ({
            let h = g.remove_edges(set![id]);
            &&& !h.endpoints.contains_key(id)
            &&& n.edge_id != id ==> h.out_of(a).contains(n) == g.out_of(a).contains(n)
            &&& n.edge_id != id ==> h.into(a).contains(n) == g.into(a).contains(n)
            &&& n.edge_id == id && g.endpoints.contains_key(id) && g.endpoints[id].0 == a
                ==> !h.out_of(a).contains(n)
            &&& n.edge_id == id && g.endpoints.contains_key(id) && g.endpoints[id].1 == a
                ==> !h.into(a).contains(n)
            &&& h.outgoing.dom() == g.outgoing.dom()
            &&& h.incoming.dom() == g.incoming.dom()
        }),
{
    let edges = set![id];
    let h = g.remove_edges(edges);
    assert(h.outgoing.dom() =~= g.outgoing.dom());
    assert(h.incoming.dom() =~= g.incoming.dom());
    if g.outgoing.contains_key(a) {
        lemma_filter_contains(g.outgoing[a], kept(g.leaving(edges), a), n);
        assert(h.out_of(a) == g.outgoing[a].filter(kept(g.leaving(edges), a)));
    }
    if g.incoming.contains_key(a) {
        lemma_filter_contains(g.incoming[a], kept(g.entering(edges), a), n);
        assert(h.into(a) == g.incoming[a].filter(kept(g.entering(edges), a)));
    }
}

} // verus!
