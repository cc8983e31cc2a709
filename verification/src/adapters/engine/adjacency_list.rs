//! A graph engine of adjacency lists in both directions.

use crate::collections::filtering::{lemma_filter_all, lemma_filter_same, lemma_filter_twice};
use crate::collections::id_map::IdMap;
use crate::float::Float64;
use crate::model::edge_id::EdgeId;
use crate::model::node_id::NodeId;
use crate::ports::engine::{kept, list_of, prune, EngineView, GraphEnginePort, Neighbor};
use vstd::prelude::*;

verus! {

/// For each node the edges that leave it and the edges that enter it, and for
/// each edge its ends.
pub struct AdjacencyListEngine {
    outgoing: IdMap<NodeId, Vec<Neighbor>>,
    incoming: IdMap<NodeId, Vec<Neighbor>>,
    edge_endpoints: IdMap<EdgeId, (NodeId, NodeId)>,
}

spec fn lists(m: Map<NodeId, Vec<Neighbor>>) -> Map<NodeId, Seq<Neighbor>> {
    m.map_values(|v: Vec<Neighbor>| v@)
}

/// Removing no edge changes nothing.
proof fn lemma_remove_no_edges(g: EngineView)
    ensures
        g.remove_edges(Set::empty()) == g,
{
    let h = g.remove_edges(Set::empty());
    assert forall|id: NodeId| g.outgoing.contains_key(id) implies #[trigger] h.outgoing[id]
        == g.outgoing[id] by {
        lemma_filter_all(
            g.outgoing[id],
            kept(g.leaving(Set::empty()), id),
        );
    }
    assert forall|id: NodeId| g.incoming.contains_key(id) implies #[trigger] h.incoming[id]
        == g.incoming[id] by {
        lemma_filter_all(
            g.incoming[id],
            kept(g.entering(Set::empty()), id),
        );
    }
    assert(h.outgoing =~= g.outgoing);
    assert(h.incoming =~= g.incoming);
    assert(h.endpoints =~= g.endpoints);
}

/// Removing some edges and then one more is removing them all.
proof fn lemma_remove_one_more(g: EngineView, edges: Set<EdgeId>, e: EdgeId)
    requires
        !edges.contains(e),
    ensures
        g.remove_edges(edges).remove_edges(set![e]) == g.remove_edges(edges.insert(e)),
{
    let a = g.remove_edges(edges);
    let b = a.remove_edges(set![e]);
    let c = g.remove_edges(edges.insert(e));
    assert forall|id: NodeId| g.outgoing.contains_key(id) implies #[trigger] b.outgoing[id]
        == c.outgoing[id] by {
        lemma_filter_twice(
            g.outgoing[id],
            kept(g.leaving(edges), id),
            kept(a.leaving(set![e]), id),
            kept(g.leaving(edges.insert(e)), id),
        );
    }
    assert forall|id: NodeId| g.incoming.contains_key(id) implies #[trigger] b.incoming[id]
        == c.incoming[id] by {
        lemma_filter_twice(
            g.incoming[id],
            kept(g.entering(edges), id),
            kept(a.entering(set![e]), id),
            kept(g.entering(edges.insert(e)), id),
        );
    }
    assert(b.outgoing =~= c.outgoing);
    assert(b.incoming =~= c.incoming);
    assert(b.endpoints =~= c.endpoints);
}

/// The list without the given edge.
fn without_edge(list: &Vec<Neighbor>, edge_id: EdgeId) -> (r: Vec<Neighbor>)
    ensures
        r@ == list@.filter(|n: Neighbor| n.edge_id != edge_id),
{
    let mut out: Vec<Neighbor> = Vec::new();
    let mut i: usize = 0;
    proof {
        reveal(Seq::filter);
    }
    assert(list@.take(0).filter(|n: Neighbor| n.edge_id != edge_id) =~= Seq::empty());
    while i < list.len()
        invariant
            i <= list.len(),
            out@ == list@.take(i as int).filter(|n: Neighbor| n.edge_id != edge_id),
        decreases list.len() - i,
    {
        let n = list[i];
        proof {
            reveal(Seq::filter);
            assert(list@.take(i + 1).drop_last() =~= list@.take(i as int));
            assert(list@.take(i + 1).last() == n);
        }
        if n.edge_id != edge_id {
            out.push(n);
        }
        i += 1;
    }
    assert(list@.take(i as int) =~= list@);
    out
}

fn copy_list(list: &Vec<Neighbor>) -> (r: Vec<Neighbor>)
    ensures
        r@ == list@,
{
    let mut out: Vec<Neighbor> = Vec::new();
    let mut i: usize = 0;
    while i < list.len()
        invariant
            i <= list.len(),
            out@ =~= list@.take(i as int),
        decreases list.len() - i,
    {
        out.push(list[i]);
        i += 1;
    }
    out
}

/// Takes the edge out of the list of one node.
fn drop_from_list(m: &mut IdMap<NodeId, Vec<Neighbor>>, id: NodeId, edge_id: EdgeId)
    ensures
        lists(final(m)@) == prune(
            lists(old(m)@),
            |k: NodeId, n: Neighbor| k == id && n.edge_id == edge_id,
        ),
{
    let ghost before = lists(m@);
    let ghost drop = |k: NodeId, n: Neighbor| k == id && n.edge_id == edge_id;
    let ghost goal = prune(before, drop);
    proof {
        assert forall|k: NodeId| before.contains_key(k) && k != id implies #[trigger] goal[k]
            == before[k] by {
            lemma_filter_all(before[k], kept(drop, k));
        }
    }
    if let Some(list) = m.remove(id) {
        let rest = without_edge(&list, edge_id);
        proof {
            lemma_filter_same(
                before[id],
                |n: Neighbor| n.edge_id != edge_id,
                kept(drop, id),
            );
        }
        m.insert(id, rest);
    }
    assert(lists(m@) =~= goal);
}

/// Adds a neighbour at the end of a node's list.
fn push_to_list(m: &mut IdMap<NodeId, Vec<Neighbor>>, id: NodeId, n: Neighbor)
    ensures
        lists(final(m)@) == lists(old(m)@).insert(id, list_of(lists(old(m)@), id).push(n)),
{
    let mut list = match m.remove(id) {
        Some(v) => v,
        None => Vec::new(),
    };
    list.push(n);
    m.insert(id, list);
    assert(lists(m@) =~= lists(old(m)@).insert(id, list_of(lists(old(m)@), id).push(n)));
}

impl AdjacencyListEngine {
    /// An engine without nodes.
    pub fn new() -> (r: AdjacencyListEngine)
        ensures
            r.graph() == EngineView::empty(),
    {
        let r = AdjacencyListEngine {
            outgoing: IdMap::new(),
            incoming: IdMap::new(),
            edge_endpoints: IdMap::new(),
        };
        assert(r.graph().outgoing =~= Map::empty());
        assert(r.graph().incoming =~= Map::empty());
        r
    }
}

impl Default for AdjacencyListEngine {
    fn default() -> (r: AdjacencyListEngine)
        ensures
            r.graph() == EngineView::empty(),
    {
        AdjacencyListEngine::new()
    }
}

impl GraphEnginePort for AdjacencyListEngine {
    closed spec fn graph(&self) -> EngineView {
        EngineView {
            outgoing: lists(self.outgoing@),
            incoming: lists(self.incoming@),
            endpoints: self.edge_endpoints@,
        }
    }

    proof fn lemma_finite(&self) {
        self.outgoing.lemma_finite();
        self.incoming.lemma_finite();
        self.edge_endpoints.lemma_finite();
        assert(lists(self.outgoing@).dom() =~= self.outgoing@.dom());
        assert(lists(self.incoming@).dom() =~= self.incoming@.dom());
    }

    fn insert_node(&mut self, id: NodeId) {
        if !self.outgoing.contains_key(id) {
            self.outgoing.insert(id, Vec::new());
        }
        if !self.incoming.contains_key(id) {
            self.incoming.insert(id, Vec::new());
        }
        proof {
            let g = old(self).graph().insert_node(id);
            assert(self.graph().outgoing =~= g.outgoing);
            assert(self.graph().incoming =~= g.incoming);
        }
    }

    fn remove_node(&mut self, id: NodeId) {
        let ghost g = self.graph();
        let all = self.edge_endpoints.keys();
        let mut i: usize = 0;
        let ghost mut gone: Set<EdgeId> = Set::empty();
        proof {
            lemma_remove_no_edges(g);
        }
        while i < all.len()
            invariant
                i <= all.len(),
                all@.no_duplicates(),
                all@.to_set() == g.endpoints.dom(),
                self.graph() == g.remove_edges(gone),
                gone =~= g.incident(id).intersect(all@.take(i as int).to_set()),
            decreases all.len() - i,
        {
            let e = all[i];
            proof {
                crate::adapters::storage::replay::lemma_take_set(all@, i as int);
                assert(all@.to_set().contains(e));
                if gone.contains(e) {
                    assert(all@.take(i as int).to_set().contains(e));
                    let j = choose|j: int| 0 <= j < i && all@.take(i as int)[j] == e;
                    assert(all@[j] == all@[i as int]);
                }
                assert(self.edge_endpoints@ == g.endpoints.remove_keys(gone));
            }
            let touches = match self.edge_endpoints.get(e) {
                Some(ends) => ends.0 == id || ends.1 == id,
                None => false,
            };
            if touches {
                self.remove_edge(e);
                proof {
                    lemma_remove_one_more(g, gone, e);
                    gone = gone.insert(e);
                }
            }
            i += 1;
        }
        proof {
            assert(all@.take(i as int) =~= all@);
            assert(gone =~= g.incident(id));
        }
        self.outgoing.remove(id);
        self.incoming.remove(id);
        proof {
            assert(self.graph().outgoing =~= g.remove_node(id).outgoing);
            assert(self.graph().incoming =~= g.remove_node(id).incoming);
        }
    }

    fn insert_edge(&mut self, edge_id: EdgeId, source: NodeId, target: NodeId, weight: Float64) {
        self.edge_endpoints.insert(edge_id, (source, target));
        push_to_list(&mut self.outgoing, source, Neighbor { node_id: target, edge_id, weight });
        push_to_list(&mut self.incoming, target, Neighbor { node_id: source, edge_id, weight });
    }

    fn remove_edge(&mut self, edge_id: EdgeId) {
        let ghost g = self.graph();
        let ghost goal = g.remove_edges(set![edge_id]);
        match self.edge_endpoints.remove(edge_id) {
            None => {
                proof {
                    assert(g.endpoints =~= self.edge_endpoints@);
                    lemma_remove_absent(g, edge_id);
                }
            },
            Some(ends) => {
                let source = ends.0;
                let target = ends.1;
                drop_from_list(&mut self.outgoing, source, edge_id);
                drop_from_list(&mut self.incoming, target, edge_id);
                proof {
                    let drop_out = |k: NodeId, n: Neighbor| k == source && n.edge_id == edge_id;
                    let drop_in = |k: NodeId, n: Neighbor| k == target && n.edge_id == edge_id;
                    assert forall|k: NodeId| g.outgoing.contains_key(k) implies #[trigger] prune(
                        g.outgoing,
                        drop_out,
                    )[k] == goal.outgoing[k] by {
                        lemma_filter_same(
                            g.outgoing[k],
                            kept(drop_out, k),
                            kept(g.leaving(set![edge_id]), k),
                        );
                    }
                    assert forall|k: NodeId| g.incoming.contains_key(k) implies #[trigger] prune(
                        g.incoming,
                        drop_in,
                    )[k] == goal.incoming[k] by {
                        lemma_filter_same(
                            g.incoming[k],
                            kept(drop_in, k),
                            kept(g.entering(set![edge_id]), k),
                        );
                    }
                    assert(self.graph().outgoing =~= goal.outgoing);
                    assert(self.graph().incoming =~= goal.incoming);
                    assert(self.graph().endpoints =~= goal.endpoints);
                }
            },
        }
    }

    fn neighbors_outgoing(&self, source: NodeId) -> (r: Vec<Neighbor>) {
        match self.outgoing.get(source) {
            Some(list) => copy_list(list),
            None => Vec::new(),
        }
    }

    fn neighbors_incoming(&self, target: NodeId) -> (r: Vec<Neighbor>) {
        match self.incoming.get(target) {
            Some(list) => copy_list(list),
            None => Vec::new(),
        }
    }

    fn all_node_ids(&self) -> (r: Vec<NodeId>) {
        assert(lists(self.outgoing@).dom() =~= self.outgoing@.dom());
        self.outgoing.keys()
    }

    fn all_edge_ids(&self) -> (r: Vec<EdgeId>) {
        self.edge_endpoints.keys()
    }

    fn node_count(&self) -> (r: usize) {
        assert(lists(self.outgoing@).dom() =~= self.outgoing@.dom());
        self.outgoing.len()
    }

    fn edge_count(&self) -> (r: usize) {
        self.edge_endpoints.len()
    }

    fn contains_node(&self, id: NodeId) -> (r: bool) {
        self.outgoing.contains_key(id)
    }
}

/// Removing an edge that is not there changes nothing.
proof fn lemma_remove_absent(g: EngineView, e: EdgeId)
    requires
        !g.endpoints.contains_key(e),
    ensures
        g.remove_edges(set![e]) == g,
{
    let h = g.remove_edges(set![e]);
    assert forall|id: NodeId| g.outgoing.contains_key(id) implies #[trigger] h.outgoing[id]
        == g.outgoing[id] by {
        lemma_filter_all(
            g.outgoing[id],
            kept(g.leaving(set![e]), id),
        );
    }
    assert forall|id: NodeId| g.incoming.contains_key(id) implies #[trigger] h.incoming[id]
        == g.incoming[id] by {
        lemma_filter_all(
            g.incoming[id],
            kept(g.entering(set![e]), id),
        );
    }
    assert(h.outgoing =~= g.outgoing);
    assert(h.incoming =~= g.incoming);
    assert(h.endpoints =~= g.endpoints);
}

} // verus!
