//! Transactions on the database.
//!
//! A commit first brings all changes to the storage, between the marks of a
//! transaction, while the layers in memory stay as they are. Only when the storage
//! has taken the commit marker do cache, engine and indexes follow. Where the storage
//! fails, the transaction is given up there, and nothing in memory has to be undone.

use crate::collections::id_map::IdMap;
use crate::database::batch::{
    apply_ops, counted_deletes, counted_ops, deleted_edges, deleted_nodes, inserted_edges,
    inserted_nodes, inserts_new, inserts_node, lemma_applied_touched, lemma_missing_end,
    lemma_touches_push, missing_end, present_after, storable_ops, touches_node,
};
use crate::database::coherence::GraphView;
use crate::database::layered::progress::{
    keep_staged, keep_standing, knowns_right, lemma_next_applied, lemma_noted_delete_edge,
    lemma_noted_delete_node, lemma_noted_insert_edge, lemma_noted_insert_node, lemma_standing,
    next_noted, points_to_nodes, staged_at, Progress,
};
use crate::database::layered::{
    compaction_due, deletes_some, deletion_begun, edge_ids, failure_told, ids_below, incident_edges, known_right,
    left_node, node_read, one_more, same_but_cache, within, write_counted, LayeredGraphDatabase,
};
use crate::database::metrics::{count, next, DatabaseMetrics};
use crate::database::settling::{
    delete_each, lemma_settled_begin, lemma_settled_commit, lemma_settled_read, settled,
    stored_graph,
};
use crate::model::edge_id::EdgeId;
use crate::model::error::{GraphError, GraphErrorView};
use crate::model::node::{Node, NodeView};
use crate::model::node_id::NodeId;
use crate::ports::cache::CachePort;
use crate::ports::engine::GraphEnginePort;
use crate::ports::storage::{StoragePort, StorageView};
use crate::transaction::{
    op_views, seeded_edge, seeded_node, skip_ids, CommitResult, OpView, StagedOp,
    Transaction,
};
use vstd::prelude::*;

verus! {

/// Whether the result of a commit names what the changes did, in order.
pub open spec fn reports(r: CommitResult, ops: Seq<OpView>) -> bool {
    &&& r.inserted_node_ids@ == inserted_nodes(ops)
    &&& r.inserted_edge_ids@ == inserted_edges(ops)
    &&& r.deleted_node_ids@ == deleted_nodes(ops)
    &&& r.deleted_edge_ids@ == deleted_edges(ops)
}

/// Whether nothing has happened to a storage with an open transaction but that more
/// may have been noted in it.
pub open spec fn only_noted(before: StorageView, after: StorageView) -> bool {
    before.txn matches Some(t) ==> {
        &&& after.txn is Some
        &&& after.txn->0.id == t.id
        &&& after.nodes == before.nodes
        &&& after.edges == before.edges
    }
}

proof fn lemma_deletes_noted(st: StorageView, ids: Seq<EdgeId>)
    ensures
        only_noted(st, delete_each(st, ids)),
    decreases ids.len(),
{
    if ids.len() > 0 {
        lemma_deletes_noted(st, ids.drop_last());
    }
}

proof fn lemma_deletion_noted(
    before: StorageView,
    after: StorageView,
    id: NodeId,
    edges: Seq<EdgeId>,
)
    requires
        deletion_begun(before, after, id, edges),
    ensures
        only_noted(before, after),
{
    if deletes_some(before, after, edges) {
        let k = choose|k: int|
            0 <= k <= edges.len() && after == #[trigger] delete_each(before, edges.take(k));
        lemma_deletes_noted(before, edges.take(k));
    } else {
        lemma_deletes_noted(before, edges);
    }
}

/// Whether a storage is as the deletion of a node leaves it that fails on the way,
/// where the node stands in the graph that the storage was to hold.
pub open spec fn deletion_of(before: StorageView, after: StorageView, id: NodeId) -> bool {
    exists|edges: Seq<EdgeId>|
        edges.to_set() == settled(before).incident(id) && #[trigger] deletion_begun(
            before,
            after,
            id,
            edges,
        )
}

/// Whether a storage is as a change leaves it that fails on the way.
pub open spec fn change_begun(before: StorageView, after: StorageView, op: OpView) -> bool {
    after == before || match op {
        OpView::InsertNode(n) => after == before.save_node(n),
        OpView::InsertEdge(e) => after == before.save_edge(e),
        OpView::DeleteNode(id) => deletion_of(before, after, id),
        OpView::DeleteEdge(id) => after == before.delete_edge(id),
    }
}

/// Whether a cache became what it is when a node, if there was one, was read and then
/// forgotten.
pub open spec fn left_some<C: CachePort>(before: C, after: C, id: NodeId) -> bool {
    exists|node: Option<NodeView>| #[trigger]
        left_node(before, after, id, node) && (node matches Some(n) ==> n.id == id)
}

/// Whether a cache became what it is when one change was entered.
pub open spec fn cache_step<C: CachePort>(before: C, after: C, op: OpView) -> bool {
    match op {
        OpView::InsertNode(n) => after.took_node(&before, n),
        OpView::InsertEdge(e) => after.took_edge(&before, e),
        OpView::DeleteNode(id) => left_some(before, after, id) && within(
            after.edges(),
            before.edges(),
        ),
        OpView::DeleteEdge(id) => after.nodes() == before.nodes() && after.edges()
            == before.edges().remove(id),
    }
}

/// Whether a cache became what it is when changes were entered in order.
pub open spec fn cache_follows<C: CachePort>(before: C, after: C, ops: Seq<OpView>) -> bool
    decreases ops.len(),
{
    if ops.len() == 0 {
        after == before
    } else {
        exists|mid: C| #[trigger]
            cache_step(mid, after, ops.last()) && cache_follows(before, mid, ops.drop_last())
    }
}

proof fn lemma_cache_follows<C: CachePort>(before: C, mid: C, after: C, ops: Seq<OpView>)
    requires
        ops.len() > 0,
        cache_follows(before, mid, ops.drop_last()),
        cache_step(mid, after, ops.last()),
    ensures
        cache_follows(before, after, ops),
{
}

impl<S: StoragePort, C: CachePort, E: GraphEnginePort> LayeredGraphDatabase<S, C, E> {
    /// Begins a transaction. It takes identifiers from the database's next ones on.
    pub fn begin_transaction(&mut self) -> (r: Transaction)
        ensures
            *final(self) == *old(self),
            r.ops() == Seq::<OpView>::empty(),
            r.next_node() == old(self).next_node(),
            r.next_edge() == old(self).next_edge(),
            r.number() == old(self).next_node(),
    {
        Transaction::new(self.id_generator)
    }

    /// Gives up a transaction. Nothing changes but that its identifiers will not
    /// be used again.
    pub fn rollback_transaction(&mut self, txn: Transaction)
        ensures
            final(self).well_formed() == old(self).well_formed(),
            final(self).stored() == old(self).stored(),
            final(self).marks() == old(self).marks(),
            final(self).reliable() == old(self).reliable(),
            final(self).structure() == old(self).structure(),
            final(self).labels() == old(self).labels(),
            final(self).fields() == old(self).fields(),
            final(self).cache_layer() == old(self).cache_layer(),
            final(self).storage_size() == old(self).storage_size(),
            final(self).settings() == old(self).settings(),
            final(self).slow() == old(self).slow(),
            final(self).writes() == old(self).writes(),
            final(self).compaction_error() == old(self).compaction_error(),
            final(self).next_node() == seeded_node(old(self).next_node(), txn.ops()),
            final(self).next_edge() == seeded_edge(old(self).next_edge(), txn.ops()),
            final(self).counters() == (DatabaseMetrics {
                transactions_rolled_back: next(old(self).counters().transactions_rolled_back),
                ..old(self).counters()
            }),
            old(self).coherent() ==> final(self).coherent(),
    {
        let ghost ops = txn.ops();
        let mut ids = self.id_generator;
        txn.seed_generator_into(&mut ids);
        self.id_generator = ids;
        count(&mut self.metrics.transactions_rolled_back);
        proof {
            crate::transaction::law_rolled_back_ids_not_reused(
                old(self).next_node(),
                old(self).next_edge(),
                ops,
            );
        }
    }

    /// The first node that is missing for the insertion of an edge.
    fn find_missing(&self, ops: &Vec<StagedOp>) -> (r: Option<NodeId>)
        ensures
            r == missing_end(self.structure().outgoing.dom(), op_views(ops@)),
    {
        let ghost nodes = self.structure().outgoing.dom();
        let ghost all = op_views(ops@);
        let mut changed: IdMap<NodeId, bool> = IdMap::new();
        let mut i: usize = 0;
        proof {
            assert(all.take(0) =~= Seq::empty());
        }
        while i < ops.len()
            invariant
                i <= ops.len(),
                all == op_views(ops@),
                nodes == self.structure().outgoing.dom(),
                missing_end(nodes, all.take(i as int)) is None,
                forall|id: NodeId| #[trigger]
                    present_after(nodes, all.take(i as int), id) == if changed@.contains_key(id) {
                        changed@[id]
                    } else {
                        nodes.contains(id)
                    },
            decreases ops.len() - i,
        {
            let ghost was = changed@;
            proof {
                assert(all.take(i + 1).drop_last() =~= all.take(i as int));
                assert(all.take(i + 1).last() == all[i as int]);
                assert(all[i as int] == ops[i as int]@);
            }
            match &ops[i] {
                StagedOp::InsertNode { node } => {
                    changed.insert(node.id, true);
                },
                StagedOp::DeleteNode { id } => {
                    changed.insert(*id, false);
                },
                StagedOp::InsertEdge { edge } => {
                    if !self.present(&changed, edge.source) {
                        proof {
                            lemma_missing_first(nodes, all, i + 1);
                        }
                        return Some(edge.source);
                    }
                    if !self.present(&changed, edge.target) {
                        proof {
                            lemma_missing_first(nodes, all, i + 1);
                        }
                        return Some(edge.target);
                    }
                },
                StagedOp::DeleteEdge { .. } => {},
            }
            proof {
                assert forall|id: NodeId| #[trigger]
                    present_after(nodes, all.take(i + 1), id) == if changed@.contains_key(id) {
                        changed@[id]
                    } else {
                        nodes.contains(id)
                    } by {
                    assert(present_after(nodes, all.take(i as int), id) == if was.contains_key(id) {
                        was[id]
                    } else {
                        nodes.contains(id)
                    });
                }
            }
            i += 1;
        }
        assert(all.take(i as int) =~= all);
        None
    }

    fn present(&self, changed: &IdMap<NodeId, bool>, id: NodeId) -> (r: bool)
        ensures
            r == if changed@.contains_key(id) {
                changed@[id]
            } else {
                self.structure().outgoing.dom().contains(id)
            },
    {
        match changed.get(id) {
            Some(there) => *there,
            None => self.engine.contains_node(id),
        }
    }

    /// Whether the storage was asked in an earlier state to mark a transaction as given
    /// up, and is as its answer says: the transaction is closed, or, where the marker
    /// failed, closed or as it was.
    pub closed spec fn rolled_back(&self, earlier: S, number: u64) -> bool {
        exists|r: Result<(), GraphError>|
            {
                let closed = if earlier.marks_transactions() {
                    earlier.state().rollback()
                } else {
                    earlier.state()
                };
                &&& #[trigger] self.storage.answered_rollback(&earlier, number, r)
                &&& r is Ok ==> self.stored() == closed
                &&& r is Err ==> self.stored() == earlier.state() || self.stored() == closed
            }
    }

    /// Whether a storage is as a commit leaves it that fails on the way. Of a storage
    /// that marks transactions: no change is in effect, or all changes were noted and
    /// the commit marker failed and has taken effect all the same. Of another: the
    /// first changes have been stored, and perhaps part of the next one.
    pub open spec fn half_done(
        st: StorageView,
        before: &Self,
        ops: Seq<OpView>,
        number: u64,
    ) -> bool {
        if before.marks() {
            ||| st == before.stored()
            ||| only_noted(before.stored().begin(number), st)
            ||| before.all_noted(st, ops, number)
        } else {
            before.coherent() && inserts_new(before.graph(), ops) && apply_ops(
                before.graph(),
                ops,
            ) is Ok ==> before.first_stored(st, ops)
        }
    }

    /// Whether all changes were noted in a storage, and the commit marker has taken
    /// effect.
    pub open spec fn all_noted(&self, st: StorageView, ops: Seq<OpView>, number: u64) -> bool {
        exists|filled: StorageView|
            {
                &&& #[trigger] only_noted(self.stored().begin(number), filled)
                &&& st == filled.commit(number)
                &&& self.coherent() && inserts_new(self.graph(), ops) && apply_ops(
                    self.graph(),
                    ops,
                ) is Ok ==> settled(filled) == apply_ops(self.graph(), ops)->Ok_0
            }
    }

    /// Whether the first changes, and perhaps part of the next one, have been stored.
    pub open spec fn first_stored(&self, st: StorageView, ops: Seq<OpView>) -> bool {
        exists|k: int, mid: StorageView|
            {
                &&& 0 <= k <= ops.len()
                &&& settled(mid) == apply_ops(self.graph(), ops.take(k))->Ok_0
                &&& k == ops.len() ==> st == mid
                &&& #[trigger] change_begun(mid, st, ops[k])
            }
    }

    /// Whether the storage is as a failed commit leaves it: the transaction was given
    /// up after part of it.
    pub open spec fn given_up(&self, before: &Self, ops: Seq<OpView>, number: u64) -> bool {
        exists|earlier: S| #[trigger]
            self.rolled_back(earlier, number) && Self::half_done(
                earlier.state(),
                before,
                ops,
                number,
            ) && earlier.marks_transactions() == before.marks()
    }

    /// Whether the cache followed changes from what it held in an earlier state.
    pub open spec fn cached_changes(&self, before: &Self, ops: Seq<OpView>) -> bool {
        exists|c: C|
            {
                &&& #[trigger] cache_follows(c, self.cache_layer(), ops)
                &&& c.valid()
                &&& c.nodes() == before.cached_nodes()
                &&& c.edges() == before.cached_edges()
            }
    }

    /// Marks a transaction as given up.
    fn give_up(&mut self, number: u64)
        requires
            old(self).well_formed(),
        ensures
            final(self).well_formed(),
            final(self).same_setting(old(self)),
            final(self).same_memory(old(self)),
            final(self).rolled_back(old(self).storage, number),
    {
        let ghost earlier = self.storage;
        let marked = self.storage.rollback_wal_transaction(number);
        assert(self.storage.answered_rollback(&earlier, number, marked));
    }

    /// The node that a change is about to delete. It is read from the cache or else
    /// from the storage; the read is counted when the change is entered.
    fn read_to_delete(&mut self, id: NodeId) -> (r: Result<Option<Node>, GraphError>)
        requires
            old(self).well_formed(),
        ensures
            final(self).well_formed(),
            final(self).same_layers(old(self)),
            final(self).slow() == old(self).slow(),
            final(self).same_memory(old(self)),
            final(self).counters() == old(self).counters(),
            old(self).reliable() ==> r is Ok,
            match r {
                Ok(Some(n)) => if old(self).cached_nodes().contains_key(id) {
                    n@ == old(self).cached_nodes()[id]
                } else {
                    old(self).stored().nodes.contains_key(id) && n@ == old(
                        self,
                    ).stored().nodes[id]
                },
                Ok(None) => !old(self).cached_nodes().contains_key(id) && !old(
                    self,
                ).stored().nodes.contains_key(id),
                Err(_) => true,
            },
    {
        match self.cache.get_node(id) {
            Some(node) => Ok(Some(node)),
            None => self.storage.load_node(id),
        }
    }

    /// Counts the read of a node that is about to be forgotten, and caches the node, if
    /// there is one, where the cache does not hold it.
    fn note_read(&mut self, id: NodeId, known: &Option<Node>)
        requires
            old(self).well_formed(),
        ensures
            final(self).well_formed(),
            final(self).same_layers(old(self)),
            final(self).slow() == old(self).slow(),
            final(self).structure() == old(self).structure(),
            final(self).labels() == old(self).labels(),
            final(self).fields() == old(self).fields(),
            final(self).cached_edges() == old(self).cached_edges(),
            final(self).counters() == node_read(
                old(self).counters(),
                old(self).cached_nodes().contains_key(id),
            ),
            final(self).read_for(old(self), id),
            forall|g: GraphView| #[trigger]
                old(self).agrees(g) && known_right(*known, g, id) ==> final(self).agrees(g),
    {
        let hit = self.cache.get_node(id).is_some();
        if hit {
            count(&mut self.metrics.cache_node_hits);
            return;
        }
        count(&mut self.metrics.cache_node_misses);
        match known {
            Some(n) => {
                if n.id == id {
                    let ghost earlier = self.cache;
                    self.cache.put_node(n.clone());
                    assert(self.cache_layer().took_node(&earlier, n@));
                    assert(self.offered_node(old(self), n@));
                }
            },
            None => {},
        }
    }

    /// Whether the cache is as the read of a node leaves it: the same, or offered that
    /// node where it did not hold it.
    spec fn read_for(&self, before: &Self, id: NodeId) -> bool {
        ||| self.cached_nodes() == before.cached_nodes()
        ||| !before.cached_nodes().contains_key(id) && exists|n: NodeView|
            n.id == id && #[trigger] self.offered_node(before, n)
    }

    /// A node that is read and then forgotten leaves the cache.
    proof fn lemma_left_some(&self, read: &Self, before: &Self, id: NodeId)
        requires
            read.read_for(before, id),
            self.cached_nodes() == read.cached_nodes().remove(id),
        ensures
            left_some(before.cache_layer(), self.cache_layer(), id),
    {
        if read.cached_nodes() == before.cached_nodes() {
            assert(left_node(before.cache_layer(), self.cache_layer(), id, None));
        } else {
            let n = choose|n: NodeView| n.id == id && #[trigger] read.offered_node(before, n);
            let a = choose|c: C|
                {
                    &&& #[trigger] read.cache_layer().took_node(&c, n)
                    &&& c.valid()
                    &&& c.nodes() == before.cached_nodes()
                    &&& c.edges() == before.cached_edges()
                };
            assert(read.cache_layer().took_node(&a, n));
            assert(left_node(before.cache_layer(), self.cache_layer(), id, Some(n)));
        }
    }

    /// Deletes edges in the storage.
    fn store_deletions(&mut self, ids: &Vec<EdgeId>, gone: &mut IdMap<EdgeId, bool>) -> (r: Result<
        (),
        GraphError,
    >)
        requires
            old(self).well_formed(),
        ensures
            final(self).well_formed(),
            final(self).same_setting(old(self)),
            final(self).same_memory(old(self)),
            old(self).reliable() ==> r is Ok,
            r is Err ==> deletes_some(old(self).stored(), final(self).stored(), ids@),
            r is Ok ==> {
                &&& final(self).stored() == delete_each(old(self).stored(), ids@)
                &&& final(gone)@.dom() == old(gone)@.dom().union(ids@.to_set())
            },
    {
        let ghost st = old(self).stored();
        let mut i: usize = 0;
        proof {
            assert(ids@.take(0) =~= Seq::empty());
            assert(gone@.dom() =~= gone@.dom().union(ids@.take(0).to_set()));
        }
        while i < ids.len()
            invariant
                i <= ids.len(),
                st == old(self).stored(),
                self.well_formed(),
                self.same_setting(old(self)),
                self.same_memory(old(self)),
                self.stored() == delete_each(st, ids@.take(i as int)),
                gone@.dom() == old(gone)@.dom().union(ids@.take(i as int).to_set()),
            decreases ids.len() - i,
        {
            let id = ids[i];
            let ghost was = gone@.dom();
            proof {
                assert(ids@.take(i + 1).drop_last() =~= ids@.take(i as int));
                crate::adapters::storage::replay::lemma_take_set(ids@, i as int);
            }
            match self.storage.delete_edge(id) {
                Err(e) => {
                    proof {
                        if self.stored() != delete_each(st, ids@.take(i as int)) {
                            assert(self.stored() == delete_each(st, ids@.take(i + 1)));
                        }
                    }
                    return Err(e);
                },
                Ok(_) => {},
            }
            gone.insert(id, true);
            proof {
                assert(gone@.dom() =~= was.insert(id));
                assert(gone@.dom() =~= old(gone)@.dom().union(ids@.take(i + 1).to_set()));
            }
            i += 1;
        }
        assert(ids@.take(i as int) =~= ids@);
        Ok(())
    }

    /// The edges that leave or enter a node after the first `i` changes.
    fn standing(&self, ops: &Vec<StagedOp>, i: usize, gone: &IdMap<EdgeId, bool>, id: NodeId) -> (r:
        Vec<EdgeId>)
        requires
            i <= ops.len(),
        ensures
            forall|e: EdgeId| #[trigger]
                r@.contains(e) <==> !gone@.contains_key(e) && (incident_edges(
                    self.structure(),
                    id,
                ).contains(e) || staged_at(op_views(ops@), i as int, id, e)),
    {
        let mut edges: Vec<EdgeId> = Vec::new();
        let out = self.engine.neighbors_outgoing(id);
        let back = self.engine.neighbors_incoming(id);
        keep_standing(&out, gone, &mut edges);
        keep_staged(ops, i, id, true, gone, &mut edges);
        keep_standing(&back, gone, &mut edges);
        keep_staged(ops, i, id, false, gone, &mut edges);
        proof {
            let a = edge_ids(out@);
            let b = edge_ids(back@);
            assert forall|e: EdgeId| #[trigger] incident_edges(self.structure(), id).contains(
                e,
            ) <==> a.contains(e) || b.contains(e) by {
                let c = a + b;
                assert(c == incident_edges(self.structure(), id));
                if a.contains(e) {
                    let k = choose|k: int| 0 <= k < a.len() && a[k] == e;
                    assert(c[k] == e);
                }
                if b.contains(e) {
                    let k = choose|k: int| 0 <= k < b.len() && b[k] == e;
                    assert(c[a.len() + k] == e);
                }
                if c.contains(e) {
                    let k = choose|k: int| 0 <= k < c.len() && c[k] == e;
                    if k < a.len() {
                        assert(a[k] == e);
                    } else {
                        assert(b[k - a.len()] == e);
                    }
                }
            }
        }
        edges
    }

    /// Brings the change number `i` to the storage. The layers in memory stay.
    fn store_one(
        &mut self,
        ops: &Vec<StagedOp>,
        i: usize,
        p: &mut Progress,
        g0: Ghost<GraphView>,
        number: Ghost<u64>,
    ) -> (r: Result<(), GraphError>)
        requires
            old(self).well_formed(),
            i < ops.len(),
            storable_ops(op_views(ops@)),
            points_to_nodes(old(p).staged@, op_views(ops@), i as int),
        ensures
            final(self).well_formed(),
            final(self).same_memory(old(self)),
            final(self).marks() == old(self).marks(),
            final(self).reliable() == old(self).reliable(),
            final(self).settings() == old(self).settings(),
            final(self).slow() == old(self).slow(),
            final(self).next_node() == old(self).next_node(),
            final(self).next_edge() == old(self).next_edge(),
            final(self).writes() == old(self).writes(),
            final(self).counters() == old(self).counters(),
            final(self).compaction_error() == old(self).compaction_error(),
            only_noted(old(self).stored(), final(self).stored()),
            points_to_nodes(final(p).staged@, op_views(ops@), i + 1),
            final(p).known.len() == old(p).known.len() + 1 || r is Err,
            old(self).reliable() ==> r is Ok,
            old(self).agrees(g0@) && old(p).noted(
                old(self).stored(),
                old(self).marks(),
                g0@,
                op_views(ops@),
                i as int,
                number@,
            ) && next_noted(g0@, op_views(ops@), i as int) ==> match r {
                Ok(_) => final(p).noted(
                    final(self).stored(),
                    final(self).marks(),
                    g0@,
                    op_views(ops@),
                    i + 1,
                    number@,
                ),
                Err(_) => change_begun(
                    old(self).stored(),
                    final(self).stored(),
                    op_views(ops@)[i as int],
                ),
            },
    {
        let ghost all = op_views(ops@);
        let ghost st = old(self).stored();
        let ghost marks = old(self).marks();
        let ghost good = old(self).agrees(g0@) && old(p).noted(
            st,
            marks,
            g0@,
            all,
            i as int,
            number@,
        ) && next_noted(g0@, all, i as int);
        let ghost (staged, gone, known) = (p.staged@, p.gone@, p.known@);
        assert(all[i as int] == ops[i as int]@);
        match &ops[i] {
            StagedOp::InsertNode { node } => {
                match self.storage.save_node(node) {
                    Err(e) => {
                        return Err(e);
                    },
                    Ok(_) => {},
                }
                p.staged.insert(node.id, Some(i));
                p.known.push(None);
                proof {
                    if good {
                        lemma_noted_insert_node(
                            st, marks, g0@, all, i as int, number@, staged, gone, known, node@,
                        );
                    }
                }
            },
            StagedOp::InsertEdge { edge } => {
                match self.storage.save_edge(edge) {
                    Err(e) => {
                        return Err(e);
                    },
                    Ok(_) => {},
                }
                p.known.push(None);
                proof {
                    if good {
                        lemma_noted_insert_edge(
                            st, marks, g0@, all, i as int, number@, staged, gone, known, edge@,
                        );
                    }
                }
            },
            StagedOp::DeleteNode { id } => {
                return self.store_node_deletion(ops, i, *id, p, g0, number);
            },
            StagedOp::DeleteEdge { id } => {
                match self.storage.delete_edge(*id) {
                    Err(e) => {
                        return Err(e);
                    },
                    Ok(_) => {},
                }
                p.gone.insert(*id, true);
                p.known.push(None);
                proof {
                    if good {
                        lemma_noted_delete_edge(
                            st, marks, g0@, all, i as int, number@, staged, gone, known, *id,
                        );
                    }
                }
            },
        }
        Ok(())
    }

    /// Brings the change number `i`, which deletes a node, to the storage.
    fn store_node_deletion(
        &mut self,
        ops: &Vec<StagedOp>,
        i: usize,
        id: NodeId,
        p: &mut Progress,
        g0: Ghost<GraphView>,
        number: Ghost<u64>,
    ) -> (r: Result<(), GraphError>)
        requires
            old(self).well_formed(),
            i < ops.len(),
            op_views(ops@)[i as int] == OpView::DeleteNode(id),
            points_to_nodes(old(p).staged@, op_views(ops@), i as int),
        ensures
            final(self).well_formed(),
            final(self).same_memory(old(self)),
            final(self).marks() == old(self).marks(),
            final(self).reliable() == old(self).reliable(),
            final(self).settings() == old(self).settings(),
            final(self).slow() == old(self).slow(),
            final(self).next_node() == old(self).next_node(),
            final(self).next_edge() == old(self).next_edge(),
            final(self).writes() == old(self).writes(),
            final(self).counters() == old(self).counters(),
            final(self).compaction_error() == old(self).compaction_error(),
            only_noted(old(self).stored(), final(self).stored()),
            points_to_nodes(final(p).staged@, op_views(ops@), i + 1),
            final(p).known.len() == old(p).known.len() + 1 || r is Err,
            old(self).reliable() ==> r is Ok,
            old(self).agrees(g0@) && old(p).noted(
                old(self).stored(),
                old(self).marks(),
                g0@,
                op_views(ops@),
                i as int,
                number@,
            ) && next_noted(g0@, op_views(ops@), i as int) ==> match r {
                Ok(_) => final(p).noted(
                    final(self).stored(),
                    final(self).marks(),
                    g0@,
                    op_views(ops@),
                    i + 1,
                    number@,
                ),
                Err(_) => change_begun(
                    old(self).stored(),
                    final(self).stored(),
                    op_views(ops@)[i as int],
                ),
            },
    {
        let ghost all = op_views(ops@);
        let ghost st = old(self).stored();
        let ghost marks = old(self).marks();
        let ghost g = apply_ops(g0@, all.take(i as int))->Ok_0;
        let ghost good = old(self).agrees(g0@) && old(p).noted(
            st,
            marks,
            g0@,
            all,
            i as int,
            number@,
        ) && next_noted(g0@, all, i as int);
        let ghost (staged, gone, known) = (p.staged@, p.gone@, p.known@);
        let node: Option<Node> = match p.staged.get(id) {
            Some(Some(k)) => match &ops[*k] {
                StagedOp::InsertNode { node } => {
                    assert(all[*k as int] == ops[*k as int]@);
                    Some(node.clone())
                },
                _ => None,
            },
            Some(None) => None,
            None => if self.engine.contains_node(id) {
                match self.read_to_delete(id) {
                    Err(e) => {
                        return Err(e);
                    },
                    Ok(o) => o,
                }
            } else {
                None
            },
        };
        proof {
            if good {
                assert(self.structure().outgoing.dom() == g0@.nodes.dom());
                assert(self.structure().outgoing.contains_key(id) == g0@.nodes.contains_key(id));
                assert(g.nodes.contains_key(id) == if staged.contains_key(id) {
                    staged[id] is Some
                } else {
                    g0@.nodes.contains_key(id)
                });
                if !staged.contains_key(id) && g0@.nodes.contains_key(id) {
                    lemma_touches_push(all, i as int);
                    assert(!touches_node(all.take(i as int), id));
                    assert(!inserts_node(all.take(i as int), id));
                    lemma_settled_read(st, id);
                }
                assert(known_right(node, g, id));
            }
        }
        let edges = self.standing(ops, i, &p.gone, id);
        proof {
            if good {
                assert forall|e: EdgeId| #[trigger] edges@.to_set().contains(e)
                    <==> g.incident(id).contains(e) by {
                    lemma_standing(
                        self.structure(), gone, g0@, g, all, i as int, id, e,
                    );
                    assert(edges@.contains(e) <==> edges@.to_set().contains(e));
                }
                assert(edges@.to_set() =~= g.incident(id));
            }
        }
        match self.store_deletions(&edges, &mut p.gone) {
            Err(e) => {
                proof {
                    assert(deletion_begun(st, self.stored(), id, edges@));
                    lemma_deletion_noted(st, self.stored(), id, edges@);
                }
                return Err(e);
            },
            Ok(_) => {},
        }
        let ghost mid = self.stored();
        match self.storage.delete_node(id) {
            Err(e) => {
                proof {
                    assert(edges@.take(edges@.len() as int) =~= edges@);
                    assert(deletion_begun(st, self.stored(), id, edges@)) by {
                        if self.stored() == mid {
                            assert(self.stored() == delete_each(
                                st,
                                edges@.take(edges@.len() as int),
                            ));
                        }
                    }
                    lemma_deletion_noted(st, self.stored(), id, edges@);
                }
                return Err(e);
            },
            Ok(_) => {},
        }
        p.staged.insert(id, None);
        p.known.push(node);
        proof {
            lemma_deletes_noted(st, edges@);
            if good {
                lemma_noted_delete_node(
                    st, marks, g0@, all, i as int, number@, staged, gone, known, id, edges@,
                    p.gone@, node,
                );
            }
        }
        Ok(())
    }

    /// Brings changes to the storage, between the marks of a transaction. Where that
    /// fails the transaction is given up. The layers in memory stay. Gives the nodes
    /// that the changes delete.
    fn store_all(&mut self, ops: &Vec<StagedOp>, number: u64) -> (r: Result<
        Vec<Option<Node>>,
        GraphError,
    >)
        requires
            old(self).well_formed(),
            storable_ops(op_views(ops@)),
        ensures
            final(self).well_formed(),
            final(self).same_memory(old(self)),
            final(self).marks() == old(self).marks(),
            final(self).reliable() == old(self).reliable(),
            final(self).settings() == old(self).settings(),
            final(self).slow() == old(self).slow(),
            final(self).next_node() == old(self).next_node(),
            final(self).next_edge() == old(self).next_edge(),
            final(self).writes() == old(self).writes(),
            final(self).counters() == old(self).counters(),
            final(self).compaction_error() == old(self).compaction_error(),
            old(self).reliable() ==> r is Ok,
            match r {
                Ok(known) => {
                    let all = op_views(ops@);
                    let g0 = old(self).graph();
                    &&& known.len() == ops.len()
                    &&& old(self).coherent() && inserts_new(g0, all) && apply_ops(g0, all) is Ok
                        ==> {
                        &&& final(self).stored().txn is None
                        &&& final(self).graph() == apply_ops(g0, all)->Ok_0
                        &&& knowns_right(known@, g0, all, all.len() as int)
                    }
                },
                Err(_) => final(self).given_up(old(self), op_views(ops@), number),
            },
    {
        let ghost all = op_views(ops@);
        let ghost g0 = old(self).graph();
        let ghost good = old(self).coherent() && inserts_new(g0, all) && apply_ops(g0, all) is Ok;
        match self.storage.begin_wal_transaction(number) {
            Err(e) => {
                let ghost earlier = self.storage;
                proof {
                    if !old(self).marks() && good {
                        old(self).lemma_first_stored(self.stored(), all, 0, self.stored());
                    }
                }
                self.give_up(number);
                assert(self.rolled_back(earlier, number));
                return Err(e);
            },
            Ok(_) => {},
        }
        let mut p = Progress { staged: IdMap::new(), gone: IdMap::new(), known: Vec::new() };
        let mut i: usize = 0;
        proof {
            assert(all.take(0) =~= Seq::empty());
            if good {
                if self.marks() {
                    lemma_settled_begin(old(self).stored(), number);
                }
                assert(p.noted(self.stored(), self.marks(), g0, all, 0, number));
            }
        }
        while i < ops.len()
            invariant
                i <= ops.len(),
                all == op_views(ops@),
                g0 == old(self).graph(),
                storable_ops(all),
                good == (old(self).coherent() && inserts_new(g0, all) && apply_ops(g0, all) is Ok),
                self.well_formed(),
                self.same_memory(old(self)),
                self.marks() == old(self).marks(),
                self.reliable() == old(self).reliable(),
                self.settings() == old(self).settings(),
                self.slow() == old(self).slow(),
                self.next_node() == old(self).next_node(),
                self.next_edge() == old(self).next_edge(),
                self.writes() == old(self).writes(),
                self.counters() == old(self).counters(),
                self.compaction_error() == old(self).compaction_error(),
                points_to_nodes(p.staged@, all, i as int),
                p.known.len() == i,
                self.marks() ==> only_noted(old(self).stored().begin(number), self.stored()),
                good ==> p.noted(self.stored(), self.marks(), g0, all, i as int, number),
            decreases ops.len() - i,
        {
            let ghost mid = self.stored();
            proof {
                if good {
                    lemma_applied_prefix(g0, all, i + 1);
                    assert(self.agrees(g0));
                    assert(next_noted(g0, all, i as int));
                }
            }
            match self.store_one(ops, i, &mut p, Ghost(g0), Ghost(number)) {
                Err(e) => {
                    let ghost earlier = self.storage;
                    proof {
                        if !old(self).marks() && good {
                            old(self).lemma_first_stored(self.stored(), all, i as int, mid);
                        }
                    }
                    self.give_up(number);
                    assert(self.rolled_back(earlier, number));
                    return Err(e);
                },
                Ok(_) => {},
            }
            i += 1;
        }
        assert(all.take(i as int) =~= all);
        let ghost filled = self.stored();
        match self.storage.commit_wal_transaction(number) {
            Err(e) => {
                let ghost earlier = self.storage;
                proof {
                    if old(self).marks() {
                        if self.stored() != filled {
                            assert(old(self).all_noted(self.stored(), all, number)) by {
                                assert(only_noted(old(self).stored().begin(number), filled));
                            }
                        }
                    } else if good {
                        old(self).lemma_first_stored(filled, all, all.len() as int, filled);
                    }
                    assert(Self::half_done(self.stored(), old(self), all, number));
                }
                self.give_up(number);
                assert(self.rolled_back(earlier, number));
                return Err(e);
            },
            Ok(_) => {},
        }
        proof {
            if good && self.marks() {
                lemma_settled_commit(filled, number);
            }
        }
        Ok(p.known)
    }

    proof fn lemma_first_stored(
        &self,
        st: StorageView,
        ops: Seq<OpView>,
        k: int,
        mid: StorageView,
    )
        requires
            0 <= k <= ops.len(),
            settled(mid) == apply_ops(self.graph(), ops.take(k))->Ok_0,
            k == ops.len() ==> st == mid,
            k < ops.len() ==> change_begun(mid, st, ops[k]),
        ensures
            self.first_stored(st, ops),
    {
        assert(change_begun(mid, st, ops[k]));
    }

    /// Enters the change number `i` in the layers in memory.
    fn enter_one(
        &mut self,
        ops: &Vec<StagedOp>,
        i: usize,
        known: &Vec<Option<Node>>,
        g0: Ghost<GraphView>,
    )
        requires
            old(self).well_formed(),
            i < ops.len(),
            known.len() == ops.len(),
        ensures
            final(self).well_formed(),
            final(self).stored() == old(self).stored(),
            final(self).marks() == old(self).marks(),
            final(self).reliable() == old(self).reliable(),
            final(self).settings() == old(self).settings(),
            final(self).slow() == old(self).slow(),
            final(self).next_node() == old(self).next_node(),
            final(self).next_edge() == old(self).next_edge(),
            final(self).writes() == counted_deletes(
                old(self).writes(),
                seq![op_views(ops@)[i as int]],
            ),
            same_but_cache(
                final(self).counters(),
                counted_ops(old(self).counters(), seq![op_views(ops@)[i as int]]),
            ),
            final(self).compaction_error() == old(self).compaction_error(),
            cache_step(
                old(self).cache_layer(),
                final(self).cache_layer(),
                op_views(ops@)[i as int],
            ),
            next_noted(g0@, op_views(ops@), i as int) && knowns_right(
                known@,
                g0@,
                op_views(ops@),
                ops.len() as int,
            ) && old(self).agrees(apply_ops(g0@, op_views(ops@).take(i as int))->Ok_0)
                ==> final(self).agrees(apply_ops(g0@, op_views(ops@).take(i + 1))->Ok_0),
    {
        let ghost all = op_views(ops@);
        let ghost g = apply_ops(g0@, all.take(i as int))->Ok_0;
        let ghost op = seq![all[i as int]];
        let ghost good = next_noted(g0@, all, i as int) && knowns_right(
            known@,
            g0@,
            all,
            ops.len() as int,
        ) && old(self).agrees(g);
        proof {
            assert(all[i as int] == ops[i as int]@);
            assert(op.drop_last() =~= Seq::empty());
            assert(op.last() == all[i as int]);
            reveal_with_fuel(counted_deletes, 2);
            reveal_with_fuel(counted_ops, 2);
            if good {
                lemma_next_applied(g0@, all, i as int);
                lemma_touches_push(all, i as int);
                lemma_applied_touched(g0@, all.take(i as int));
            }
        }
        match &ops[i] {
            StagedOp::InsertNode { node } => {
                self.enter_node(node.clone());
                count(&mut self.metrics.nodes_inserted);
            },
            StagedOp::InsertEdge { edge } => {
                self.enter_edge(edge.clone());
                count(&mut self.metrics.edges_inserted);
            },
            StagedOp::DeleteNode { id } => {
                assert(good ==> known_right(known[i as int], g, *id));
                self.note_read(*id, &known[i]);
                let ghost read = *self;
                self.leave_node(*id, &known[i]);
                proof {
                    self.lemma_left_some(&read, old(self), *id);
                }
                count(&mut self.metrics.nodes_deleted);
                self.writes_since_compact = self.writes_since_compact.wrapping_add(1);
            },
            StagedOp::DeleteEdge { id } => {
                self.leave_edge(*id);
                count(&mut self.metrics.edges_deleted);
                self.writes_since_compact = self.writes_since_compact.wrapping_add(1);
            },
        }
    }

    /// Enters changes in the layers in memory, in order.
    fn enter_all(&mut self, ops: &Vec<StagedOp>, known: &Vec<Option<Node>>, g0: Ghost<GraphView>) -> (r:
        CommitResult)
        requires
            old(self).well_formed(),
            known.len() == ops.len(),
        ensures
            final(self).well_formed(),
            final(self).stored() == old(self).stored(),
            final(self).marks() == old(self).marks(),
            final(self).reliable() == old(self).reliable(),
            final(self).settings() == old(self).settings(),
            final(self).slow() == old(self).slow(),
            final(self).next_node() == old(self).next_node(),
            final(self).next_edge() == old(self).next_edge(),
            final(self).writes() == counted_deletes(old(self).writes(), op_views(ops@)),
            same_but_cache(
                final(self).counters(),
                counted_ops(old(self).counters(), op_views(ops@)),
            ),
            final(self).compaction_error() == old(self).compaction_error(),
            cache_follows(old(self).cache_layer(), final(self).cache_layer(), op_views(ops@)),
            reports(r, op_views(ops@)),
            inserts_new(g0@, op_views(ops@)) && apply_ops(g0@, op_views(ops@)) is Ok
                && knowns_right(known@, g0@, op_views(ops@), ops.len() as int) && old(self).agrees(
                g0@,
            ) ==> final(self).agrees(apply_ops(g0@, op_views(ops@))->Ok_0),
    {
        let ghost all = op_views(ops@);
        let ghost good = inserts_new(g0@, all) && apply_ops(g0@, all) is Ok && knowns_right(
            known@,
            g0@,
            all,
            ops.len() as int,
        ) && old(self).agrees(g0@);
        let mut result = CommitResult::default();
        let mut i: usize = 0;
        assert(all.take(0) =~= Seq::empty());
        while i < ops.len()
            invariant
                i <= ops.len(),
                known.len() == ops.len(),
                all == op_views(ops@),
                good == (inserts_new(g0@, all) && apply_ops(g0@, all) is Ok && knowns_right(
                    known@,
                    g0@,
                    all,
                    ops.len() as int,
                ) && old(self).agrees(g0@)),
                self.well_formed(),
                self.stored() == old(self).stored(),
                self.marks() == old(self).marks(),
                self.reliable() == old(self).reliable(),
                self.settings() == old(self).settings(),
                self.slow() == old(self).slow(),
                self.next_node() == old(self).next_node(),
                self.next_edge() == old(self).next_edge(),
                self.writes() == counted_deletes(old(self).writes(), all.take(i as int)),
                same_but_cache(
                    self.counters(),
                    counted_ops(old(self).counters(), all.take(i as int)),
                ),
                self.compaction_error() == old(self).compaction_error(),
                cache_follows(
                    old(self).cache_layer(),
                    self.cache_layer(),
                    all.take(i as int),
                ),
                reports(result, all.take(i as int)),
                good ==> self.agrees(apply_ops(g0@, all.take(i as int))->Ok_0),
            decreases ops.len() - i,
        {
            let ghost before = *self;
            proof {
                let op = seq![all[i as int]];
                assert(all.take(i + 1).drop_last() =~= all.take(i as int));
                assert(all.take(i + 1).last() == all[i as int]);
                assert(all[i as int] == ops[i as int]@);
                assert(op.drop_last() =~= Seq::empty());
                reveal_with_fuel(counted_deletes, 2);
                reveal_with_fuel(counted_ops, 2);
                lemma_counted_alike(
                    counted_ops(old(self).counters(), all.take(i as int)),
                    self.counters(),
                    op,
                );
                if good {
                    lemma_applied_prefix(g0@, all, i + 1);
                    assert(next_noted(g0@, all, i as int));
                }
            }
            self.enter_one(ops, i, known, g0);
            match &ops[i] {
                StagedOp::InsertNode { node } => result.inserted_node_ids.push(node.id),
                StagedOp::InsertEdge { edge } => result.inserted_edge_ids.push(edge.id),
                StagedOp::DeleteNode { id } => result.deleted_node_ids.push(*id),
                StagedOp::DeleteEdge { id } => result.deleted_edge_ids.push(*id),
            }
            proof {
                lemma_cache_follows(
                    old(self).cache_layer(),
                    before.cache_layer(),
                    self.cache_layer(),
                    all.take(i + 1),
                );
            }
            i += 1;
        }
        assert(all.take(i as int) =~= all);
        result
    }

    /// Commits a transaction: its changes take effect in order, all of them or none.
    /// Where a node is missing for an edge, or the storage fails, that is an error, and
    /// nothing changes in memory but that the identifiers of the transaction will not be
    /// used again.
    pub fn commit_transaction(&mut self, txn: Transaction) -> (r: Result<CommitResult, GraphError>)
        requires
            old(self).well_formed(),
            storable_ops(txn.ops()),
        ensures
            final(self).well_formed(),
            final(self).marks() == old(self).marks(),
            final(self).reliable() == old(self).reliable(),
            final(self).settings() == old(self).settings(),
            final(self).slow() == old(self).slow(),
            final(self).next_node() == seeded_node(old(self).next_node(), txn.ops()),
            final(self).next_edge() == seeded_edge(old(self).next_edge(), txn.ops()),
            match missing_end(old(self).structure().outgoing.dom(), txn.ops()) {
                Some(id) => {
                    &&& r matches Err(e) && e@ == GraphErrorView::NodeNotFound(id)
                    &&& final(self).stored() == old(self).stored()
                    &&& old(self).coherent() ==> final(self).coherent()
                },
                None => old(self).reliable() ==> r is Ok,
            },
            match r {
                Ok(result) => {
                    &&& reports(result, txn.ops())
                    &&& exists|m: DatabaseMetrics|
                        same_but_cache(m, counted_ops(old(self).counters(), txn.ops()))
                            && #[trigger] write_counted(
                            old(self).settings(),
                            old(self).reliable(),
                            counted_deletes(old(self).writes(), txn.ops()),
                            DatabaseMetrics {
                                transactions_committed: next(m.transactions_committed),
                                ..m
                            },
                            final(self).writes(),
                            final(self).counters(),
                        ) && failure_told(
                            old(self).settings(),
                            counted_deletes(old(self).writes(), txn.ops()),
                            DatabaseMetrics {
                                transactions_committed: next(m.transactions_committed),
                                ..m
                            },
                            final(self).counters(),
                            final(self).compaction_error(),
                        )
                    &&& final(self).cached_changes(old(self), txn.ops()) || compaction_due(
                        old(self).settings(),
                        one_more(counted_deletes(old(self).writes(), txn.ops())),
                    ) && final(self).cache_empty()
                    &&& old(self).coherent() && inserts_new(old(self).graph(), txn.ops()) ==> {
                        &&& final(self).coherent()
                        &&& apply_ops(old(self).graph(), txn.ops())
                            == Ok::<GraphView, NodeId>(final(self).graph())
                    }
                },
                Err(_) => {
                    &&& final(self).same_memory(old(self))
                    &&& final(self).writes() == old(self).writes()
                    &&& final(self).counters() == old(self).counters()
                    &&& final(self).compaction_error() == old(self).compaction_error()
                    &&& missing_end(old(self).structure().outgoing.dom(), txn.ops()) is None
                        ==> final(self).given_up(old(self), txn.ops(), txn.number())
                    &&& old(self).marks() && old(self).coherent() && inserts_new(
                        old(self).graph(),
                        txn.ops(),
                    ) ==> final(self).graph() == old(self).graph() || apply_ops(
                        old(self).graph(),
                        txn.ops(),
                    ) == Ok::<GraphView, NodeId>(final(self).graph())
                    &&& old(self).coherent() && final(self).graph() == old(self).graph()
                        && final(self).stored().txn is None ==> final(self).coherent()
                },
            },
    {
        let ghost all = txn.ops();
        let ghost g0 = old(self).graph();
        let number: u64 = txn.id();
        let ops = txn.into_operations();
        let mut ids = self.id_generator;
        skip_ids(&ops, &mut ids);
        proof {
            crate::transaction::law_rolled_back_ids_not_reused(
                old(self).next_node(),
                old(self).next_edge(),
                all,
            );
        }
        match self.find_missing(&ops) {
            Some(id) => {
                self.id_generator = ids;
                proof {
                    if old(self).coherent() {
                        lemma_missing_end(g0, all);
                        assert(old(self).structure().outgoing.dom() == g0.nodes.dom());
                    }
                }
                return Err(GraphError::NodeNotFound(id));
            },
            None => {},
        }
        proof {
            if old(self).coherent() {
                lemma_missing_end(g0, all);
                assert(self.structure().outgoing.dom() == g0.nodes.dom());
            }
        }
        let known = match self.store_all(&ops, number) {
            Err(e) => {
                let ghost failed = *self;
                self.id_generator = ids;
                proof {
                    self.lemma_same_answer(&failed, old(self), all, number);
                    if old(self).marks() && old(self).coherent() && inserts_new(g0, all) {
                        self.lemma_given_up(old(self), all, number);
                    }
                    if old(self).coherent() && self.graph() == g0 {
                        assert(self.agrees(g0));
                    }
                }
                return Err(e);
            },
            Ok(known) => known,
        };
        self.id_generator = ids;
        let ghost stored = *self;
        let result = self.enter_all(&ops, &known, Ghost(g0));
        let ghost m = self.counters();
        count(&mut self.metrics.transactions_committed);
        let ghost counted = *self;
        proof {
            assert(counted.cached_changes(old(self), all)) by {
                assert(cache_follows(stored.cache_layer(), counted.cache_layer(), all));
            }
            if old(self).coherent() && inserts_new(g0, all) {
                assert(stored.agrees(g0));
                lemma_applied_ids_below(g0, all, counted.next_node(), counted.next_edge());
                assert(counted.coherent());
            }
        }
        self.on_write();
        proof {
            assert(counted.counters() == (DatabaseMetrics {
                transactions_committed: next(m.transactions_committed),
                ..m
            }));
        }
        Ok(result)
    }

    /// What a failed commit leaves in the storage does not depend on the identifiers.
    proof fn lemma_same_answer(&self, other: &Self, before: &Self, ops: Seq<OpView>, number: u64)
        requires
            other.given_up(before, ops, number),
            self.storage == other.storage,
        ensures
            self.given_up(before, ops, number),
    {
        let earlier = choose|earlier: S| #[trigger]
            other.rolled_back(earlier, number) && Self::half_done(
                earlier.state(),
                before,
                ops,
                number,
            ) && earlier.marks_transactions() == before.marks();
        let closed = if earlier.marks_transactions() {
            earlier.state().rollback()
        } else {
            earlier.state()
        };
        let r = choose|r: Result<(), GraphError>|
            {
                &&& #[trigger] other.storage.answered_rollback(&earlier, number, r)
                &&& r is Ok ==> other.stored() == closed
                &&& r is Err ==> other.stored() == earlier.state() || other.stored() == closed
            };
        assert(self.storage.answered_rollback(&earlier, number, r));
        assert(self.rolled_back(earlier, number));
    }

    /// After a failed commit the graph is the earlier one, or the one with all
    /// changes.
    proof fn lemma_given_up(&self, before: &Self, ops: Seq<OpView>, number: u64)
        requires
            self.given_up(before, ops, number),
            before.marks(),
            before.coherent(),
            inserts_new(before.graph(), ops),
            apply_ops(before.graph(), ops) is Ok,
        ensures
            self.graph() == before.graph() || apply_ops(before.graph(), ops) == Ok::<
                GraphView,
                NodeId,
            >(self.graph()),
    {
        let begun = before.stored().begin(number);
        let earlier = choose|earlier: S| #[trigger]
            self.rolled_back(earlier, number) && Self::half_done(
                earlier.state(),
                before,
                ops,
                number,
            ) && earlier.marks_transactions() == before.marks();
        let st = earlier.state();
        assert(stored_graph(self.stored())
            == stored_graph(st));
        if st == before.stored() || only_noted(begun, st) {
        } else {
            let filled = choose|filled: StorageView|
                {
                    &&& #[trigger] only_noted(begun, filled)
                    &&& st == filled.commit(number)
                    &&& before.coherent() && inserts_new(before.graph(), ops) && apply_ops(
                        before.graph(),
                        ops,
                    ) is Ok ==> settled(filled) == apply_ops(before.graph(), ops)->Ok_0
                };
            lemma_settled_commit(filled, number);
        }
    }
}

/// Inserted identifiers that lie below the counters leave all identifiers below them.
proof fn lemma_applied_ids_below(g: GraphView, ops: Seq<OpView>, next_node: u64, next_edge: u64)
    requires
        apply_ops(g, ops) is Ok,
        ids_below(g, next_node, next_edge),
        forall|i: int|
            0 <= i < ops.len() ==> match #[trigger] ops[i] {
                OpView::InsertNode(n) => n.id.0 < next_node,
                OpView::InsertEdge(e) => e.id.0 < next_edge,
                _ => true,
            },
    ensures
        ids_below(apply_ops(g, ops)->Ok_0, next_node, next_edge),
    decreases ops.len(),
{
    if ops.len() > 0 {
        let t = ops.drop_last();
        assert forall|i: int| 0 <= i < t.len() implies match #[trigger] t[i] {
            OpView::InsertNode(n) => n.id.0 < next_node,
            OpView::InsertEdge(e) => e.id.0 < next_edge,
            _ => true,
        } by {
            assert(t[i] == ops[i]);
        }
        lemma_applied_ids_below(g, t, next_node, next_edge);
        assert(ops[ops.len() - 1] == ops.last());
    }
}

/// Counters that differ at most in what the cache served do so after changes.
proof fn lemma_counted_alike(a: DatabaseMetrics, b: DatabaseMetrics, ops: Seq<OpView>)
    requires
        same_but_cache(b, a),
    ensures
        same_but_cache(counted_ops(b, ops), counted_ops(a, ops)),
    decreases ops.len(),
{
    if ops.len() > 0 {
        lemma_counted_alike(a, b, ops.drop_last());
    }
}

/// Where changes can be applied, the first of them can.
proof fn lemma_applied_prefix(g: GraphView, ops: Seq<OpView>, i: int)
    requires
        0 <= i <= ops.len(),
        apply_ops(g, ops) is Ok,
    ensures
        apply_ops(g, ops.take(i)) is Ok,
    decreases ops.len(),
{
    if i == ops.len() {
        assert(ops.take(i) =~= ops);
    } else {
        assert(ops.drop_last().take(i) =~= ops.take(i));
        lemma_applied_prefix(g, ops.drop_last(), i);
    }
}

/// The first missing node is missing for all changes that begin alike.
proof fn lemma_missing_first(nodes: Set<NodeId>, ops: Seq<OpView>, i: int)
    requires
        0 <= i <= ops.len(),
        missing_end(nodes, ops.take(i)) is Some,
    ensures
        missing_end(nodes, ops) == missing_end(nodes, ops.take(i)),
    decreases ops.len(),
{
    if i == ops.len() {
        assert(ops.take(i) =~= ops);
    } else {
        assert(ops.drop_last().take(i) =~= ops.take(i));
        lemma_missing_first(nodes, ops.drop_last(), i);
    }
}

} // verus!
