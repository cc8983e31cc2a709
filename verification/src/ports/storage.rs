//! The durability boundary.
//!
//! The database writes through this port on every change and reads from it on a
//! cache miss. An adapter may mark transactions: what is written between a begin
//! and a commit marker then takes effect at the commit, and is lost if the
//! commit never comes.

use crate::model::edge::{Edge, EdgeView};
use crate::model::edge_id::EdgeId;
use crate::model::error::GraphError;
use crate::model::node::{Node, NodeView};
use crate::model::node_id::NodeId;
use crate::model::value::ValueView;
use vstd::prelude::*;
use vstd::utf8::encode_utf8;

verus! {

/// What has been written since the begin marker of an open transaction.
pub struct TxnView {
    pub id: u64,
    pub node_inserts: Seq<NodeView>,
    pub edge_inserts: Seq<EdgeView>,
    pub node_deletes: Seq<NodeId>,
    pub edge_deletes: Seq<EdgeId>,
}

/// What a storage holds: the live nodes and edges, and the open transaction of
/// a storage that marks transactions.
pub struct StorageView {
    pub nodes: Map<NodeId, NodeView>,
    pub edges: Map<EdgeId, EdgeView>,
    pub txn: Option<TxnView>,
}

/// Adds nodes one after the other under their identifiers.
pub open spec fn insert_nodes(m: Map<NodeId, NodeView>, s: Seq<NodeView>) -> Map<NodeId, NodeView>
    decreases s.len(),
{
    if s.len() == 0 {
        m
    } else {
        insert_nodes(m, s.drop_last()).insert(s.last().id, s.last())
    }
}

/// Adds edges one after the other under their identifiers.
pub open spec fn insert_edges(m: Map<EdgeId, EdgeView>, s: Seq<EdgeView>) -> Map<EdgeId, EdgeView>
    decreases s.len(),
{
    if s.len() == 0 {
        m
    } else {
        insert_edges(m, s.drop_last()).insert(s.last().id, s.last())
    }
}

impl StorageView {
    /// The storage without nodes and edges.
    pub open spec fn empty() -> StorageView {
        StorageView { nodes: Map::empty(), edges: Map::empty(), txn: None }
    }

    /// Stores a node, or notes it in the open transaction.
    pub open spec fn save_node(self, n: NodeView) -> StorageView {
        match self.txn {
            None => StorageView { nodes: self.nodes.insert(n.id, n), ..self },
            Some(t) => StorageView {
                txn: Some(TxnView { node_inserts: t.node_inserts.push(n), ..t }),
                ..self
            },
        }
    }

    /// Stores an edge, or notes it in the open transaction.
    pub open spec fn save_edge(self, e: EdgeView) -> StorageView {
        match self.txn {
            None => StorageView { edges: self.edges.insert(e.id, e), ..self },
            Some(t) => StorageView {
                txn: Some(TxnView { edge_inserts: t.edge_inserts.push(e), ..t }),
                ..self
            },
        }
    }

    /// Deletes a node, or notes that in the open transaction.
    pub open spec fn delete_node(self, id: NodeId) -> StorageView {
        match self.txn {
            None => StorageView { nodes: self.nodes.remove(id), ..self },
            Some(t) => StorageView {
                txn: Some(TxnView { node_deletes: t.node_deletes.push(id), ..t }),
                ..self
            },
        }
    }

    /// Deletes an edge, or notes that in the open transaction.
    pub open spec fn delete_edge(self, id: EdgeId) -> StorageView {
        match self.txn {
            None => StorageView { edges: self.edges.remove(id), ..self },
            Some(t) => StorageView {
                txn: Some(TxnView { edge_deletes: t.edge_deletes.push(id), ..t }),
                ..self
            },
        }
    }

    /// Opens a transaction; what an earlier open one noted is dropped.
    pub open spec fn begin(self, id: u64) -> StorageView {
        StorageView {
            txn: Some(
                TxnView {
                    id,
                    node_inserts: Seq::empty(),
                    edge_inserts: Seq::empty(),
                    node_deletes: Seq::empty(),
                    edge_deletes: Seq::empty(),
                },
            ),
            ..self
        }
    }

    /// Closes the open transaction. What it noted takes effect if the
    /// identifier is its own: first what it stored, then what it deleted.
    pub open spec fn commit(self, id: u64) -> StorageView {
        match self.txn {
            None => self,
            Some(t) => if t.id == id {
                StorageView {
                    nodes: insert_nodes(self.nodes, t.node_inserts).remove_keys(
                        t.node_deletes.to_set(),
                    ),
                    edges: insert_edges(self.edges, t.edge_inserts).remove_keys(
                        t.edge_deletes.to_set(),
                    ),
                    txn: None,
                }
            } else {
                StorageView { txn: None, ..self }
            },
        }
    }

    /// Drops the open transaction.
    pub open spec fn rollback(self) -> StorageView {
        StorageView { txn: None, ..self }
    }

    /// Every node and edge is found under its own identifier.
    pub open spec fn keyed(self) -> bool {
        &&& forall|id: NodeId| #[trigger]
            self.nodes.contains_key(id) ==> self.nodes[id].id == id
        &&& forall|id: EdgeId| #[trigger]
            self.edges.contains_key(id) ==> self.edges[id].id == id
        &&& self.nodes.dom().finite()
        &&& self.edges.dom().finite()
    }
}

/// Whether a text is short enough for a 32-bit byte length.
pub open spec fn short_text(s: Seq<char>) -> bool {
    encode_utf8(s).len() < 0x1_0000_0000
}

/// Whether the texts and counts in properties fit 32-bit lengths.
pub open spec fn storable_properties(p: Map<Seq<char>, ValueView>) -> bool {
    &&& p.dom().finite()
    &&& p.len() < 0x1_0000_0000
    &&& forall|k: Seq<char>| #[trigger]
        p.contains_key(k) ==> short_text(k) && (p[k] matches ValueView::Text(s) ==> short_text(s))
}

/// Whether the texts and counts in a node fit 32-bit lengths.
pub open spec fn storable_node(n: NodeView) -> bool {
    short_text(n.label) && storable_properties(n.properties)
}

/// Whether the texts and counts in an edge fit 32-bit lengths.
pub open spec fn storable_edge(e: EdgeView) -> bool {
    short_text(e.label) && storable_properties(e.properties)
}

/// The nodes of a list are those of a map, each once.
pub open spec fn lists_nodes(s: Seq<Node>, m: Map<NodeId, NodeView>) -> bool {
    &&& forall|i: int|
        0 <= i < s.len() ==> m.contains_key((#[trigger] s[i]).id) && m[s[i].id] == s[i]@
    &&& forall|i: int, j: int| 0 <= i < j < s.len() ==> (#[trigger] s[i]).id != (#[trigger] s[j]).id
    &&& forall|id: NodeId| #[trigger]
        m.contains_key(id) ==> exists|i: int| 0 <= i < s.len() && (#[trigger] s[i]).id == id
}

/// The edges of a list are those of a map, each once.
pub open spec fn lists_edges(s: Seq<Edge>, m: Map<EdgeId, EdgeView>) -> bool {
    &&& forall|i: int|
        0 <= i < s.len() ==> m.contains_key((#[trigger] s[i]).id) && m[s[i].id] == s[i]@
    &&& forall|i: int, j: int| 0 <= i < j < s.len() ==> (#[trigger] s[i]).id != (#[trigger] s[j]).id
    &&& forall|id: EdgeId| #[trigger]
        m.contains_key(id) ==> exists|i: int| 0 <= i < s.len() && (#[trigger] s[i]).id == id
}

/// A durable store of nodes and edges.
pub trait StoragePort {
    /// Whether the storage is in order.
    spec fn valid(&self) -> bool;

    /// What the storage holds.
    spec fn state(&self) -> StorageView;

    /// Whether the storage marks transactions.
    spec fn marks_transactions(&self) -> bool;

    /// Whether the storage never fails.
    spec fn reliable(&self) -> bool;

    /// The size of the store in bytes as the storage tells it.
    spec fn size(&self) -> u64;

    /// Whether the store has one entry for each live node and edge, and nothing
    /// else: no deletions, no transactions and nothing that was replaced.
    spec fn compacted(&self) -> bool;

    /// Whether the storage became what it is when it was asked, in an earlier
    /// state, to mark a transaction as given up, and answered so.
    spec fn answered_rollback(
        &self,
        earlier: &Self,
        txn_id: u64,
        r: Result<(), GraphError>,
    ) -> bool;

    /// A storage in order keeps every node and edge under its identifier.
    proof fn lemma_keyed(&self)
        requires
            self.valid(),
        ensures
            self.state().keyed(),
    ;

    /// Persists a node, in place of any with the same identifier. If it fails the
    /// store is as it was, or the node has been stored all the same.
    fn save_node(&mut self, node: &Node) -> (r: Result<(), GraphError>)
        requires
            old(self).valid(),
            storable_node(node@),
        ensures
            final(self).valid(),
            final(self).marks_transactions() == old(self).marks_transactions(),
            final(self).reliable() == old(self).reliable(),
            old(self).reliable() ==> r is Ok,
            r is Ok ==> final(self).state() == old(self).state().save_node(node@),
            r is Err ==> final(self).state() == old(self).state() || final(self).state() == old(
                self,
            ).state().save_node(node@),
    ;

    /// The node with this identifier, if there is one.
    fn load_node(&self, id: NodeId) -> (r: Result<Option<Node>, GraphError>)
        requires
            self.valid(),
        ensures
            self.reliable() ==> r is Ok,
            match r {
                Ok(Some(n)) => self.state().nodes.contains_key(id) && n@ == self.state().nodes[id],
                Ok(None) => !self.state().nodes.contains_key(id),
                Err(_) => true,
            },
    ;

    /// Deletes a node. If it fails the store is as it was, or the node has been
    /// deleted all the same.
    fn delete_node(&mut self, id: NodeId) -> (r: Result<(), GraphError>)
        requires
            old(self).valid(),
        ensures
            final(self).valid(),
            final(self).marks_transactions() == old(self).marks_transactions(),
            final(self).reliable() == old(self).reliable(),
            old(self).reliable() ==> r is Ok,
            r is Ok ==> final(self).state() == old(self).state().delete_node(id),
            r is Err ==> final(self).state() == old(self).state() || final(self).state() == old(
                self,
            ).state().delete_node(id),
    ;

    /// Persists an edge, in place of any with the same identifier. If it fails the
    /// store is as it was, or the edge has been stored all the same.
    fn save_edge(&mut self, edge: &Edge) -> (r: Result<(), GraphError>)
        requires
            old(self).valid(),
            storable_edge(edge@),
        ensures
            final(self).valid(),
            final(self).marks_transactions() == old(self).marks_transactions(),
            final(self).reliable() == old(self).reliable(),
            old(self).reliable() ==> r is Ok,
            r is Ok ==> final(self).state() == old(self).state().save_edge(edge@),
            r is Err ==> final(self).state() == old(self).state() || final(self).state() == old(
                self,
            ).state().save_edge(edge@),
    ;

    /// The edge with this identifier, if there is one.
    fn load_edge(&self, id: EdgeId) -> (r: Result<Option<Edge>, GraphError>)
        requires
            self.valid(),
        ensures
            self.reliable() ==> r is Ok,
            match r {
                Ok(Some(e)) => self.state().edges.contains_key(id) && e@ == self.state().edges[id],
                Ok(None) => !self.state().edges.contains_key(id),
                Err(_) => true,
            },
    ;

    /// Deletes an edge. If it fails the store is as it was, or the edge has been
    /// deleted all the same.
    fn delete_edge(&mut self, id: EdgeId) -> (r: Result<(), GraphError>)
        requires
            old(self).valid(),
        ensures
            final(self).valid(),
            final(self).marks_transactions() == old(self).marks_transactions(),
            final(self).reliable() == old(self).reliable(),
            old(self).reliable() ==> r is Ok,
            r is Ok ==> final(self).state() == old(self).state().delete_edge(id),
            r is Err ==> final(self).state() == old(self).state() || final(self).state() == old(
                self,
            ).state().delete_edge(id),
    ;

    /// All live nodes, in no particular order.
    fn load_all_nodes(&self) -> (r: Result<Vec<Node>, GraphError>)
        requires
            self.valid(),
        ensures
            self.reliable() ==> r is Ok,
            r matches Ok(v) ==> lists_nodes(v@, self.state().nodes),
    ;

    /// All live edges, in no particular order.
    fn load_all_edges(&self) -> (r: Result<Vec<Edge>, GraphError>)
        requires
            self.valid(),
        ensures
            self.reliable() ==> r is Ok,
            r matches Ok(v) ==> lists_edges(v@, self.state().edges),
    ;

    /// Rewrites the store with only the live nodes and edges. What an open
    /// transaction noted is dropped. If it fails the store is as it was, or has
    /// been rewritten all the same.
    fn compact(&mut self) -> (r: Result<(), GraphError>)
        requires
            old(self).valid(),
        ensures
            final(self).valid(),
            final(self).marks_transactions() == old(self).marks_transactions(),
            final(self).reliable() == old(self).reliable(),
            old(self).reliable() ==> r is Ok,
            r is Ok ==> final(self).state() == old(self).state().rollback(),
            r is Ok ==> final(self).compacted(),
            r is Err ==> final(self).state() == old(self).state() || final(self).state() == old(
                self,
            ).state().rollback(),
    ;

    /// The approximate size of the store in bytes, or 0 where it is not known.
    fn wal_size_bytes(&self) -> (r: u64)
        ensures
            r == self.size(),
    ;

    /// Marks the begin of a batch of related changes.
    fn begin_wal_transaction(&mut self, txn_id: u64) -> (r: Result<(), GraphError>)
        requires
            old(self).valid(),
        ensures
            final(self).valid(),
            final(self).marks_transactions() == old(self).marks_transactions(),
            final(self).reliable() == old(self).reliable(),
            old(self).reliable() ==> r is Ok,
            r is Ok ==> final(self).state() == if old(self).marks_transactions() {
                old(self).state().begin(txn_id)
            } else {
                old(self).state()
            },
            r is Err ==> final(self).state() == old(self).state() || old(self).marks_transactions()
                && final(self).state() == old(self).state().begin(txn_id),
    ;

    /// Marks the end of a batch: its changes take effect together.
    fn commit_wal_transaction(&mut self, txn_id: u64) -> (r: Result<(), GraphError>)
        requires
            old(self).valid(),
        ensures
            final(self).valid(),
            final(self).marks_transactions() == old(self).marks_transactions(),
            final(self).reliable() == old(self).reliable(),
            old(self).reliable() ==> r is Ok,
            r is Ok ==> final(self).state() == if old(self).marks_transactions() {
                old(self).state().commit(txn_id)
            } else {
                old(self).state()
            },
            r is Err ==> final(self).state() == old(self).state() || old(self).marks_transactions()
                && final(self).state() == old(self).state().commit(txn_id),
    ;

    /// Marks a batch as given up: its changes have no effect.
    fn rollback_wal_transaction(&mut self, txn_id: u64) -> (r: Result<(), GraphError>)
        requires
            old(self).valid(),
        ensures
            final(self).valid(),
            final(self).marks_transactions() == old(self).marks_transactions(),
            final(self).reliable() == old(self).reliable(),
            old(self).reliable() ==> r is Ok,
            r is Ok ==> final(self).state() == if old(self).marks_transactions() {
                old(self).state().rollback()
            } else {
                old(self).state()
            },
            r is Err ==> final(self).state() == old(self).state() || old(self).marks_transactions()
                && final(self).state() == old(self).state().rollback(),
            final(self).answered_rollback(old(self), txn_id, r),
    ;
}

} // verus!
