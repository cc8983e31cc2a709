//! A write-ahead log held as records, one to a line of its file.
//!
//! Reading replays all records from the start; later ones shadow earlier ones.
//! How a record is written on its line is not decided here. Transactions are not
//! marked.

use crate::adapters::storage::binary_codec::RecordView;
use crate::adapters::storage::binary_log::{collect_edges, collect_nodes};
use crate::adapters::storage::replay::{edge_map, node_map};
use crate::collections::id_map::IdMap;
use crate::layout::{trim, trimmed};
use crate::model::edge::{Edge, EdgeView};
use crate::model::edge_id::EdgeId;
use crate::model::error::{GraphError, GraphErrorView};
use crate::model::node::{Node, NodeView};
use crate::model::node_id::NodeId;
use crate::ports::storage::{lists_edges, lists_nodes, StoragePort, StorageView};
use crate::text::{chars_of, concat3, decimal, u128_to_text};
use vstd::prelude::*;

verus! {

/// One record of the log.
#[allow(inconsistent_fields)]
#[derive(Debug)]
pub enum WalRecord {
    UpsertNode { node: Node },
    UpsertEdge { edge: Edge },
    DeleteNode { id: u64 },
    DeleteEdge { id: u64 },
}

impl View for WalRecord {
    type V = RecordView;

    open spec fn view(&self) -> RecordView {
        match *self {
            WalRecord::UpsertNode { node } => RecordView::UpsertNode(node@),
            WalRecord::UpsertEdge { edge } => RecordView::UpsertEdge(edge@),
            WalRecord::DeleteNode { id } => RecordView::DeleteNode(NodeId(id)),
            WalRecord::DeleteEdge { id } => RecordView::DeleteEdge(EdgeId(id)),
        }
    }
}

/// What records say.
pub open spec fn record_views(s: Seq<WalRecord>) -> Seq<RecordView> {
    s.map_values(|r: WalRecord| r@)
}

/// What a storage holds after records, from the first to the last.
pub open spec fn state_after(s: Seq<RecordView>) -> StorageView
    decreases s.len(),
{
    if s.len() == 0 {
        StorageView::empty()
    } else {
        state_after(s.drop_last()).apply(s.last())
    }
}

/// Whether a line of the file holds no record.
pub fn is_blank(line: &str) -> (r: bool)
    ensures
        r == (trimmed(line@).len() == 0),
{
    chars_of(trim(line).as_str()).len() == 0
}

/// The message about a line that holds no valid record. Lines are counted from one.
pub open spec fn line_message(index: nat, reason: Seq<char>) -> Seq<char> {
    "line "@ + decimal(index + 1) + ": "@ + reason
}

/// The replay of a log so far.
pub struct WalReplay {
    nodes: IdMap<NodeId, Node>,
    edges: IdMap<EdgeId, Edge>,
}

impl WalReplay {
    /// What the records so far amount to.
    pub closed spec fn state(&self) -> StorageView {
        StorageView { nodes: node_map(self.nodes@), edges: edge_map(self.edges@), txn: None }
    }

    /// The replay before the first record.
    pub fn new() -> (r: WalReplay)
        ensures
            r.state() == StorageView::empty(),
    {
        let r = WalReplay { nodes: IdMap::new(), edges: IdMap::new() };
        assert(node_map(r.nodes@) =~= Map::empty());
        assert(edge_map(r.edges@) =~= Map::empty());
        r
    }

    /// Applies the next record.
    pub fn apply(&mut self, record: WalRecord)
        ensures
            final(self).state() == old(self).state().apply(record@),
    {
        let ghost before = self.state();
        let ghost r = record@;
        match record {
            WalRecord::UpsertNode { node } => {
                let id = node.id;
                self.nodes.insert(id, node);
                assert(self.state().nodes =~= before.apply(r).nodes);
            },
            WalRecord::UpsertEdge { edge } => {
                let id = edge.id;
                self.edges.insert(id, edge);
                assert(self.state().edges =~= before.apply(r).edges);
            },
            WalRecord::DeleteNode { id } => {
                let _ = self.nodes.remove(NodeId(id));
                assert(self.state().nodes =~= before.apply(r).nodes);
            },
            WalRecord::DeleteEdge { id } => {
                let _ = self.edges.remove(EdgeId(id));
                assert(self.state().edges =~= before.apply(r).edges);
            },
        }
    }

    /// Takes the next line of the file, given what it was read as: a record, or
    /// the reason why it is none.
    pub fn take_line(&mut self, index: usize, read: Result<WalRecord, String>) -> (r: Result<
        (),
        GraphError,
    >)
        ensures
            match read {
                Ok(record) => r is Ok && final(self).state() == old(self).state().apply(record@),
                Err(reason) => {
                    &&& final(self).state() == old(self).state()
                    &&& r matches Err(e) && e@ == GraphErrorView::DeserializationError(
                        line_message(index as nat, reason@),
                    )
                },
            },
    {
        match read {
            Ok(record) => {
                self.apply(record);
                Ok(())
            },
            Err(reason) => {
                let n = u128_to_text(index as u128 + 1);
                let start = concat3("line ", n.as_str(), ": ");
                Err(
                    GraphError::DeserializationError(
                        crate::text::concat2(start.as_str(), reason.as_str()),
                    ),
                )
            },
        }
    }

    /// A live node.
    pub fn node(&self, id: NodeId) -> (r: Option<Node>)
        ensures
            match r {
                Some(n) => self.state().nodes.contains_key(id) && n@ == self.state().nodes[id],
                None => !self.state().nodes.contains_key(id),
            },
    {
        match self.nodes.get(id) {
            Some(n) => Some(n.clone()),
            None => None,
        }
    }

    /// A live edge.
    pub fn edge(&self, id: EdgeId) -> (r: Option<Edge>)
        ensures
            match r {
                Some(e) => self.state().edges.contains_key(id) && e@ == self.state().edges[id],
                None => !self.state().edges.contains_key(id),
            },
    {
        match self.edges.get(id) {
            Some(e) => Some(e.clone()),
            None => None,
        }
    }

    /// The live nodes, in no particular order.
    pub fn live_nodes(&self) -> (r: Vec<Node>)
        requires
            self.state().keyed(),
        ensures
            lists_nodes(r@, self.state().nodes),
    {
        assert forall|id: NodeId| #[trigger] node_map(self.nodes@).contains_key(id) implies node_map(
            self.nodes@,
        )[id].id == id by {
            assert(self.state().nodes.contains_key(id));
        }
        collect_nodes(&self.nodes)
    }

    /// The live edges, in no particular order.
    pub fn live_edges(&self) -> (r: Vec<Edge>)
        requires
            self.state().keyed(),
        ensures
            lists_edges(r@, self.state().edges),
    {
        assert forall|id: EdgeId| #[trigger] edge_map(self.edges@).contains_key(id) implies edge_map(
            self.edges@,
        )[id].id == id by {
            assert(self.state().edges.contains_key(id));
        }
        collect_edges(&self.edges)
    }
}

/// Records keep every node and edge under its identifier, and mark no transaction.
pub proof fn law_records_keep_identifiers(s: Seq<WalRecord>)
    ensures
        state_after(record_views(s)).keyed(),
        state_after(record_views(s)).txn is None,
    decreases s.len(),
{
    if s.len() > 0 {
        law_records_keep_identifiers(s.drop_last());
        assert(record_views(s).drop_last() =~= record_views(s.drop_last()));
        assert(record_views(s).last() == s.last()@);
    } else {
        assert(StorageView::empty().nodes.dom() =~= Set::empty());
        assert(StorageView::empty().edges.dom() =~= Set::empty());
    }
}

/// A later record shadows the earlier ones about the same node or edge.
pub proof fn law_last_record_wins(s: Seq<WalRecord>, last: WalRecord)
    ensures
        match last {
            WalRecord::UpsertNode { node } => state_after(record_views(s.push(last))).nodes
                == state_after(record_views(s)).nodes.insert(node.id, node@),
            WalRecord::UpsertEdge { edge } => state_after(record_views(s.push(last))).edges
                == state_after(record_views(s)).edges.insert(edge.id, edge@),
            WalRecord::DeleteNode { id } => state_after(record_views(s.push(last))).nodes
                == state_after(record_views(s)).nodes.remove(NodeId(id)),
            WalRecord::DeleteEdge { id } => state_after(record_views(s.push(last))).edges
                == state_after(record_views(s)).edges.remove(EdgeId(id)),
        },
{
    law_records_keep_identifiers(s);
    assert(record_views(s.push(last)).drop_last() =~= record_views(s));
    assert(record_views(s.push(last)).last() == last@);
}

/// The records that store some nodes and then some edges.
pub open spec fn live_records(nodes: Seq<Node>, edges: Seq<Edge>) -> Seq<RecordView> {
    nodes.map_values(|n: Node| RecordView::UpsertNode(n@)) + edges.map_values(
        |e: Edge| RecordView::UpsertEdge(e@),
    )
}

/// Whether records are one for each live node and one for each live edge of a
/// storage, and nothing else.
pub open spec fn are_live(records: Seq<RecordView>, state: StorageView) -> bool {
    exists|nodes: Seq<Node>, edges: Seq<Edge>|
        lists_nodes(nodes, state.nodes) && lists_edges(edges, state.edges) && records
            == #[trigger] live_records(nodes, edges)
}

/// A log of records in memory.
pub struct RecordLog {
    records: Vec<WalRecord>,
}

impl RecordLog {
    /// The records, from the first to the last.
    pub closed spec fn history(&self) -> Seq<WalRecord> {
        self.records@
    }

    /// A log without records.
    pub fn new() -> (r: RecordLog)
        ensures
            r.history() == Seq::<WalRecord>::empty(),
            r.state() == StorageView::empty(),
    {
        RecordLog { records: Vec::new() }
    }

    /// The log of the given records.
    pub fn from_records(records: Vec<WalRecord>) -> (r: RecordLog)
        ensures
            r.history() == records@,
    {
        RecordLog { records }
    }

    /// The records, from the first to the last.
    pub fn records(&self) -> (r: &Vec<WalRecord>)
        ensures
            r@ == self.history(),
    {
        &self.records
    }

    fn append(&mut self, record: WalRecord)
        ensures
            final(self).history() == old(self).history().push(record),
            final(self).state() == old(self).state().apply(record@),
            final(self).state().keyed(),
    {
        let ghost before = self.records@;
        self.records.push(record);
        proof {
            assert(record_views(self.records@).drop_last() =~= record_views(before));
            assert(record_views(self.records@).last() == record@);
            law_records_keep_identifiers(self.records@);
        }
    }

    fn replayed(&self) -> (r: WalReplay)
        ensures
            r.state() == self.state(),
            self.state().keyed(),
    {
        let mut replay = WalReplay::new();
        let ghost all = record_views(self.records@);
        let mut i: usize = 0;
        assert(all.take(0) =~= Seq::empty());
        while i < self.records.len()
            invariant
                i <= self.records.len(),
                all == record_views(self.records@),
                replay.state() == state_after(all.take(i as int)),
            decreases self.records.len() - i,
        {
            proof {
                assert(all.take(i + 1).drop_last() =~= all.take(i as int));
                assert(all.take(i + 1).last() == self.records[i as int]@);
            }
            let record = self.records[i].clone();
            replay.apply(record);
            i += 1;
        }
        proof {
            assert(all.take(i as int) =~= all);
            law_records_keep_identifiers(self.records@);
        }
        replay
    }
}

impl Clone for WalRecord {
    fn clone(&self) -> (r: WalRecord)
        ensures
            r@ == self@,
    {
        match self {
            WalRecord::UpsertNode { node } => WalRecord::UpsertNode { node: node.clone() },
            WalRecord::UpsertEdge { edge } => WalRecord::UpsertEdge { edge: edge.clone() },
            WalRecord::DeleteNode { id } => WalRecord::DeleteNode { id: *id },
            WalRecord::DeleteEdge { id } => WalRecord::DeleteEdge { id: *id },
        }
    }
}

impl StoragePort for RecordLog {
    open spec fn valid(&self) -> bool {
        true
    }

    open spec fn state(&self) -> StorageView {
        state_after(record_views(self.history()))
    }

    open spec fn marks_transactions(&self) -> bool {
        false
    }

    open spec fn reliable(&self) -> bool {
        true
    }

    /// The size of a log in memory is not known.
    open spec fn size(&self) -> u64 {
        0
    }

    open spec fn compacted(&self) -> bool {
        are_live(record_views(self.history()), self.state())
    }

    open spec fn answered_rollback(
        &self,
        earlier: &Self,
        txn_id: u64,
        r: Result<(), GraphError>,
    ) -> bool {
        r is Ok && self.history() == earlier.history()
    }

    proof fn lemma_keyed(&self) {
        law_records_keep_identifiers(self.history());
    }

    fn save_node(&mut self, node: &Node) -> (r: Result<(), GraphError>) {
        self.append(WalRecord::UpsertNode { node: node.clone() });
        Ok(())
    }

    fn load_node(&self, id: NodeId) -> (r: Result<Option<Node>, GraphError>) {
        Ok(self.replayed().node(id))
    }

    fn delete_node(&mut self, id: NodeId) -> (r: Result<(), GraphError>) {
        self.append(WalRecord::DeleteNode { id: id.0 });
        Ok(())
    }

    fn save_edge(&mut self, edge: &Edge) -> (r: Result<(), GraphError>) {
        self.append(WalRecord::UpsertEdge { edge: edge.clone() });
        Ok(())
    }

    fn load_edge(&self, id: EdgeId) -> (r: Result<Option<Edge>, GraphError>) {
        Ok(self.replayed().edge(id))
    }

    fn delete_edge(&mut self, id: EdgeId) -> (r: Result<(), GraphError>) {
        self.append(WalRecord::DeleteEdge { id: id.0 });
        Ok(())
    }

    fn load_all_nodes(&self) -> (r: Result<Vec<Node>, GraphError>) {
        Ok(self.replayed().live_nodes())
    }

    fn load_all_edges(&self) -> (r: Result<Vec<Edge>, GraphError>) {
        Ok(self.replayed().live_edges())
    }

    fn compact(&mut self) -> (r: Result<(), GraphError>)
        ensures
            r is Ok,
            are_live(record_views(final(self).history()), old(self).state()),
            final(self).history().len() == old(self).state().nodes.len() + old(
                self,
            ).state().edges.len(),
    {
        let replay = self.replayed();
        let nodes = replay.live_nodes();
        let edges = replay.live_edges();
        let ghost goal = self.state();
        proof {
            law_records_keep_identifiers(self.history());
            lemma_node_count(nodes@, goal.nodes);
            lemma_edge_count(edges@, goal.edges);
        }
        let mut fresh = RecordLog::new();
        let mut i: usize = 0;
        assert(record_views(fresh.history()) =~= live_records(nodes@.take(0), Seq::empty()));
        while i < nodes.len()
            invariant
                i <= nodes.len(),
                lists_nodes(nodes@, goal.nodes),
                fresh.history().len() == i,
                record_views(fresh.history()) == live_records(nodes@.take(i as int), Seq::empty()),
                fresh.state().txn is None,
                fresh.state().edges == Map::<EdgeId, EdgeView>::empty(),
                forall|id: NodeId| #[trigger]
                    fresh.state().nodes.contains_key(id) <==> exists|j: int|
                        0 <= j < i && (#[trigger] nodes[j]).id == id,
                forall|id: NodeId| #[trigger]
                    fresh.state().nodes.contains_key(id) ==> goal.nodes.contains_key(id)
                        && fresh.state().nodes[id] == goal.nodes[id],
            decreases nodes.len() - i,
        {
            let ghost before = fresh.state().nodes;
            assert(goal.nodes.contains_key(nodes[i as int].id));
            let ghost past = record_views(fresh.history());
            let copy = nodes[i].clone();
            fresh.append(WalRecord::UpsertNode { node: copy });
            proof {
                let now = record_views(fresh.history());
                assert(now =~= past.push(RecordView::UpsertNode(nodes@[i as int]@)));
                assert(record_views(fresh.history()) =~= live_records(
                    nodes@.take(i + 1),
                    Seq::empty(),
                ));
                assert(fresh.state().nodes == before.insert(nodes[i as int].id, nodes[i as int]@));
                assert forall|id: NodeId| #[trigger]
                    fresh.state().nodes.contains_key(id) <==> exists|j: int|
                        0 <= j < i + 1 && (#[trigger] nodes[j]).id == id by {
                    if before.contains_key(id) {
                        let j = choose|j: int| 0 <= j < i && (#[trigger] nodes[j]).id == id;
                        assert(nodes[j].id == id);
                    }
                }
            }
            i += 1;
        }
        assert(fresh.state().nodes =~= goal.nodes);
        let mut i: usize = 0;
        assert(record_views(fresh.history()) =~= live_records(nodes@, edges@.take(0)));
        while i < edges.len()
            invariant
                i <= edges.len(),
                lists_edges(edges@, goal.edges),
                fresh.history().len() == nodes.len() + i,
                record_views(fresh.history()) == live_records(nodes@, edges@.take(i as int)),
                fresh.state().txn is None,
                fresh.state().nodes == goal.nodes,
                forall|id: EdgeId| #[trigger]
                    fresh.state().edges.contains_key(id) <==> exists|j: int|
                        0 <= j < i && (#[trigger] edges[j]).id == id,
                forall|id: EdgeId| #[trigger]
                    fresh.state().edges.contains_key(id) ==> goal.edges.contains_key(id)
                        && fresh.state().edges[id] == goal.edges[id],
            decreases edges.len() - i,
        {
            let ghost before = fresh.state().edges;
            assert(goal.edges.contains_key(edges[i as int].id));
            let ghost past = record_views(fresh.history());
            let copy = edges[i].clone();
            fresh.append(WalRecord::UpsertEdge { edge: copy });
            proof {
                let now = record_views(fresh.history());
                assert(now =~= past.push(RecordView::UpsertEdge(edges@[i as int]@)));
                assert(record_views(fresh.history()) =~= live_records(
                    nodes@,
                    edges@.take(i + 1),
                ));
                assert(fresh.state().edges == before.insert(edges[i as int].id, edges[i as int]@));
                assert forall|id: EdgeId| #[trigger]
                    fresh.state().edges.contains_key(id) <==> exists|j: int|
                        0 <= j < i + 1 && (#[trigger] edges[j]).id == id by {
                    if before.contains_key(id) {
                        let j = choose|j: int| 0 <= j < i && (#[trigger] edges[j]).id == id;
                        assert(edges[j].id == id);
                    }
                }
            }
            i += 1;
        }
        proof {
            assert(fresh.state().edges =~= goal.edges);
            assert(edges@.take(i as int) =~= edges@);
            assert(record_views(fresh.history()) == live_records(nodes@, edges@));
        }
        *self = fresh;
        Ok(())
    }

    fn wal_size_bytes(&self) -> (r: u64) {
        0
    }

    fn begin_wal_transaction(&mut self, txn_id: u64) -> (r: Result<(), GraphError>) {
        Ok(())
    }

    fn commit_wal_transaction(&mut self, txn_id: u64) -> (r: Result<(), GraphError>) {
        Ok(())
    }

    fn rollback_wal_transaction(&mut self, txn_id: u64) -> (r: Result<(), GraphError>) {
        Ok(())
    }
}

/// A list of all nodes of a map is as long as the map.
proof fn lemma_node_count(s: Seq<Node>, m: Map<NodeId, NodeView>)
    requires
        lists_nodes(s, m),
        m.dom().finite(),
    ensures
        s.len() == m.len(),
{
    let ids = s.map_values(|n: Node| n.id);
    assert(ids.no_duplicates());
    assert forall|id: NodeId| ids.to_set().contains(id) <==> m.dom().contains(id) by {
        if ids.to_set().contains(id) {
            let i = choose|i: int| 0 <= i < ids.len() && ids[i] == id;
            assert(s[i].id == id);
        }
        if m.contains_key(id) {
            let i = choose|i: int| 0 <= i < s.len() && (#[trigger] s[i]).id == id;
            assert(ids[i] == id);
        }
    }
    assert(ids.to_set() =~= m.dom());
    ids.unique_seq_to_set();
}

/// A list of all edges of a map is as long as the map.
proof fn lemma_edge_count(s: Seq<Edge>, m: Map<EdgeId, EdgeView>)
    requires
        lists_edges(s, m),
        m.dom().finite(),
    ensures
        s.len() == m.len(),
{
    let ids = s.map_values(|e: Edge| e.id);
    assert(ids.no_duplicates());
    assert forall|id: EdgeId| ids.to_set().contains(id) <==> m.dom().contains(id) by {
        if ids.to_set().contains(id) {
            let i = choose|i: int| 0 <= i < ids.len() && ids[i] == id;
            assert(s[i].id == id);
        }
        if m.contains_key(id) {
            let i = choose|i: int| 0 <= i < s.len() && (#[trigger] s[i]).id == id;
            assert(ids[i] == id);
        }
    }
    assert(ids.to_set() =~= m.dom());
    ids.unique_seq_to_set();
}

} // verus!
