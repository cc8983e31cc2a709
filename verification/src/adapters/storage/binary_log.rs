//! A write-ahead log held as bytes.
//!
//! Every change appends a record with a checksum; reading replays the records.
//! The bytes are those of the log's file.

use crate::adapters::storage::binary_codec::{
    encode_delete_edge, encode_delete_node, encode_edge, encode_edge_payload, encode_node,
    encode_node_payload, encode_txn_marker, le_bytes, sealed, RecordView, RECORD_BEGIN_TXN,
    RECORD_COMMIT_TXN, RECORD_ROLLBACK_TXN, RECORD_UPSERT_EDGE, RECORD_UPSERT_NODE, VERSION,
};
use crate::adapters::storage::binary_codec::adler32;
use crate::adapters::storage::binary_decode::{decode_record, decode_u32, read_checksum};
use crate::adapters::storage::binary_laws::{
    intact, lemma_append_record, lemma_replay_storable, lemma_storable_entries, lemma_writes_edge,
    lemma_writes_node, storable_state, writes,
};
use crate::adapters::storage::replay::{
    edge_map, has_magic, lemma_payload_advances, magic, node_map, replay, replay_all, replay_from,
    Replay,
};
use crate::collections::id_map::IdMap;
use crate::model::edge::{Edge, EdgeView};
use crate::model::edge_id::EdgeId;
use crate::model::error::{GraphError, GraphErrorView};
use crate::model::node::Node;
use crate::model::node_id::NodeId;
use crate::ports::storage::{lists_edges, lists_nodes, StoragePort, StorageView};
use vstd::prelude::*;

verus! {

/// Whether bytes are a log that was written to its end: a header of this
/// version and complete records.
pub open spec fn intact_log(data: Seq<u8>) -> bool {
    &&& data.len() >= 8
    &&& data.take(4) == magic()
    &&& decode_u32(data, 4).value == Ok::<u32, Seq<char>>(VERSION)
    &&& intact(data, 8)
}

/// The storage that the records of a log describe.
pub open spec fn log_state(data: Seq<u8>) -> StorageView {
    replay_from(data, 8, StorageView::empty(), Seq::empty()).state
}

/// The bytes of a log without records.
pub open spec fn header() -> Seq<u8> {
    seq![65u8, 71u8, 68u8, 66u8, 2u8, 0u8, 0u8, 0u8]
}

/// The records that store some nodes, one after the other.
pub open spec fn node_records(s: Seq<Node>) -> Seq<u8>
    decreases s.len(),
{
    if s.len() == 0 {
        Seq::empty()
    } else {
        let n = s.last();
        node_records(s.drop_last()) + sealed(
            RECORD_UPSERT_NODE,
            encode_node_payload(n@, n.properties.entries()),
        )
    }
}

/// The records that store some edges, one after the other.
pub open spec fn edge_records(s: Seq<Edge>) -> Seq<u8>
    decreases s.len(),
{
    if s.len() == 0 {
        Seq::empty()
    } else {
        let e = s.last();
        edge_records(s.drop_last()) + sealed(
            RECORD_UPSERT_EDGE,
            encode_edge_payload(e@, e.properties.entries()),
        )
    }
}

/// A log with a record for each of some nodes and each of some edges.
pub open spec fn compact_bytes(nodes: Seq<Node>, edges: Seq<Edge>) -> Seq<u8> {
    header() + node_records(nodes) + edge_records(edges)
}

/// Whether a log is the header, a record for each live node and one for each live
/// edge of a storage, and nothing else.
pub open spec fn is_compact(data: Seq<u8>, state: StorageView) -> bool {
    exists|nodes: Seq<Node>, edges: Seq<Edge>|
        lists_nodes(nodes, state.nodes) && lists_edges(edges, state.edges) && data
            == #[trigger] compact_bytes(nodes, edges)
}

proof fn lemma_header()
    ensures
        intact_log(header()),
        log_state(header()) == StorageView::empty(),
{
    let h = header();
    assert(h.take(4) =~= magic());
    let b = h.subrange(4, 8);
    reveal_with_fuel(crate::adapters::storage::binary_codec::le_value, 5);
    assert(b[0] == 2u8);
    assert(b.drop_first()[0] == 0u8);
    assert(b.drop_first().drop_first()[0] == 0u8);
    assert(b.drop_first().drop_first().drop_first()[0] == 0u8);
    assert(b.drop_first().drop_first().drop_first().drop_first().len() == 0);
}

/// What an intact log holds is keyed and can be written again.
pub proof fn lemma_log_state(data: Seq<u8>)
    ensures
        log_state(data).keyed(),
        storable_state(log_state(data)),
{
    assert(StorageView::empty().nodes.dom() =~= Set::empty());
    assert(StorageView::empty().edges.dom() =~= Set::empty());
    lemma_replay_storable(data, 8, StorageView::empty(), Seq::empty());
}

/// A record that is written at the end of an intact log leaves an intact log,
/// and takes effect after all earlier records.
pub proof fn law_append_applies(data: Seq<u8>, kind: u8, payload: Seq<u8>, r: RecordView)
    requires
        intact_log(data),
        writes(kind, payload, r),
    ensures
        intact_log(data + sealed(kind, payload)),
        log_state(data + sealed(kind, payload)) == log_state(data).apply(r),
        replay_all(data + sealed(kind, payload)) matches Ok(v) && v.state == log_state(data).apply(r),
{
    let ext = sealed(kind, payload);
    lemma_append_record(data, 8, kind, payload, r, StorageView::empty(), Seq::empty());
    assert((data + ext).take(4) =~= data.take(4));
    assert((data + ext).subrange(4, 8) =~= data.subrange(4, 8));
}

/// The record that ends what a storage has open: a rollback marker where there is a
/// transaction, and nothing otherwise.
pub open spec fn closing_record(state: StorageView) -> Seq<u8> {
    match state.txn {
        Some(t) => sealed(RECORD_ROLLBACK_TXN, le_bytes(t.id as nat, 8)),
        None => Seq::empty(),
    }
}

/// With its closing record an intact log holds what was committed, and no
/// transaction is open.
pub proof fn law_closing_record(data: Seq<u8>)
    requires
        intact_log(data),
    ensures
        intact_log(data + closing_record(log_state(data))),
        log_state(data + closing_record(log_state(data))) == log_state(data).rollback(),
{
    match log_state(data).txn {
        Some(t) => {
            law_append_applies(
                data,
                RECORD_ROLLBACK_TXN,
                le_bytes(t.id as nat, 8),
                RecordView::RollbackTxn(t.id),
            );
        },
        None => {
            assert(data + Seq::<u8>::empty() =~= data);
        },
    }
}

/// The bytes to write at the end of a log before anything else is written to it. A
/// transaction that was cut short is given up by them.
pub fn closing_bytes(data: &[u8]) -> (r: Result<Vec<u8>, GraphError>)
    ensures
        match replay_all(data@) {
            Ok(v) => r matches Ok(bytes) && bytes@ == closing_record(v.state),
            Err(m) => r matches Err(e) && e@ == GraphErrorView::DeserializationError(m),
        },
{
    match replay(data) {
        Err(e) => Err(e),
        Ok(done) => match &done.txn {
            Some(t) => Ok(encode_txn_marker(RECORD_ROLLBACK_TXN, t.id())),
            None => Ok(Vec::new()),
        },
    }
}

/// A log of complete records, in memory.
pub struct BinaryLog {
    bytes: Vec<u8>,
}

impl BinaryLog {
    /// The bytes of the log.
    pub closed spec fn contents(&self) -> Seq<u8> {
        self.bytes@
    }

    /// A log without records.
    pub fn new() -> (r: BinaryLog)
        ensures
            r.contents() == header(),
            r.valid(),
            r.state() == StorageView::empty(),
    {
        let mut bytes: Vec<u8> = Vec::new();
        bytes.push(65);
        bytes.push(71);
        bytes.push(68);
        bytes.push(66);
        bytes.push(2);
        bytes.push(0);
        bytes.push(0);
        bytes.push(0);
        assert(bytes@ =~= header());
        proof {
            lemma_header();
        }
        BinaryLog { bytes }
    }

    /// Opens a log of which the bytes are given. A transaction without its end is given
    /// up, so that what is written next does not become part of it. Where a record is
    /// damaged or torn, the log starts anew with what can be read of it. Bytes that are
    /// no log, or one of another version, are an error.
    pub fn recover(bytes: Vec<u8>) -> (r: Result<BinaryLog, GraphError>)
        ensures
            match replay_all(bytes@) {
                Ok(v) => match r {
                    Ok(log) => {
                        &&& log.valid()
                        &&& log.state() == v.state.rollback()
                        &&& if intact_log(bytes@) {
                            log.contents() == bytes@ + closing_record(v.state)
                        } else {
                            is_compact(log.contents(), v.state)
                        }
                    },
                    Err(_) => false,
                },
                Err(m) => r matches Err(e) && e@ == GraphErrorView::DeserializationError(m),
            },
    {
        if !is_intact_log(bytes.as_slice()) {
            return match compact_log(bytes.as_slice()) {
                Ok(fresh) => Ok(BinaryLog { bytes: fresh }),
                Err(e) => Err(e),
            };
        }
        let ghost data = bytes@;
        let mut log = BinaryLog { bytes };
        match closing_bytes(log.bytes.as_slice()) {
            Ok(mut record) => {
                proof {
                    law_closing_record(data);
                }
                log.bytes.append(&mut record);
            },
            Err(_) => {},
        }
        Ok(log)
    }

    /// The bytes of the log.
    pub fn bytes(&self) -> (r: &Vec<u8>)
        ensures
            r@ == self.contents(),
    {
        &self.bytes
    }

    fn append_bytes(&mut self, record: Vec<u8>, kind: Ghost<u8>, payload: Ghost<Seq<u8>>, r: Ghost<RecordView>)
        requires
            old(self).valid(),
            record@ == sealed(kind@, payload@),
            writes(kind@, payload@, r@),
        ensures
            final(self).valid(),
            final(self).contents() == old(self).contents() + record@,
            final(self).state() == old(self).state().apply(r@),
    {
        proof {
            law_append_applies(self.bytes@, kind@, payload@, r@);
        }
        let mut record = record;
        self.bytes.append(&mut record);
    }

    /// The log with a record for each of the given nodes and edges, which are those
    /// of a storage.
    fn holding(nodes: &Vec<Node>, edges: &Vec<Edge>, goal: Ghost<StorageView>) -> (r: BinaryLog)
        requires
            lists_nodes(nodes@, goal@.nodes),
            lists_edges(edges@, goal@.edges),
            storable_state(goal@),
        ensures
            r.valid(),
            r.contents() == compact_bytes(nodes@, edges@),
            is_compact(r.contents(), goal@),
            r.state() == goal@.rollback(),
    {
        let ghost goal = goal@;
        let mut fresh = BinaryLog::new();
        let mut i: usize = 0;
        assert(nodes@.take(0) =~= Seq::empty());
        assert(fresh.contents() =~= header() + node_records(nodes@.take(0)));
        while i < nodes.len()
            invariant
                i <= nodes.len(),
                fresh.valid(),
                fresh.contents() == header() + node_records(nodes@.take(i as int)),
                lists_nodes(nodes@, goal.nodes),
                storable_state(goal),
                fresh.state().txn is None,
                fresh.state().edges == Map::<EdgeId, EdgeView>::empty(),
                forall|id: NodeId| #[trigger]
                    fresh.state().nodes.contains_key(id) <==> exists|j: int|
                        0 <= j < i && (#[trigger] nodes[j]).id == id,
                forall|id: NodeId| #[trigger]
                    fresh.state().nodes.contains_key(id) ==> goal.nodes.contains_key(id)
                        && fresh.state().nodes[id] == goal.nodes[id],
            decreases nodes.len() - i,
        {
            let ghost before = fresh.state().nodes;
            assert(goal.nodes.contains_key(nodes[i as int].id));
            let _ = fresh.save_node(&nodes[i]);
            proof {
                assert(nodes@.take(i + 1).drop_last() =~= nodes@.take(i as int));
                assert(nodes@.take(i + 1).last() == nodes@[i as int]);
                assert(fresh.contents() =~= header() + node_records(nodes@.take(i + 1)));
                assert(fresh.state().nodes == before.insert(nodes[i as int].id, nodes[i as int]@));
                assert forall|id: NodeId| #[trigger]
                    fresh.state().nodes.contains_key(id) <==> exists|j: int|
                        0 <= j < i + 1 && (#[trigger] nodes[j]).id == id by {
                    if before.contains_key(id) {
                        let j = choose|j: int| 0 <= j < i && (#[trigger] nodes[j]).id == id;
                        assert(nodes[j].id == id);
                    }
                }
            }
            i += 1;
        }
        proof {
            assert(fresh.state().nodes =~= goal.nodes);
            assert(nodes@.take(i as int) =~= nodes@);
            assert(edges@.take(0) =~= Seq::empty());
            assert(fresh.contents() =~= header() + node_records(nodes@) + edge_records(
                edges@.take(0),
            ));
        }
        let mut i: usize = 0;
        while i < edges.len()
            invariant
                i <= edges.len(),
                fresh.valid(),
                fresh.contents() == header() + node_records(nodes@) + edge_records(
                    edges@.take(i as int),
                ),
                lists_edges(edges@, goal.edges),
                storable_state(goal),
                fresh.state().txn is None,
                fresh.state().nodes == goal.nodes,
                forall|id: EdgeId| #[trigger]
                    fresh.state().edges.contains_key(id) <==> exists|j: int|
                        0 <= j < i && (#[trigger] edges[j]).id == id,
                forall|id: EdgeId| #[trigger]
                    fresh.state().edges.contains_key(id) ==> goal.edges.contains_key(id)
                        && fresh.state().edges[id] == goal.edges[id],
            decreases edges.len() - i,
        {
            let ghost before = fresh.state().edges;
            assert(goal.edges.contains_key(edges[i as int].id));
            let _ = fresh.save_edge(&edges[i]);
            proof {
                assert(edges@.take(i + 1).drop_last() =~= edges@.take(i as int));
                assert(edges@.take(i + 1).last() == edges@[i as int]);
                assert(fresh.contents() =~= header() + node_records(nodes@) + edge_records(
                    edges@.take(i + 1),
                ));
                assert(fresh.state().edges == before.insert(edges[i as int].id, edges[i as int]@));
                assert forall|id: EdgeId| #[trigger]
                    fresh.state().edges.contains_key(id) <==> exists|j: int|
                        0 <= j < i + 1 && (#[trigger] edges[j]).id == id by {
                    if before.contains_key(id) {
                        let j = choose|j: int| 0 <= j < i && (#[trigger] edges[j]).id == id;
                        assert(edges[j].id == id);
                    }
                }
            }
            i += 1;
        }
        proof {
            assert(fresh.state().edges =~= goal.edges);
            assert(edges@.take(i as int) =~= edges@);
        }
        assert(fresh.state() == goal.rollback());
        assert(is_compact(fresh.contents(), goal)) by {
            assert(fresh.contents() == compact_bytes(nodes@, edges@));
        }
        fresh
    }

    fn replayed(&self) -> (r: Result<Replay, GraphError>)
        requires
            self.valid(),
        ensures
            r matches Ok(done) && done.state() == self.state(),
    {
        replay(self.bytes.as_slice())
    }
}

/// The bytes of a log, read again, are a log that holds the same.
pub proof fn law_bytes_read_again(log: BinaryLog, bytes: Seq<u8>)
    requires
        log.valid(),
        bytes == log.contents(),
    ensures
        intact_log(bytes),
        log_state(bytes) == log.state(),
        replay_all(bytes) matches Ok(v) && v.state == log.state(),
{
}

/// Whether bytes are a header and complete records.
pub fn is_intact_log(data: &[u8]) -> (r: bool)
    ensures
        r == intact_log(data@),
{
    if data.len() < 8 || !has_magic(data) {
        return false;
    }
    let mut pos: usize = 4;
    match read_checksum(data, &mut pos) {
        Ok(version) => {
            if version != VERSION {
                return false;
            }
        },
        Err(_) => {
            return false;
        },
    }
    while pos < data.len()
        invariant
            8 <= pos <= data.len(),
            intact(data@, 8) == intact(data@, pos as int),
        decreases data.len() - pos,
    {
        let start: usize = pos;
        let kind: u8 = data[pos];
        pos = pos + 1;
        proof {
            lemma_payload_advances(kind, data@, pos as int);
        }
        if decode_record(kind, data, &mut pos).is_err() {
            return false;
        }
        let end: usize = pos;
        match read_checksum(data, &mut pos) {
            Ok(stored) => {
                if adler32(data, start, end) != stored {
                    return false;
                }
            },
            Err(_) => {
                return false;
            },
        }
    }
    true
}

impl StoragePort for BinaryLog {
    open spec fn valid(&self) -> bool {
        intact_log(self.contents())
    }

    open spec fn state(&self) -> StorageView {
        log_state(self.contents())
    }

    open spec fn marks_transactions(&self) -> bool {
        true
    }

    open spec fn reliable(&self) -> bool {
        true
    }

    open spec fn size(&self) -> u64 {
        self.contents().len() as u64
    }

    open spec fn compacted(&self) -> bool {
        is_compact(self.contents(), self.state())
    }

    open spec fn answered_rollback(
        &self,
        earlier: &Self,
        txn_id: u64,
        r: Result<(), GraphError>,
    ) -> bool {
        r is Ok && self.contents() == earlier.contents() + sealed(
            RECORD_ROLLBACK_TXN,
            le_bytes(txn_id as nat, 8),
        )
    }

    proof fn lemma_keyed(&self) {
        lemma_log_state(self.contents());
    }

    fn save_node(&mut self, node: &Node) -> (r: Result<(), GraphError>)
        ensures
            r is Ok,
            final(self).contents() == old(self).contents() + sealed(
                RECORD_UPSERT_NODE,
                encode_node_payload(node@, node.properties.entries()),
            ),
    {
        let record = encode_node(node);
        let ghost entries = node.properties.entries();
        let _n: usize = node.properties.len();
        proof {
            lemma_storable_entries(entries);
            lemma_writes_node(node@, entries);
        }
        self.append_bytes(
            record,
            Ghost(1u8),
            Ghost(encode_node_payload(node@, entries)),
            Ghost(RecordView::UpsertNode(node@)),
        );
        Ok(())
    }

    fn load_node(&self, id: NodeId) -> (r: Result<Option<Node>, GraphError>)
    {
        let done = match self.replayed() {
            Ok(d) => d,
            Err(e) => {
                return Err(e);
            },
        };
        match done.nodes.get(id) {
            Some(n) => Ok(Some(n.clone())),
            None => Ok(None),
        }
    }

    fn delete_node(&mut self, id: NodeId) -> (r: Result<(), GraphError>)
    {
        let record = encode_delete_node(id);
        self.append_bytes(
            record,
            Ghost(3u8),
            Ghost(le_bytes(id.0 as nat, 8)),
            Ghost(RecordView::DeleteNode(id)),
        );
        Ok(())
    }

    fn save_edge(&mut self, edge: &Edge) -> (r: Result<(), GraphError>)
        ensures
            r is Ok,
            final(self).contents() == old(self).contents() + sealed(
                RECORD_UPSERT_EDGE,
                encode_edge_payload(edge@, edge.properties.entries()),
            ),
    {
        let record = encode_edge(edge);
        let ghost entries = edge.properties.entries();
        let _n: usize = edge.properties.len();
        proof {
            lemma_storable_entries(entries);
            lemma_writes_edge(edge@, entries);
        }
        self.append_bytes(
            record,
            Ghost(2u8),
            Ghost(encode_edge_payload(edge@, entries)),
            Ghost(RecordView::UpsertEdge(edge@)),
        );
        Ok(())
    }

    fn load_edge(&self, id: EdgeId) -> (r: Result<Option<Edge>, GraphError>)
    {
        let done = match self.replayed() {
            Ok(d) => d,
            Err(e) => {
                return Err(e);
            },
        };
        match done.edges.get(id) {
            Some(e) => Ok(Some(e.clone())),
            None => Ok(None),
        }
    }

    fn delete_edge(&mut self, id: EdgeId) -> (r: Result<(), GraphError>)
    {
        let record = encode_delete_edge(id);
        self.append_bytes(
            record,
            Ghost(4u8),
            Ghost(le_bytes(id.0 as nat, 8)),
            Ghost(RecordView::DeleteEdge(id)),
        );
        Ok(())
    }

    fn load_all_nodes(&self) -> (r: Result<Vec<Node>, GraphError>)
    {
        let done = match self.replayed() {
            Ok(d) => d,
            Err(e) => {
                return Err(e);
            },
        };
        proof {
            lemma_log_state(self.contents());
        }
        Ok(collect_nodes(&done.nodes))
    }

    fn load_all_edges(&self) -> (r: Result<Vec<Edge>, GraphError>)
    {
        let done = match self.replayed() {
            Ok(d) => d,
            Err(e) => {
                return Err(e);
            },
        };
        proof {
            lemma_log_state(self.contents());
        }
        Ok(collect_edges(&done.edges))
    }

    fn compact(&mut self) -> (r: Result<(), GraphError>)
        ensures
            r is Ok,
            is_compact(final(self).contents(), old(self).state()),
    {
        let done = match self.replayed() {
            Ok(d) => d,
            Err(e) => {
                return Err(e);
            },
        };
        proof {
            lemma_log_state(self.contents());
        }
        let nodes = collect_nodes(&done.nodes);
        let edges = collect_edges(&done.edges);
        let ghost goal = self.state();
        *self = BinaryLog::holding(&nodes, &edges, Ghost(goal));
        Ok(())
    }

    fn wal_size_bytes(&self) -> (r: u64)
        ensures
            r == self.contents().len(),
    {
        let n: usize = self.bytes.len();
        n as u64
    }

    fn begin_wal_transaction(&mut self, txn_id: u64) -> (r: Result<(), GraphError>)
    {
        let record = encode_txn_marker(RECORD_BEGIN_TXN, txn_id);
        self.append_bytes(
            record,
            Ghost(5u8),
            Ghost(le_bytes(txn_id as nat, 8)),
            Ghost(RecordView::BeginTxn(txn_id)),
        );
        Ok(())
    }

    fn commit_wal_transaction(&mut self, txn_id: u64) -> (r: Result<(), GraphError>)
    {
        let record = encode_txn_marker(RECORD_COMMIT_TXN, txn_id);
        self.append_bytes(
            record,
            Ghost(6u8),
            Ghost(le_bytes(txn_id as nat, 8)),
            Ghost(RecordView::CommitTxn(txn_id)),
        );
        Ok(())
    }

    fn rollback_wal_transaction(&mut self, txn_id: u64) -> (r: Result<(), GraphError>)
    {
        let record = encode_txn_marker(RECORD_ROLLBACK_TXN, txn_id);
        self.append_bytes(
            record,
            Ghost(7u8),
            Ghost(le_bytes(txn_id as nat, 8)),
            Ghost(RecordView::RollbackTxn(txn_id)),
        );
        Ok(())
    }
}

/// Rewrites the bytes of a log with only the live nodes and edges.
pub fn compact_log(data: &[u8]) -> (r: Result<Vec<u8>, GraphError>)
    ensures
        match replay_all(data@) {
            Ok(v) => {
                &&& r matches Ok(bytes) && is_compact(bytes@, v.state)
                &&& intact_log(r->Ok_0@)
                &&& log_state(r->Ok_0@) == v.state.rollback()
            },
            Err(m) => r matches Err(e) && e@ == GraphErrorView::DeserializationError(m),
        },
{
    let done = match replay(data) {
        Ok(d) => d,
        Err(e) => {
            return Err(e);
        },
    };
    let ghost goal = done.state();
    proof {
        lemma_log_state(data@);
        assert(StorageView::empty().nodes.dom() =~= Set::empty());
        assert(StorageView::empty().edges.dom() =~= Set::empty());
    }
    let nodes = collect_nodes(&done.nodes);
    let edges = collect_edges(&done.edges);
    Ok(BinaryLog::holding(&nodes, &edges, Ghost(goal)).bytes)
}

/// The nodes of a map, in no particular order.
pub fn collect_nodes(m: &IdMap<NodeId, Node>) -> (r: Vec<Node>)
    requires
        forall|id: NodeId| #[trigger]
            node_map(m@).contains_key(id) ==> node_map(m@)[id].id == id,
    ensures
        lists_nodes(r@, node_map(m@)),
{
    let keys = m.keys();
    let mut out: Vec<Node> = Vec::new();
    let mut i: usize = 0;
    while i < keys.len()
        invariant
            i <= keys.len(),
            out.len() == i,
            keys@.to_set() == m@.dom(),
            forall|id: NodeId| #[trigger]
                node_map(m@).contains_key(id) ==> node_map(m@)[id].id == id,
            forall|j: int|
                0 <= j < i ==> (#[trigger] out[j]).id == keys[j] && m@.contains_key(keys[j])
                    && out[j]@ == m@[keys[j]]@,
        decreases keys.len() - i,
    {
        let id = keys[i];
        assert(keys@.to_set().contains(id));
        assert(m@.contains_key(id));
        assert(node_map(m@).contains_key(id));
        match m.get(id) {
            Some(n) => {
                let copy = n.clone();
                assert(copy@ == m@[id]@);
                assert(copy@.id == id);
                out.push(copy);
            },
            None => {},
        }
        i += 1;
    }
    proof {
        assert forall|id: NodeId| #[trigger] node_map(m@).contains_key(id) implies exists|j: int|
            0 <= j < out.len() && (#[trigger] out[j]).id == id by {
            assert(keys@.to_set().contains(id));
            let j = choose|j: int| 0 <= j < keys.len() && keys[j] == id;
            assert(out[j].id == id);
        }
    }
    out
}

/// The edges of a map, in no particular order.
pub fn collect_edges(m: &IdMap<EdgeId, Edge>) -> (r: Vec<Edge>)
    requires
        forall|id: EdgeId| #[trigger]
            edge_map(m@).contains_key(id) ==> edge_map(m@)[id].id == id,
    ensures
        lists_edges(r@, edge_map(m@)),
{
    let keys = m.keys();
    let mut out: Vec<Edge> = Vec::new();
    let mut i: usize = 0;
    while i < keys.len()
        invariant
            i <= keys.len(),
            out.len() == i,
            keys@.to_set() == m@.dom(),
            forall|id: EdgeId| #[trigger]
                edge_map(m@).contains_key(id) ==> edge_map(m@)[id].id == id,
            forall|j: int|
                0 <= j < i ==> (#[trigger] out[j]).id == keys[j] && m@.contains_key(keys[j])
                    && out[j]@ == m@[keys[j]]@,
        decreases keys.len() - i,
    {
        let id = keys[i];
        assert(keys@.to_set().contains(id));
        assert(m@.contains_key(id));
        assert(edge_map(m@).contains_key(id));
        match m.get(id) {
            Some(n) => {
                let copy = n.clone();
                assert(copy@ == m@[id]@);
                assert(copy@.id == id);
                out.push(copy);
            },
            None => {},
        }
        i += 1;
    }
    proof {
        assert forall|id: EdgeId| #[trigger] edge_map(m@).contains_key(id) implies exists|j: int|
            0 <= j < out.len() && (#[trigger] out[j]).id == id by {
            assert(keys@.to_set().contains(id));
            let j = choose|j: int| 0 <= j < keys.len() && keys[j] == id;
            assert(out[j].id == id);
        }
    }
    out
}

} // verus!
