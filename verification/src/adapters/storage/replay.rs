//! Rebuilding the live nodes and edges from the bytes of a binary log.

use crate::adapters::storage::binary_codec::{
    adler32, checksum, RecordData, RecordView, VERSION,
};
use crate::adapters::storage::binary_decode::{
    decode_entries, decode_payload, decode_properties, decode_record, decode_text, decode_u32,
    decode_u64, decode_value, read_checksum,
};
use crate::adapters::storage::record_extent::{
    lemma_extent_advances, lemma_extent_decoded, payload_extent, skip_record,
};
use crate::collections::id_map::IdMap;
use crate::model::edge::{Edge, EdgeView};
use crate::model::edge_id::EdgeId;
use crate::model::error::{GraphError, GraphErrorView};
use crate::model::node::{Node, NodeView};
use crate::model::node_id::NodeId;
use crate::model::value::ValueView;
use crate::ports::storage::{insert_edges, insert_nodes, StorageView, TxnView};
use crate::text::{decimal, u64_to_text};
use vstd::prelude::*;
use vstd::string::StringExecFns;

verus! {

/// Something that a replay met and passed over.
#[derive(Debug)]
pub enum ReplayWarning {
    /// A record whose checksum is wrong was skipped.
    ChecksumMismatch { offset: usize, stored: u32, computed: u32 },
    /// A record could not be read; the replay stopped there.
    DecodeError { offset: usize, error: GraphError },
    /// The log ends within a transaction, which was dropped.
    IncompleteTransaction,
}

/// What a warning says.
pub enum WarningView {
    ChecksumMismatch { offset: int, stored: u32, computed: nat },
    DecodeError { offset: int, error: GraphErrorView },
    IncompleteTransaction,
}

impl View for ReplayWarning {
    type V = WarningView;

    open spec fn view(&self) -> WarningView {
        match *self {
            ReplayWarning::ChecksumMismatch { offset, stored, computed } =>
                WarningView::ChecksumMismatch {
                offset: offset as int,
                stored,
                computed: computed as nat,
            },
            ReplayWarning::DecodeError { offset, error } => WarningView::DecodeError {
                offset: offset as int,
                error: error@,
            },
            ReplayWarning::IncompleteTransaction => WarningView::IncompleteTransaction,
        }
    }
}

impl StorageView {
    /// What a record does to the storage.
    pub open spec fn apply(self, r: RecordView) -> StorageView {
        match r {
            RecordView::UpsertNode(n) => self.save_node(n),
            RecordView::UpsertEdge(e) => self.save_edge(e),
            RecordView::DeleteNode(id) => self.delete_node(id),
            RecordView::DeleteEdge(id) => self.delete_edge(id),
            RecordView::BeginTxn(t) => self.begin(t),
            RecordView::CommitTxn(t) => self.commit(t),
            RecordView::RollbackTxn(_) => self.rollback(),
        }
    }
}

/// What a replay arrives at.
pub struct ReplayView {
    pub state: StorageView,
    pub warnings: Seq<WarningView>,
}

/// The warnings for a log that ends in the given state.
pub open spec fn end_warnings(state: StorageView, warnings: Seq<WarningView>) -> Seq<WarningView> {
    if state.txn is Some {
        warnings.push(WarningView::IncompleteTransaction)
    } else {
        warnings
    }
}

/// Reading moves the position forward.
pub proof fn lemma_payload_advances(kind: u8, data: Seq<u8>, pos: int)
    requires
        0 <= pos <= data.len(),
    ensures
        pos <= decode_payload(kind, data, pos).pos <= data.len(),
{
    reveal(decode_payload);
    lemma_text_advances(data, decode_u64(data, pos).pos);
    let l = decode_text(data, decode_u64(data, pos).pos);
    lemma_properties_advance(data, l.pos);
    let t = decode_u64(data, decode_u64(data, decode_u64(data, pos).pos).pos);
    lemma_text_advances(data, t.pos);
    let w = decode_u64(data, decode_text(data, t.pos).pos);
    lemma_properties_advance(data, w.pos);
}

proof fn lemma_text_advances(data: Seq<u8>, pos: int)
    requires
        0 <= pos <= data.len(),
    ensures
        pos <= decode_text(data, pos).pos <= data.len(),
{
}

proof fn lemma_value_advances(data: Seq<u8>, pos: int)
    requires
        0 <= pos <= data.len(),
    ensures
        pos <= decode_value(data, pos).pos <= data.len(),
{
    if pos < data.len() {
        lemma_text_advances(data, pos + 1);
    }
}

proof fn lemma_entries_advance(data: Seq<u8>, pos: int, n: nat, acc: Map<Seq<char>, ValueView>)
    requires
        0 <= pos <= data.len(),
    ensures
        pos <= decode_entries(data, pos, n, acc).pos <= data.len(),
    decreases n,
{
    if n > 0 {
        lemma_text_advances(data, pos);
        let k = decode_text(data, pos);
        lemma_value_advances(data, k.pos);
        let v = decode_value(data, k.pos);
        if k.value is Ok && v.value is Ok {
            lemma_entries_advance(data, v.pos, (n - 1) as nat, acc.insert(k.value->Ok_0, v.value->Ok_0));
        }
    }
}

proof fn lemma_properties_advance(data: Seq<u8>, pos: int)
    requires
        0 <= pos <= data.len(),
    ensures
        pos <= decode_properties(data, pos).pos <= data.len(),
{
    let n = decode_u32(data, pos);
    if n.value is Ok {
        lemma_entries_advance(data, n.pos, n.value->Ok_0 as nat, Map::empty());
    }
}

/// The replay of the records from `pos` on, starting in the given state.
///
/// A record is its type byte, its payload and a checksum. The replay stops
/// where no checksum follows. A record with a wrong checksum is passed over, up to
/// where its length fields say that it ends; one that has the right checksum and
/// no meaning ends the replay.
pub open spec fn replay_from(
    data: Seq<u8>,
    pos: int,
    state: StorageView,
    warnings: Seq<WarningView>,
) -> ReplayView
    decreases data.len() - pos,
{
    if pos < 0 || pos >= data.len() {
        ReplayView { state, warnings: end_warnings(state, warnings) }
    } else {
        let d = decode_payload(data[pos], data, pos + 1);
        let end = payload_extent(data[pos], data, pos + 1).end;
        let c = decode_u32(data, end);
        proof {
            lemma_extent_advances(data[pos], data, pos + 1);
        }
        match c.value {
            Err(_) => ReplayView { state, warnings: end_warnings(state, warnings) },
            Ok(stored) => {
                let computed = checksum(data.subrange(pos, end));
                if computed != stored {
                    replay_from(
                        data,
                        c.pos,
                        state,
                        warnings.push(
                            WarningView::ChecksumMismatch { offset: pos, stored, computed },
                        ),
                    )
                } else {
                    match d.value {
                        Ok(r) => replay_from(data, c.pos, state.apply(r), warnings),
                        Err(message) => ReplayView {
                            state,
                            warnings: end_warnings(
                                state,
                                warnings.push(
                                    WarningView::DecodeError {
                                        offset: pos,
                                        error: GraphErrorView::DeserializationError(message),
                                    },
                                ),
                            ),
                        },
                    }
                }
            },
        }
    }
}

/// The magic bytes at the start of a log.
pub open spec fn magic() -> Seq<u8> {
    seq![65u8, 71u8, 68u8, 66u8]
}

/// The message for a file that is not a log.
pub open spec fn bad_magic_message() -> Seq<char> {
    "invalid magic bytes — not an AGDB binary file"@
}

/// The replay of a whole log. Fewer bytes than a header are an empty log.
pub open spec fn replay_all(data: Seq<u8>) -> Result<ReplayView, Seq<char>> {
    if data.len() < 8 {
        Ok(ReplayView { state: StorageView::empty(), warnings: Seq::empty() })
    } else if data.take(4) != magic() {
        Err(bad_magic_message())
    } else if decode_u32(data, 4).value != Ok::<u32, Seq<char>>(VERSION) {
        Err("unsupported file version "@ + decimal(decode_u32(data, 4).value->Ok_0 as nat))
    } else {
        Ok(replay_from(data, 8, StorageView::empty(), Seq::empty()))
    }
}

// ------------------------------------------------------------------- running

/// What has been read since the begin marker of an open transaction.
pub struct TxnBuffer {
    id: u64,
    node_inserts: Vec<Node>,
    edge_inserts: Vec<Edge>,
    node_deletes: Vec<NodeId>,
    edge_deletes: Vec<EdgeId>,
}

/// The contents of nodes.
pub open spec fn node_views(s: Seq<Node>) -> Seq<NodeView> {
    s.map_values(|n: Node| n@)
}

/// The contents of edges.
pub open spec fn edge_views(s: Seq<Edge>) -> Seq<EdgeView> {
    s.map_values(|e: Edge| e@)
}

/// The contents of nodes by identifier.
pub open spec fn node_map(m: Map<NodeId, Node>) -> Map<NodeId, NodeView> {
    m.map_values(|n: Node| n@)
}

/// The contents of edges by identifier.
pub open spec fn edge_map(m: Map<EdgeId, Edge>) -> Map<EdgeId, EdgeView> {
    m.map_values(|e: Edge| e@)
}

impl View for TxnBuffer {
    type V = TxnView;

    closed spec fn view(&self) -> TxnView {
        TxnView {
            id: self.id,
            node_inserts: node_views(self.node_inserts@),
            edge_inserts: edge_views(self.edge_inserts@),
            node_deletes: self.node_deletes@,
            edge_deletes: self.edge_deletes@,
        }
    }
}

impl TxnBuffer {
    /// The number of the transaction.
    pub fn id(&self) -> (r: u64)
        ensures
            r == self@.id,
    {
        self.id
    }
}

/// The live nodes and edges of a log, and what the replay met on the way.
pub struct Replay {
    /// The live nodes.
    pub nodes: IdMap<NodeId, Node>,
    /// The live edges.
    pub edges: IdMap<EdgeId, Edge>,
    /// The open transaction.
    pub txn: Option<TxnBuffer>,
    /// The warnings, in order.
    pub warnings: Vec<ReplayWarning>,
}

impl Replay {
    /// The state that the replay has arrived at.
    pub open spec fn state(&self) -> StorageView {
        StorageView {
            nodes: node_map(self.nodes@),
            edges: edge_map(self.edges@),
            txn: match self.txn {
                Some(t) => Some(t@),
                None => None,
            },
        }
    }

    /// The warnings so far.
    pub open spec fn warning_views(&self) -> Seq<WarningView> {
        self.warnings@.map_values(|w: ReplayWarning| w@)
    }

    /// The state and the warnings.
    pub open spec fn view(&self) -> ReplayView {
        ReplayView { state: self.state(), warnings: self.warning_views() }
    }

    fn empty() -> (r: Replay)
        ensures
            r.state() == StorageView::empty(),
            r.warning_views() == Seq::<WarningView>::empty(),
    {
        let r = Replay {
            nodes: IdMap::new(),
            edges: IdMap::new(),
            txn: None,
            warnings: Vec::new(),
        };
        assert(r.state().nodes =~= Map::empty());
        assert(r.state().edges =~= Map::empty());
        assert(r.warning_views() =~= Seq::empty());
        r
    }

    fn warn(&mut self, w: ReplayWarning)
        ensures
            final(self).state() == old(self).state(),
            final(self).warning_views() == old(self).warning_views().push(w@),
    {
        self.warnings.push(w);
        assert(self.warning_views() =~= old(self).warning_views().push(w@));
    }

    /// Closes the open transaction and lets it take effect if it is the given
    /// one.
    fn commit(&mut self, txn_id: u64)
        ensures
            final(self).state() == old(self).state().commit(txn_id),
            final(self).warnings == old(self).warnings,
    {
        match self.txn.take() {
            None => {},
            Some(buffer) => {
                if buffer.id == txn_id {
                    insert_all_nodes(&mut self.nodes, buffer.node_inserts);
                    insert_all_edges(&mut self.edges, buffer.edge_inserts);
                    remove_all_nodes(&mut self.nodes, &buffer.node_deletes);
                    remove_all_edges(&mut self.edges, &buffer.edge_deletes);
                }
            },
        }
    }

    /// Lets a record take effect, or notes it in the open transaction.
    fn apply_or_buffer(&mut self, record: RecordData)
        ensures
            final(self).state() == old(self).state().apply(record@),
            final(self).warnings == old(self).warnings,
    {
        let ghost before = *self;
        match record {
            RecordData::BeginTxn(id) => {
                let buffer = TxnBuffer {
                    id,
                    node_inserts: Vec::new(),
                    edge_inserts: Vec::new(),
                    node_deletes: Vec::new(),
                    edge_deletes: Vec::new(),
                };
                assert(buffer@.node_inserts =~= Seq::empty());
                assert(buffer@.edge_inserts =~= Seq::empty());
                self.txn = Some(buffer);
            },
            RecordData::CommitTxn(id) => {
                self.commit(id);
            },
            RecordData::RollbackTxn(_) => {
                self.txn = None;
            },
            RecordData::UpsertNode(node) => {
                match self.txn.take() {
                    None => {
                        let ghost n = node;
                        self.nodes.insert(node.id, node);
                        assert(node_map(self.nodes@) =~= node_map(before.nodes@).insert(n.id, n@));
                    },
                    Some(buffer) => {
                        let mut buffer = buffer;
                        let ghost noted = buffer@;
                        buffer.node_inserts.push(node);
                        assert(buffer@.node_inserts =~= noted.node_inserts.push(node@));
                        self.txn = Some(buffer);
                    },
                }
            },
            RecordData::UpsertEdge(edge) => {
                match self.txn.take() {
                    None => {
                        let ghost e = edge;
                        self.edges.insert(edge.id, edge);
                        assert(edge_map(self.edges@) =~= edge_map(before.edges@).insert(e.id, e@));
                    },
                    Some(buffer) => {
                        let mut buffer = buffer;
                        let ghost noted = buffer@;
                        buffer.edge_inserts.push(edge);
                        assert(buffer@.edge_inserts =~= noted.edge_inserts.push(edge@));
                        self.txn = Some(buffer);
                    },
                }
            },
            RecordData::DeleteNode(id) => {
                match self.txn.take() {
                    None => {
                        self.nodes.remove(id);
                        assert(node_map(self.nodes@) =~= node_map(before.nodes@).remove(id));
                    },
                    Some(buffer) => {
                        let mut buffer = buffer;
                        buffer.node_deletes.push(id);
                        self.txn = Some(buffer);
                    },
                }
            },
            RecordData::DeleteEdge(id) => {
                match self.txn.take() {
                    None => {
                        self.edges.remove(id);
                        assert(edge_map(self.edges@) =~= edge_map(before.edges@).remove(id));
                    },
                    Some(buffer) => {
                        let mut buffer = buffer;
                        buffer.edge_deletes.push(id);
                        self.txn = Some(buffer);
                    },
                }
            },
        }
    }
}

fn insert_all_nodes(m: &mut IdMap<NodeId, Node>, nodes: Vec<Node>)
    ensures
        node_map(final(m)@) == insert_nodes(node_map(old(m)@), node_views(nodes@)),
{
    let ghost all = nodes@;
    assert(node_views(all.take(0)) =~= Seq::empty());
    for n in it: nodes
        invariant
            it.seq() == all,
            node_map(m@) == insert_nodes(
                node_map(old(m)@),
                node_views(all.take(it.index() as int)),
            ),
    {
        let ghost before = m@;
        let ghost i = it.index() as int;
        let ghost node = n;
        m.insert(n.id, n);
        proof {
            let grown = node_views(all.take(i + 1));
            assert(grown.drop_last() =~= node_views(all.take(i)));
            assert(grown.last() == node@);
            assert(node_map(m@) =~= node_map(before).insert(node.id, node@));
        }
    }
    assert(all.take(all.len() as int) =~= all);
}

fn insert_all_edges(m: &mut IdMap<EdgeId, Edge>, edges: Vec<Edge>)
    ensures
        edge_map(final(m)@) == insert_edges(edge_map(old(m)@), edge_views(edges@)),
{
    let ghost all = edges@;
    assert(edge_views(all.take(0)) =~= Seq::empty());
    for e in it: edges
        invariant
            it.seq() == all,
            edge_map(m@) == insert_edges(
                edge_map(old(m)@),
                edge_views(all.take(it.index() as int)),
            ),
    {
        let ghost before = m@;
        let ghost i = it.index() as int;
        let ghost edge = e;
        m.insert(e.id, e);
        proof {
            let grown = edge_views(all.take(i + 1));
            assert(grown.drop_last() =~= edge_views(all.take(i)));
            assert(grown.last() == edge@);
            assert(edge_map(m@) =~= edge_map(before).insert(edge.id, edge@));
        }
    }
    assert(all.take(all.len() as int) =~= all);
}

fn remove_all_nodes(m: &mut IdMap<NodeId, Node>, ids: &Vec<NodeId>)
    ensures
        node_map(final(m)@) == node_map(old(m)@).remove_keys(ids@.to_set()),
{
    let mut i: usize = 0;
    assert(m@ =~= m@.remove_keys(ids@.take(0).to_set()));
    while i < ids.len()
        invariant
            i <= ids.len(),
            m@ == old(m)@.remove_keys(ids@.take(i as int).to_set()),
        decreases ids.len() - i,
    {
        m.remove(ids[i]);
        proof {
            lemma_take_set(ids@, i as int);
            assert(m@ =~= old(m)@.remove_keys(ids@.take(i + 1).to_set()));
        }
        i += 1;
    }
    assert(ids@.take(i as int) =~= ids@);
    assert(node_map(m@) =~= node_map(old(m)@).remove_keys(ids@.to_set()));
}

fn remove_all_edges(m: &mut IdMap<EdgeId, Edge>, ids: &Vec<EdgeId>)
    ensures
        edge_map(final(m)@) == edge_map(old(m)@).remove_keys(ids@.to_set()),
{
    let mut i: usize = 0;
    assert(m@ =~= m@.remove_keys(ids@.take(0).to_set()));
    while i < ids.len()
        invariant
            i <= ids.len(),
            m@ == old(m)@.remove_keys(ids@.take(i as int).to_set()),
        decreases ids.len() - i,
    {
        m.remove(ids[i]);
        proof {
            lemma_take_set(ids@, i as int);
            assert(m@ =~= old(m)@.remove_keys(ids@.take(i + 1).to_set()));
        }
        i += 1;
    }
    assert(ids@.take(i as int) =~= ids@);
    assert(edge_map(m@) =~= edge_map(old(m)@).remove_keys(ids@.to_set()));
}

/// Taking one element more adds it to the set of elements.
pub proof fn lemma_take_set<T>(s: Seq<T>, i: int)
    requires
        0 <= i < s.len(),
    ensures
        s.take(i + 1).to_set() == s.take(i).to_set().insert(s[i]),
{
    let a = s.take(i + 1).to_set();
    let b = s.take(i).to_set().insert(s[i]);
    assert forall|x: T| a.contains(x) == b.contains(x) by {
        if a.contains(x) {
            let j = choose|j: int| 0 <= j < i + 1 && #[trigger] s.take(i + 1)[j] == x;
            if j < i {
                assert(s.take(i)[j] == x);
            }
        }
        if s.take(i).to_set().contains(x) {
            let j = choose|j: int| 0 <= j < i && #[trigger] s.take(i)[j] == x;
            assert(s.take(i + 1)[j] == x);
        }
        assert(s.take(i + 1)[i] == s[i]);
    }
    assert(a =~= b);
}

pub fn has_magic(data: &[u8]) -> (r: bool)
    requires
        data.len() >= 8,
    ensures
        r == (data@.take(4) == magic()),
{
    let r = data[0] == 65 && data[1] == 71 && data[2] == 68 && data[3] == 66;
    proof {
        assert(data@.take(4)[0] == data@[0]);
        assert(data@.take(4)[1] == data@[1]);
        assert(data@.take(4)[2] == data@[2]);
        assert(data@.take(4)[3] == data@[3]);
        if r {
            assert(data@.take(4) =~= magic());
        }
    }
    r
}

/// Rebuilds the live nodes and edges from the bytes of a log.
pub fn replay(data: &[u8]) -> (r: Result<Replay, GraphError>)
    ensures
        match (r, replay_all(data@)) {
            (Ok(done), Ok(v)) => done.view() == v,
            (Err(e), Err(m)) => e@ == GraphErrorView::DeserializationError(m),
            _ => false,
        },
{
    let mut out = Replay::empty();
    if data.len() < 8 {
        return Ok(out);
    }
    if !has_magic(data) {
        return Err(
            GraphError::DeserializationError(
                String::from_str("invalid magic bytes — not an AGDB binary file"),
            ),
        );
    }
    let mut pos: usize = 4;
    let version: u32 = match read_checksum(data, &mut pos) {
        Ok(v) => v,
        Err(e) => {
            return Err(e);
        },
    };
    if version != VERSION {
        let mut message = String::from_str("unsupported file version ");
        message.append(u64_to_text(version as u64).as_str());
        return Err(GraphError::DeserializationError(message));
    }
    let ghost goal = replay_from(data@, 8, StorageView::empty(), Seq::empty());
    while pos < data.len()
        invariant_except_break
            pos <= data.len(),
            goal == replay_from(data@, pos as int, out.state(), out.warning_views()),
        ensures
            goal == (ReplayView {
                state: out.state(),
                warnings: end_warnings(out.state(), out.warning_views()),
            }),
        decreases data.len() - pos,
    {
        let start: usize = pos;
        let kind: u8 = data[pos];
        pos = pos + 1;
        proof {
            lemma_extent_advances(kind, data@, pos as int);
        }
        let payload: usize = pos;
        let decoded = decode_record(kind, data, &mut pos);
        if decoded.is_err() {
            pos = payload;
            skip_record(kind, data, &mut pos);
        } else {
            proof {
                lemma_extent_decoded(kind, data@, payload as int);
            }
        }
        let end: usize = pos;
        let stored: u32 = match read_checksum(data, &mut pos) {
            Ok(v) => v,
            Err(_) => {
                break;
            },
        };
        let computed: u32 = adler32(data, start, end);
        if computed != stored {
            out.warn(ReplayWarning::ChecksumMismatch { offset: start, stored, computed });
            continue;
        }
        match decoded {
            Ok(record) => {
                out.apply_or_buffer(record);
            },
            Err(error) => {
                out.warn(ReplayWarning::DecodeError { offset: start, error });
                break;
            },
        }
    }
    if out.txn.is_some() {
        out.warn(ReplayWarning::IncompleteTransaction);
    }
    Ok(out)
}

} // verus!
