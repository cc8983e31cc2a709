//! What is written to a binary log is what a replay reads from it.

use crate::adapters::storage::binary_codec::{
    checksum, encode_edge_payload, encode_entries, encode_node_payload, encode_properties,
    encode_text, encode_value, from_twos_complement, le_bytes, lemma_adler_bounds,
    lemma_le_bytes_len, lemma_le_round_trip, lemma_pow256_values, sealed, twos_complement,
    RecordView, RECORD_DELETE_NODE, RECORD_UPSERT_EDGE, RECORD_UPSERT_NODE,
};
use crate::adapters::storage::binary_decode::{
    decode_bytes, decode_edge_spec, decode_entries, decode_node_spec, decode_payload,
    decode_properties, decode_text, decode_u32, decode_u64, decode_value,
};
use crate::adapters::storage::record_extent::{
    lemma_extent_advances, lemma_extent_decoded, payload_extent,
};
use crate::adapters::storage::replay::{lemma_payload_advances, replay_from, WarningView};
use crate::collections::entries::{
    distinct_keys, entries_map, lemma_entries_count, lemma_entries_map_at,
};
use crate::float::Float64;
use crate::model::edge::EdgeView;
use crate::model::edge_id::EdgeId;
use crate::model::node::NodeView;
use crate::model::node_id::NodeId;
use crate::model::value::ValueView;
use crate::ports::storage::{
    insert_edges, insert_nodes, short_text, storable_edge, storable_node, storable_properties,
    StorageView,
};
use vstd::prelude::*;
use vstd::utf8::*;

verus! {

// ---------------------------------------------------------------- round trips

/// Whether `data` holds the bytes at `pos`.
pub open spec fn at(data: Seq<u8>, pos: int, bytes: Seq<u8>) -> bool {
    0 <= pos && pos + bytes.len() <= data.len() && data.subrange(pos, pos + bytes.len()) == bytes
}

pub proof fn lemma_at_split(data: Seq<u8>, pos: int, a: Seq<u8>, b: Seq<u8>)
    requires
        at(data, pos, a + b),
    ensures
        at(data, pos, a),
        at(data, pos + a.len(), b),
{
    let ab = data.subrange(pos, pos + (a + b).len());
    assert(data.subrange(pos, pos + a.len()) =~= ab.subrange(0, a.len() as int));
    assert(ab.subrange(0, a.len() as int) =~= a);
    assert(data.subrange(pos + a.len(), pos + a.len() + b.len()) =~= ab.subrange(
        a.len() as int,
        (a + b).len() as int,
    ));
    assert(ab.subrange(a.len() as int, (a + b).len() as int) =~= b);
}

pub proof fn lemma_byte_at(data: Seq<u8>, pos: int, b: u8)
    requires
        at(data, pos, seq![b]),
    ensures
        data[pos] == b,
        pos < data.len(),
{
    assert(data.subrange(pos, pos + 1)[0] == b);
}

pub proof fn lemma_u32_at(data: Seq<u8>, pos: int, n: nat)
    requires
        at(data, pos, le_bytes(n, 4)),
        n < 0x1_0000_0000,
    ensures
        decode_u32(data, pos).value == Ok::<u32, Seq<char>>(n as u32),
        decode_u32(data, pos).pos == pos + 4,
{
    lemma_le_bytes_len(n, 4);
    lemma_pow256_values();
    lemma_le_round_trip(n, 4);
}

pub proof fn lemma_u64_at(data: Seq<u8>, pos: int, n: nat)
    requires
        at(data, pos, le_bytes(n, 8)),
        n < 0x1_0000_0000_0000_0000,
    ensures
        decode_u64(data, pos).value == Ok::<u64, Seq<char>>(n as u64),
        decode_u64(data, pos).pos == pos + 8,
{
    lemma_le_bytes_len(n, 8);
    lemma_pow256_values();
    lemma_le_round_trip(n, 8);
}

proof fn lemma_text_at(data: Seq<u8>, pos: int, s: Seq<char>)
    requires
        at(data, pos, encode_text(s)),
        short_text(s),
    ensures
        decode_text(data, pos).value == Ok::<Seq<char>, Seq<char>>(s),
        decode_text(data, pos).pos == pos + encode_text(s).len(),
{
    let n = encode_utf8(s).len();
    lemma_at_split(data, pos, le_bytes(n, 4), encode_utf8(s));
    lemma_le_bytes_len(n, 4);
    lemma_u32_at(data, pos, n);
    encode_utf8_valid_utf8(s);
    encode_utf8_decode_utf8(s);
}

/// A text in a value is short.
pub open spec fn short_value(v: ValueView) -> bool {
    v matches ValueView::Text(s) ==> short_text(s)
}

/// A value that is written is read back.
pub proof fn lemma_value_at(data: Seq<u8>, pos: int, v: ValueView)
    requires
        at(data, pos, encode_value(v)),
        short_value(v),
    ensures
        decode_value(data, pos).value == Ok::<ValueView, Seq<char>>(v),
        decode_value(data, pos).pos == pos + encode_value(v).len(),
{
    match v {
        ValueView::Null => {
            lemma_byte_at(data, pos, 0u8);
        },
        ValueView::Boolean(b) => {
            let flag = if b {
                1u8
            } else {
                0u8
            };
            assert(encode_value(v) =~= seq![1u8] + seq![flag]);
            lemma_at_split(data, pos, seq![1u8], seq![flag]);
            lemma_byte_at(data, pos, 1u8);
            lemma_byte_at(data, pos + 1, flag);
        },
        ValueView::Integer(i) => {
            let n = twos_complement(i);
            lemma_at_split(data, pos, seq![2u8], le_bytes(n, 8));
            lemma_byte_at(data, pos, 2u8);
            lemma_le_bytes_len(n, 8);
            lemma_u64_at(data, pos + 1, n);
            assert(from_twos_complement(n) == i);
        },
        ValueView::Float(x) => {
            let n = x.spec_bits() as nat;
            lemma_at_split(data, pos, seq![3u8], le_bytes(n, 8));
            lemma_byte_at(data, pos, 3u8);
            lemma_le_bytes_len(n, 8);
            lemma_u64_at(data, pos + 1, n);
            Float64::lemma_of_bits(x.spec_bits());
            x.lemma_same_bits(Float64::of_bits(x.spec_bits()));
        },
        ValueView::Text(s) => {
            lemma_at_split(data, pos, seq![4u8], encode_text(s));
            lemma_byte_at(data, pos, 4u8);
            lemma_text_at(data, pos + 1, s);
        },
    }
}

/// Whether every key and value of entries is short.
pub open spec fn short_entries(s: Seq<(Seq<char>, ValueView)>) -> bool {
    forall|i: int| 0 <= i < s.len() ==> short_text((#[trigger] s[i]).0) && short_value(s[i].1)
}

/// Adds entries one after the other to a map.
pub open spec fn insert_entries(
    acc: Map<Seq<char>, ValueView>,
    s: Seq<(Seq<char>, ValueView)>,
) -> Map<Seq<char>, ValueView>
    decreases s.len(),
{
    if s.len() == 0 {
        acc
    } else {
        insert_entries(acc, s.drop_last()).insert(s.last().0, s.last().1)
    }
}

proof fn lemma_insert_entries_empty(s: Seq<(Seq<char>, ValueView)>)
    ensures
        insert_entries(Map::empty(), s) == entries_map(s),
    decreases s.len(),
{
    if s.len() > 0 {
        lemma_insert_entries_empty(s.drop_last());
    }
}

proof fn lemma_entries_at(
    data: Seq<u8>,
    pos: int,
    s: Seq<(Seq<char>, ValueView)>,
    more: nat,
    acc: Map<Seq<char>, ValueView>,
)
    requires
        at(data, pos, encode_entries(s)),
        short_entries(s),
    ensures
        decode_entries(data, pos, s.len() + more, acc) == decode_entries(
            data,
            pos + encode_entries(s).len(),
            more,
            insert_entries(acc, s),
        ),
    decreases s.len(),
{
    if s.len() > 0 {
        let t = s.drop_last();
        let (k, v) = s.last();
        let before = encode_entries(t);
        lemma_at_split(data, pos, before, encode_text(k) + encode_value(v));
        lemma_at_split(data, pos + before.len(), encode_text(k), encode_value(v));
        assert forall|i: int| 0 <= i < t.len() implies short_text((#[trigger] t[i]).0)
            && short_value(t[i].1) by {
            assert(s[i] == t[i]);
        }
        lemma_entries_at(data, pos, t, more + 1, acc);
        assert(t.len() + (more + 1) == s.len() + more);
        assert(short_text(s[s.len() - 1].0));
        lemma_text_at(data, pos + before.len(), k);
        lemma_value_at(data, pos + before.len() + encode_text(k).len(), v);
        assert((more + 1 - 1) as nat == more);
    }
}

#[verifier::rlimit(40)]
pub proof fn lemma_properties_at(data: Seq<u8>, pos: int, s: Seq<(Seq<char>, ValueView)>)
    requires
        at(data, pos, encode_properties(s)),
        short_entries(s),
        s.len() < 0x1_0000_0000,
    ensures
        decode_properties(data, pos).value == Ok::<Map<Seq<char>, ValueView>, Seq<char>>(
            entries_map(s),
        ),
        decode_properties(data, pos).pos == pos + encode_properties(s).len(),
{
    let n = s.len();
    lemma_at_split(data, pos, le_bytes(n, 4), encode_entries(s));
    lemma_le_bytes_len(n, 4);
    lemma_u32_at(data, pos, n);
    lemma_entries_at(data, pos + 4, s, 0, Map::empty());
    lemma_insert_entries_empty(s);
    assert(s.len() + 0 == n);
    assert(decode_entries(data, pos + 4, n, Map::empty()) == decode_entries(
        data,
        pos + 4 + encode_entries(s).len(),
        0,
        entries_map(s),
    ));
}

proof fn lemma_node_at(data: Seq<u8>, pos: int, n: NodeView, s: Seq<(Seq<char>, ValueView)>)
    requires
        at(data, pos, encode_node_payload(n, s)),
        short_text(n.label),
        short_entries(s),
        s.len() < 0x1_0000_0000,
        n.properties == entries_map(s),
    ensures
        decode_node_spec(data, pos).value == Ok::<NodeView, Seq<char>>(n),
        decode_node_spec(data, pos).pos == pos + encode_node_payload(n, s).len(),
{
    let id = n.id.0 as nat;
    lemma_le_bytes_len(id, 8);
    lemma_at_split(data, pos, le_bytes(id, 8), encode_text(n.label) + encode_properties(s));
    lemma_at_split(data, pos + 8, encode_text(n.label), encode_properties(s));
    lemma_u64_at(data, pos, id);
    lemma_text_at(data, pos + 8, n.label);
    lemma_properties_at(data, pos + 8 + encode_text(n.label).len(), s);
}

proof fn lemma_edge_at(data: Seq<u8>, pos: int, e: EdgeView, s: Seq<(Seq<char>, ValueView)>)
    requires
        at(data, pos, encode_edge_payload(e, s)),
        short_text(e.label),
        short_entries(s),
        s.len() < 0x1_0000_0000,
        e.properties == entries_map(s),
    ensures
        decode_edge_spec(data, pos).value == Ok::<EdgeView, Seq<char>>(e),
        decode_edge_spec(data, pos).pos == pos + encode_edge_payload(e, s).len(),
{
    let id = le_bytes(e.id.0 as nat, 8);
    let source = le_bytes(e.source.0 as nat, 8);
    let target = le_bytes(e.target.0 as nat, 8);
    let label = encode_text(e.label);
    let weight = le_bytes(e.weight.spec_bits() as nat, 8);
    let props = encode_properties(s);
    lemma_le_bytes_len(e.id.0 as nat, 8);
    lemma_le_bytes_len(e.source.0 as nat, 8);
    lemma_le_bytes_len(e.target.0 as nat, 8);
    lemma_le_bytes_len(e.weight.spec_bits() as nat, 8);
    lemma_at_split(data, pos, id, source + (target + (label + (weight + props))));
    lemma_at_split(data, pos + 8, source, target + (label + (weight + props)));
    lemma_at_split(data, pos + 16, target, label + (weight + props));
    lemma_at_split(data, pos + 24, label, weight + props);
    lemma_at_split(data, pos + 24 + label.len(), weight, props);
    lemma_u64_at(data, pos, e.id.0 as nat);
    lemma_u64_at(data, pos + 8, e.source.0 as nat);
    lemma_u64_at(data, pos + 16, e.target.0 as nat);
    lemma_text_at(data, pos + 24, e.label);
    lemma_u64_at(data, pos + 24 + label.len(), e.weight.spec_bits() as nat);
    lemma_properties_at(data, pos + 32 + label.len(), s);
    Float64::lemma_of_bits(e.weight.spec_bits());
    e.weight.lemma_same_bits(Float64::of_bits(e.weight.spec_bits()));
}

/// Whether the bytes are what is written for a node with its properties in the
/// given order.
pub open spec fn writes_node(
    payload: Seq<u8>,
    n: NodeView,
    s: Seq<(Seq<char>, ValueView)>,
) -> bool {
    &&& payload == encode_node_payload(n, s)
    &&& short_text(n.label)
    &&& short_entries(s)
    &&& s.len() < 0x1_0000_0000
    &&& n.properties == entries_map(s)
}

/// Whether the bytes are what is written for an edge with its properties in the
/// given order.
pub open spec fn writes_edge(
    payload: Seq<u8>,
    e: EdgeView,
    s: Seq<(Seq<char>, ValueView)>,
) -> bool {
    &&& payload == encode_edge_payload(e, s)
    &&& short_text(e.label)
    &&& short_entries(s)
    &&& s.len() < 0x1_0000_0000
    &&& e.properties == entries_map(s)
}

/// Whether the bytes are what is written for a record.
pub open spec fn writes(kind: u8, payload: Seq<u8>, r: RecordView) -> bool {
    match r {
        RecordView::UpsertNode(n) => kind == RECORD_UPSERT_NODE && exists|
            s: Seq<(Seq<char>, ValueView)>,
        | #[trigger]
            writes_node(payload, n, s),
        RecordView::UpsertEdge(e) => kind == RECORD_UPSERT_EDGE && exists|
            s: Seq<(Seq<char>, ValueView)>,
        | #[trigger]
            writes_edge(payload, e, s),
        RecordView::DeleteNode(id) => kind == RECORD_DELETE_NODE && payload == le_bytes(
            id.0 as nat,
            8,
        ),
        RecordView::DeleteEdge(id) => kind == 4u8 && payload == le_bytes(id.0 as nat, 8),
        RecordView::BeginTxn(t) => kind == 5u8 && payload == le_bytes(t as nat, 8),
        RecordView::CommitTxn(t) => kind == 6u8 && payload == le_bytes(t as nat, 8),
        RecordView::RollbackTxn(t) => kind == 7u8 && payload == le_bytes(t as nat, 8),
    }
}

/// What is encoded for a node is what is written for it.
pub proof fn lemma_writes_node(n: NodeView, s: Seq<(Seq<char>, ValueView)>)
    requires
        short_text(n.label),
        short_entries(s),
        s.len() < 0x1_0000_0000,
        n.properties == entries_map(s),
    ensures
        writes(RECORD_UPSERT_NODE, encode_node_payload(n, s), RecordView::UpsertNode(n)),
{
    let payload = encode_node_payload(n, s);
    let r = RecordView::UpsertNode(n);
    assert(writes_node(payload, r->UpsertNode_0, s));
    assert(exists|t: Seq<(Seq<char>, ValueView)>| #[trigger]
        writes_node(payload, r->UpsertNode_0, t));
}

/// What is encoded for an edge is what is written for it.
pub proof fn lemma_writes_edge(e: EdgeView, s: Seq<(Seq<char>, ValueView)>)
    requires
        short_text(e.label),
        short_entries(s),
        s.len() < 0x1_0000_0000,
        e.properties == entries_map(s),
    ensures
        writes(RECORD_UPSERT_EDGE, encode_edge_payload(e, s), RecordView::UpsertEdge(e)),
{
    let payload = encode_edge_payload(e, s);
    let r = RecordView::UpsertEdge(e);
    assert(writes_edge(payload, r->UpsertEdge_0, s));
    assert(exists|t: Seq<(Seq<char>, ValueView)>| #[trigger]
        writes_edge(payload, r->UpsertEdge_0, t));
}

/// A payload that is written is read back, wherever it stands.
pub proof fn lemma_payload_at(data: Seq<u8>, pos: int, kind: u8, payload: Seq<u8>, r: RecordView)
    requires
        at(data, pos, payload),
        writes(kind, payload, r),
    ensures
        decode_payload(kind, data, pos).value == Ok::<RecordView, Seq<char>>(r),
        decode_payload(kind, data, pos).pos == pos + payload.len(),
{
    reveal(decode_payload);
    match r {
        RecordView::UpsertNode(n) => {
            let s = choose|s: Seq<(Seq<char>, ValueView)>| #[trigger]
                writes_node(payload, n, s);
            lemma_node_at(data, pos, n, s);
        },
        RecordView::UpsertEdge(e) => {
            let s = choose|s: Seq<(Seq<char>, ValueView)>| #[trigger]
                writes_edge(payload, e, s);
            lemma_edge_at(data, pos, e, s);
        },
        RecordView::DeleteNode(id) => {
            lemma_le_bytes_len(id.0 as nat, 8);
            lemma_u64_at(data, pos, id.0 as nat);
        },
        RecordView::DeleteEdge(id) => {
            lemma_le_bytes_len(id.0 as nat, 8);
            lemma_u64_at(data, pos, id.0 as nat);
        },
        RecordView::BeginTxn(t) => {
            lemma_le_bytes_len(t as nat, 8);
            lemma_u64_at(data, pos, t as nat);
        },
        RecordView::CommitTxn(t) => {
            lemma_le_bytes_len(t as nat, 8);
            lemma_u64_at(data, pos, t as nat);
        },
        RecordView::RollbackTxn(t) => {
            lemma_le_bytes_len(t as nat, 8);
            lemma_u64_at(data, pos, t as nat);
        },
    }
}

/// The record that is written for a node that can be stored is read as that node,
/// and nothing but the checksum is left behind it.
pub proof fn law_node_reads_back(n: NodeView, s: Seq<(Seq<char>, ValueView)>)
    requires
        distinct_keys(s),
        n.properties == entries_map(s),
        storable_node(n),
    ensures
        ({
            let record = sealed(RECORD_UPSERT_NODE, encode_node_payload(n, s));
            let d = decode_node_spec(record, 1);
            &&& d.value == Ok::<NodeView, Seq<char>>(n)
            &&& d.pos == record.len() - 4
        }),
{
    let payload = encode_node_payload(n, s);
    let body = seq![RECORD_UPSERT_NODE] + payload;
    let record = sealed(RECORD_UPSERT_NODE, payload);
    lemma_adler_bounds(body);
    lemma_le_bytes_len(checksum(body), 4);
    lemma_storable_entries(s);
    assert(record.subrange(1, 1 + payload.len() as int) =~= payload);
    lemma_node_at(record, 1, n, s);
}

/// The record that is written for an edge that can be stored is read as that edge,
/// and nothing but the checksum is left behind it.
pub proof fn law_edge_reads_back(e: EdgeView, s: Seq<(Seq<char>, ValueView)>)
    requires
        distinct_keys(s),
        e.properties == entries_map(s),
        storable_edge(e),
    ensures
        ({
            let record = sealed(RECORD_UPSERT_EDGE, encode_edge_payload(e, s));
            let d = decode_edge_spec(record, 1);
            &&& d.value == Ok::<EdgeView, Seq<char>>(e)
            &&& d.pos == record.len() - 4
        }),
{
    let payload = encode_edge_payload(e, s);
    let body = seq![RECORD_UPSERT_EDGE] + payload;
    let record = sealed(RECORD_UPSERT_EDGE, payload);
    lemma_adler_bounds(body);
    lemma_le_bytes_len(checksum(body), 4);
    lemma_storable_entries(s);
    assert(record.subrange(1, 1 + payload.len() as int) =~= payload);
    lemma_edge_at(record, 1, e, s);
}

// ---------------------------------------------------------------- growing logs

proof fn lemma_text_stable(data: Seq<u8>, ext: Seq<u8>, pos: int)
    requires
        0 <= pos <= data.len(),
        decode_text(data, pos).value is Ok,
    ensures
        decode_text(data + ext, pos) == decode_text(data, pos),
{
    let n = decode_u32(data, pos);
    assert((data + ext).subrange(pos, pos + 4) =~= data.subrange(pos, pos + 4));
    let len = n.value->Ok_0 as int;
    assert((data + ext).subrange(n.pos, n.pos + len) =~= data.subrange(n.pos, n.pos + len));
}

proof fn lemma_u64_stable(data: Seq<u8>, ext: Seq<u8>, pos: int)
    requires
        0 <= pos <= data.len(),
        decode_u64(data, pos).value is Ok,
    ensures
        decode_u64(data + ext, pos) == decode_u64(data, pos),
{
    assert((data + ext).subrange(pos, pos + 8) =~= data.subrange(pos, pos + 8));
}

pub proof fn lemma_u32_stable(data: Seq<u8>, ext: Seq<u8>, pos: int)
    requires
        0 <= pos <= data.len(),
        decode_u32(data, pos).value is Ok,
    ensures
        decode_u32(data + ext, pos) == decode_u32(data, pos),
{
    assert((data + ext).subrange(pos, pos + 4) =~= data.subrange(pos, pos + 4));
}

proof fn lemma_value_stable(data: Seq<u8>, ext: Seq<u8>, pos: int)
    requires
        0 <= pos <= data.len(),
        decode_value(data, pos).value is Ok,
    ensures
        decode_value(data + ext, pos) == decode_value(data, pos),
{
    let tag = data[pos];
    assert((data + ext)[pos] == tag);
    if tag == 2 || tag == 3 {
        lemma_u64_stable(data, ext, pos + 1);
    } else if tag == 4 {
        lemma_text_stable(data, ext, pos + 1);
    }
}

proof fn lemma_entries_stable(
    data: Seq<u8>,
    ext: Seq<u8>,
    pos: int,
    n: nat,
    acc: Map<Seq<char>, ValueView>,
)
    requires
        0 <= pos <= data.len(),
        decode_entries(data, pos, n, acc).value is Ok,
    ensures
        decode_entries(data + ext, pos, n, acc) == decode_entries(data, pos, n, acc),
    decreases n,
{
    if n > 0 {
        lemma_text_stable(data, ext, pos);
        let k = decode_text(data, pos);
        lemma_value_stable(data, ext, k.pos);
        let v = decode_value(data, k.pos);
        lemma_entries_stable(
            data,
            ext,
            v.pos,
            (n - 1) as nat,
            acc.insert(k.value->Ok_0, v.value->Ok_0),
        );
    }
}

proof fn lemma_properties_stable(data: Seq<u8>, ext: Seq<u8>, pos: int)
    requires
        0 <= pos <= data.len(),
        decode_properties(data, pos).value is Ok,
    ensures
        decode_properties(data + ext, pos) == decode_properties(data, pos),
{
    lemma_u32_stable(data, ext, pos);
    let n = decode_u32(data, pos);
    lemma_entries_stable(data, ext, n.pos, n.value->Ok_0 as nat, Map::empty());
}

/// A record that can be read stays the same when the log grows.
pub proof fn lemma_payload_stable(kind: u8, data: Seq<u8>, ext: Seq<u8>, pos: int)
    requires
        0 <= pos <= data.len(),
        decode_payload(kind, data, pos).value is Ok,
    ensures
        decode_payload(kind, data + ext, pos) == decode_payload(kind, data, pos),
{
    reveal(decode_payload);
    if kind == RECORD_UPSERT_NODE {
        lemma_u64_stable(data, ext, pos);
        lemma_text_stable(data, ext, pos + 8);
        let l = decode_text(data, pos + 8);
        lemma_properties_stable(data, ext, l.pos);
    } else if kind == RECORD_UPSERT_EDGE {
        lemma_u64_stable(data, ext, pos);
        lemma_u64_stable(data, ext, pos + 8);
        lemma_u64_stable(data, ext, pos + 16);
        lemma_text_stable(data, ext, pos + 24);
        let l = decode_text(data, pos + 24);
        lemma_u64_stable(data, ext, l.pos);
        lemma_properties_stable(data, ext, l.pos + 8);
    } else {
        lemma_u64_stable(data, ext, pos);
    }
}

/// Whether every record from `pos` to the end is complete, readable and has the
/// right checksum.
pub open spec fn intact(data: Seq<u8>, pos: int) -> bool
    decreases data.len() - pos,
{
    if pos < 0 || pos >= data.len() {
        pos == data.len()
    } else {
        let d = decode_payload(data[pos], data, pos + 1);
        let c = decode_u32(data, d.pos);
        proof {
            lemma_payload_advances(data[pos], data, pos + 1);
        }
        d.value is Ok && c.value is Ok && c.value->Ok_0 == checksum(data.subrange(pos, d.pos))
            && intact(data, c.pos)
    }
}

/// A record written at the end of an intact log takes effect after all others.
pub proof fn lemma_append_record(
    data: Seq<u8>,
    pos: int,
    kind: u8,
    payload: Seq<u8>,
    r: RecordView,
    state: StorageView,
    warnings: Seq<WarningView>,
)
    requires
        intact(data, pos),
        0 <= pos,
        writes(kind, payload, r),
    ensures
        intact(data + sealed(kind, payload), pos),
        replay_from(data + sealed(kind, payload), pos, state, warnings).state == replay_from(
            data,
            pos,
            state,
            warnings,
        ).state.apply(r),
    decreases data.len() - pos,
{
    let ext = sealed(kind, payload);
    let all = data + ext;
    let body = seq![kind] + payload;
    lemma_adler_bounds(body);
    lemma_le_bytes_len(checksum(body), 4);
    if pos == data.len() {
        assert(all.subrange(pos, pos + ext.len()) =~= ext);
        lemma_at_split(all, pos, body, le_bytes(checksum(body), 4));
        lemma_at_split(all, pos, seq![kind], payload);
        lemma_byte_at(all, pos, kind);
        lemma_payload_at(all, pos + 1, kind, payload, r);
        let d = decode_payload(kind, all, pos + 1);
        lemma_extent_decoded(kind, all, pos + 1);
        assert(all.subrange(pos, d.pos) =~= body);
        lemma_u32_at(all, d.pos, checksum(body));
        let c = decode_u32(all, d.pos);
        assert(c.pos == all.len());
        assert(intact(all, c.pos));
        reveal_with_fuel(replay_from, 2);
    } else {
        let d = decode_payload(data[pos], data, pos + 1);
        let c = decode_u32(data, d.pos);
        lemma_payload_advances(data[pos], data, pos + 1);
        assert(all[pos] == data[pos]);
        lemma_payload_stable(data[pos], data, ext, pos + 1);
        lemma_extent_decoded(data[pos], data, pos + 1);
        lemma_extent_decoded(data[pos], all, pos + 1);
        lemma_u32_stable(data, ext, d.pos);
        assert(all.subrange(pos, d.pos) =~= data.subrange(pos, d.pos));
        lemma_append_record(
            data,
            c.pos,
            kind,
            payload,
            r,
            state.apply(d.value->Ok_0),
            warnings,
        );
    }
}

// ---------------------------------------------------------------- good states

/// Every node and edge of a storage, and of its open transaction, can be
/// written again.
pub open spec fn storable_state(s: StorageView) -> bool {
    &&& forall|id: NodeId| #[trigger] s.nodes.contains_key(id) ==> storable_node(s.nodes[id])
    &&& forall|id: EdgeId| #[trigger] s.edges.contains_key(id) ==> storable_edge(s.edges[id])
    &&& s.txn matches Some(t) ==> {
        &&& forall|i: int| 0 <= i < t.node_inserts.len() ==> storable_node(
            #[trigger] t.node_inserts[i],
        )
        &&& forall|i: int| 0 <= i < t.edge_inserts.len() ==> storable_edge(
            #[trigger] t.edge_inserts[i],
        )
    }
}

proof fn lemma_text_short(data: Seq<u8>, pos: int)
    requires
        0 <= pos <= data.len(),
    ensures
        decode_text(data, pos).value matches Ok(s) ==> short_text(s),
{
    if decode_text(data, pos).value is Ok {
        let n = decode_u32(data, pos);
        let b = decode_bytes(data, n.pos, n.value->Ok_0 as int).value->Ok_0;
        decode_utf8_encode_utf8(b);
    }
}

proof fn lemma_entries_short(
    data: Seq<u8>,
    pos: int,
    n: nat,
    acc: Map<Seq<char>, ValueView>,
    count: nat,
)
    requires
        0 <= pos <= data.len(),
        acc.dom().finite(),
        acc.len() <= count,
        forall|k: Seq<char>| #[trigger]
            acc.contains_key(k) ==> short_text(k) && short_value(acc[k]),
    ensures
        decode_entries(data, pos, n, acc).value matches Ok(m) ==> {
            &&& m.dom().finite()
            &&& m.len() <= count + n
            &&& forall|k: Seq<char>| #[trigger]
                m.contains_key(k) ==> short_text(k) && short_value(m[k])
        },
    decreases n,
{
    if n > 0 && decode_entries(data, pos, n, acc).value is Ok {
        let k = decode_text(data, pos);
        let v = decode_value(data, k.pos);
        lemma_text_short(data, pos);
        lemma_text_short(data, k.pos + 1);
        let next = acc.insert(k.value->Ok_0, v.value->Ok_0);
        assert(next.dom() =~= acc.dom().insert(k.value->Ok_0));
        lemma_entries_short(data, v.pos, (n - 1) as nat, next, count + 1);
    }
}

proof fn lemma_properties_short(data: Seq<u8>, pos: int)
    requires
        0 <= pos <= data.len(),
    ensures
        decode_properties(data, pos).value matches Ok(m) ==> storable_properties(m),
{
    let n = decode_u32(data, pos);
    if n.value is Ok {
        let count = n.value->Ok_0 as nat;
        assert(Map::<Seq<char>, ValueView>::empty().dom() =~= Set::empty());
        lemma_entries_short(data, n.pos, count, Map::empty(), 0);
    }
}

/// A record that was read can be written again.
proof fn lemma_record_storable(kind: u8, data: Seq<u8>, pos: int)
    requires
        0 <= pos <= data.len(),
    ensures
        decode_payload(kind, data, pos).value matches Ok(r) ==> {
            &&& r matches RecordView::UpsertNode(n) ==> storable_node(n)
            &&& r matches RecordView::UpsertEdge(e) ==> storable_edge(e)
        },
{
    reveal(decode_payload);
    if decode_payload(kind, data, pos).value is Ok {
        if kind == RECORD_UPSERT_NODE {
            lemma_text_short(data, pos + 8);
            let l = decode_text(data, pos + 8);
            lemma_properties_short(data, l.pos);
        } else if kind == RECORD_UPSERT_EDGE {
            lemma_text_short(data, pos + 24);
            let l = decode_text(data, pos + 24);
            lemma_properties_short(data, l.pos + 8);
        }
    }
}

proof fn lemma_insert_nodes(m: Map<NodeId, NodeView>, s: Seq<NodeView>)
    requires
        forall|i: int| 0 <= i < s.len() ==> storable_node(#[trigger] s[i]),
        forall|id: NodeId| #[trigger]
            m.contains_key(id) ==> storable_node(m[id]) && m[id].id == id,
        m.dom().finite(),
    ensures
        forall|id: NodeId| #[trigger]
            insert_nodes(m, s).contains_key(id) ==> storable_node(insert_nodes(m, s)[id])
                && insert_nodes(m, s)[id].id == id,
        insert_nodes(m, s).dom().finite(),
    decreases s.len(),
{
    if s.len() > 0 {
        let t = s.drop_last();
        assert forall|i: int| 0 <= i < t.len() implies storable_node(#[trigger] t[i]) by {
            assert(t[i] == s[i]);
        }
        lemma_insert_nodes(m, t);
        assert(storable_node(s[s.len() - 1]));
    }
}

proof fn lemma_insert_edges(m: Map<EdgeId, EdgeView>, s: Seq<EdgeView>)
    requires
        forall|i: int| 0 <= i < s.len() ==> storable_edge(#[trigger] s[i]),
        forall|id: EdgeId| #[trigger]
            m.contains_key(id) ==> storable_edge(m[id]) && m[id].id == id,
        m.dom().finite(),
    ensures
        forall|id: EdgeId| #[trigger]
            insert_edges(m, s).contains_key(id) ==> storable_edge(insert_edges(m, s)[id])
                && insert_edges(m, s)[id].id == id,
        insert_edges(m, s).dom().finite(),
    decreases s.len(),
{
    if s.len() > 0 {
        let t = s.drop_last();
        assert forall|i: int| 0 <= i < t.len() implies storable_edge(#[trigger] t[i]) by {
            assert(t[i] == s[i]);
        }
        lemma_insert_edges(m, t);
        assert(storable_edge(s[s.len() - 1]));
    }
}

/// A record that can be written keeps a storage writable and keyed.
pub proof fn lemma_apply_storable(s: StorageView, r: RecordView)
    requires
        storable_state(s),
        s.keyed(),
        r matches RecordView::UpsertNode(n) ==> storable_node(n),
        r matches RecordView::UpsertEdge(e) ==> storable_edge(e),
    ensures
        storable_state(s.apply(r)),
        s.apply(r).keyed(),
{
    match r {
        RecordView::CommitTxn(_) => {
            if let Some(t) = s.txn {
                lemma_insert_nodes(s.nodes, t.node_inserts);
                lemma_insert_edges(s.edges, t.edge_inserts);
                let n = insert_nodes(s.nodes, t.node_inserts);
                assert(n.remove_keys(t.node_deletes.to_set()).dom().subset_of(n.dom()));
                vstd::set_lib::lemma_len_subset(
                    n.remove_keys(t.node_deletes.to_set()).dom(),
                    n.dom(),
                );
                let e = insert_edges(s.edges, t.edge_inserts);
                assert(e.remove_keys(t.edge_deletes.to_set()).dom().subset_of(e.dom()));
                vstd::set_lib::lemma_len_subset(
                    e.remove_keys(t.edge_deletes.to_set()).dom(),
                    e.dom(),
                );
            }
        },
        _ => {},
    }
}

/// Whatever the bytes, a replay arrives at a storage that is keyed and can be
/// written again.
pub proof fn lemma_replay_storable(
    data: Seq<u8>,
    pos: int,
    state: StorageView,
    warnings: Seq<WarningView>,
)
    requires
        storable_state(state),
        state.keyed(),
    ensures
        storable_state(replay_from(data, pos, state, warnings).state),
        replay_from(data, pos, state, warnings).state.keyed(),
    decreases data.len() - pos,
{
    if 0 <= pos < data.len() {
        let d = decode_payload(data[pos], data, pos + 1);
        let end = payload_extent(data[pos], data, pos + 1).end;
        let c = decode_u32(data, end);
        lemma_extent_advances(data[pos], data, pos + 1);
        lemma_record_storable(data[pos], data, pos + 1);
        if c.value is Ok {
            let stored = c.value->Ok_0;
            let computed = checksum(data.subrange(pos, end));
            if computed != stored {
                lemma_replay_storable(
                    data,
                    c.pos,
                    state,
                    warnings.push(WarningView::ChecksumMismatch { offset: pos, stored, computed }),
                );
            } else if d.value is Ok {
                lemma_apply_storable(state, d.value->Ok_0);
                lemma_replay_storable(data, c.pos, state.apply(d.value->Ok_0), warnings);
            }
        }
    }
}

// --------------------------------------------------------------------- entries

/// Properties that can be stored have short entries.
pub proof fn lemma_storable_entries(s: Seq<(Seq<char>, ValueView)>)
    requires
        distinct_keys(s),
        storable_properties(entries_map(s)),
    ensures
        short_entries(s),
        s.len() < 0x1_0000_0000,
{
    lemma_entries_count(s);
    assert forall|i: int| 0 <= i < s.len() implies short_text((#[trigger] s[i]).0) && short_value(
        s[i].1,
    ) by {
        lemma_entries_map_at(s, i);
    }
}

} // verus!
