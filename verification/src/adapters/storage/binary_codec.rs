//! The byte format of the binary log.
//!
//! A log starts with a header of eight bytes: the magic `AGDB` and the version
//! as a 32-bit number. All numbers are little-endian. Records follow, each made
//! of a type byte, a payload and the Adler-32 checksum of both.
//!
//! | type | record      | payload                                            |
//! |------|-------------|----------------------------------------------------|
//! | 1    | upsert node | id, label, properties                              |
//! | 2    | upsert edge | id, source, target, label, weight, properties      |
//! | 3, 4 | delete      | id                                                 |
//! | 5-7  | begin, commit, roll back a transaction | transaction id          |
//!
//! A text is its byte length as 32 bits and its UTF-8 bytes. Properties are
//! their count as 32 bits, then key and value in turn. A value is a tag byte
//! and the value itself.

use crate::collections::string_map::StringMap;
use crate::float::Float64;
use crate::model::edge::{Edge, EdgeView};
use crate::model::edge_id::EdgeId;
use crate::model::node::{Node, NodeView};
use crate::model::node_id::NodeId;
use crate::model::value::{Value, ValueView};
use vstd::prelude::*;
use vstd::utf8::*;

verus! {

// ---------------------------------------------------------------- constants

/// The version of the format.
pub const VERSION: u32 = 2;

pub const RECORD_UPSERT_NODE: u8 = 1;

pub const RECORD_UPSERT_EDGE: u8 = 2;

pub const RECORD_DELETE_NODE: u8 = 3;

pub const RECORD_DELETE_EDGE: u8 = 4;

pub const RECORD_BEGIN_TXN: u8 = 5;

pub const RECORD_COMMIT_TXN: u8 = 6;

pub const RECORD_ROLLBACK_TXN: u8 = 7;

pub const VALUE_NULL: u8 = 0;

pub const VALUE_BOOLEAN: u8 = 1;

pub const VALUE_INTEGER: u8 = 2;

pub const VALUE_FLOAT: u8 = 3;

pub const VALUE_TEXT: u8 = 4;

// ------------------------------------------------------------------- records

/// One record of the log.
pub enum RecordData {
    UpsertNode(Node),
    UpsertEdge(Edge),
    DeleteNode(NodeId),
    DeleteEdge(EdgeId),
    BeginTxn(u64),
    CommitTxn(u64),
    RollbackTxn(u64),
}

/// What a record says.
pub enum RecordView {
    UpsertNode(NodeView),
    UpsertEdge(EdgeView),
    DeleteNode(NodeId),
    DeleteEdge(EdgeId),
    BeginTxn(u64),
    CommitTxn(u64),
    RollbackTxn(u64),
}

impl View for RecordData {
    type V = RecordView;

    open spec fn view(&self) -> RecordView {
        match *self {
            RecordData::UpsertNode(n) => RecordView::UpsertNode(n@),
            RecordData::UpsertEdge(e) => RecordView::UpsertEdge(e@),
            RecordData::DeleteNode(id) => RecordView::DeleteNode(id),
            RecordData::DeleteEdge(id) => RecordView::DeleteEdge(id),
            RecordData::BeginTxn(t) => RecordView::BeginTxn(t),
            RecordData::CommitTxn(t) => RecordView::CommitTxn(t),
            RecordData::RollbackTxn(t) => RecordView::RollbackTxn(t),
        }
    }
}

// ------------------------------------------------------------------- numbers

/// The lowest `k` bytes of a number, lowest first.
pub open spec fn le_bytes(n: nat, k: nat) -> Seq<u8>
    decreases k,
{
    if k == 0 {
        Seq::empty()
    } else {
        seq![(n % 256) as u8] + le_bytes(n / 256, (k - 1) as nat)
    }
}

/// The number that bytes denote, lowest first.
pub open spec fn le_value(s: Seq<u8>) -> nat
    decreases s.len(),
{
    if s.len() == 0 {
        0
    } else {
        s[0] as nat + 256 * le_value(s.drop_first())
    }
}

/// The 64 bits of a signed number in two's complement.
pub open spec fn twos_complement(i: i64) -> nat {
    if i < 0 {
        (i + 0x1_0000_0000_0000_0000) as nat
    } else {
        i as nat
    }
}

/// The signed number that 64 bits denote in two's complement.
pub open spec fn from_twos_complement(n: nat) -> i64 {
    if n < 0x8000_0000_0000_0000 {
        n as i64
    } else {
        (n - 0x1_0000_0000_0000_0000) as i64
    }
}

/// `256^k`.
pub open spec fn pow256(k: nat) -> nat
    decreases k,
{
    if k == 0 {
        1
    } else {
        256 * pow256((k - 1) as nat)
    }
}

pub proof fn lemma_pow256_values()
    ensures
        pow256(4) == 0x1_0000_0000,
        pow256(8) == 0x1_0000_0000_0000_0000,
{
    reveal_with_fuel(pow256, 9);
}

pub proof fn lemma_le_bytes_len(n: nat, k: nat)
    ensures
        le_bytes(n, k).len() == k,
    decreases k,
{
    if k > 0 {
        lemma_le_bytes_len(n / 256, (k - 1) as nat);
    }
}

pub proof fn lemma_le_value_bound(s: Seq<u8>)
    ensures
        le_value(s) < pow256(s.len()),
    decreases s.len(),
{
    if s.len() > 0 {
        lemma_le_value_bound(s.drop_first());
        assert(s.drop_first().len() == s.len() - 1);
    }
}

pub proof fn lemma_le_round_trip(n: nat, k: nat)
    requires
        n < pow256(k),
    ensures
        le_value(le_bytes(n, k)) == n,
    decreases k,
{
    if k > 0 {
        let rest = le_bytes(n / 256, (k - 1) as nat);
        lemma_le_round_trip(n / 256, (k - 1) as nat);
        assert(le_bytes(n, k).drop_first() =~= rest);
        assert(le_bytes(n, k)[0] == (n % 256) as u8);
    }
}

// ------------------------------------------------------------------ checksum

/// The first running sum of Adler-32.
pub open spec fn adler_low(s: Seq<u8>) -> nat
    decreases s.len(),
{
    if s.len() == 0 {
        1
    } else {
        (adler_low(s.drop_last()) + s.last() as nat) % 65521
    }
}

/// The second running sum of Adler-32.
pub open spec fn adler_high(s: Seq<u8>) -> nat
    decreases s.len(),
{
    if s.len() == 0 {
        0
    } else {
        (adler_high(s.drop_last()) + adler_low(s)) % 65521
    }
}

/// The Adler-32 checksum of some bytes.
pub open spec fn checksum(s: Seq<u8>) -> nat {
    adler_high(s) * 65536 + adler_low(s)
}

pub proof fn lemma_adler_bounds(s: Seq<u8>)
    ensures
        adler_low(s) < 65521,
        adler_high(s) < 65521,
{
}

/// The Adler-32 checksum of `data` from `start` to `end`.
pub fn adler32(data: &[u8], start: usize, end: usize) -> (r: u32)
    requires
        start <= end <= data.len(),
    ensures
        r == checksum(data@.subrange(start as int, end as int)),
{
    let mut a: u32 = 1;
    let mut b: u32 = 0;
    let mut i: usize = start;
    assert(data@.subrange(start as int, i as int) =~= Seq::empty());
    while i < end
        invariant
            start <= i <= end <= data.len(),
            a < 65521,
            b < 65521,
            a == adler_low(data@.subrange(start as int, i as int)),
            b == adler_high(data@.subrange(start as int, i as int)),
        decreases end - i,
    {
        proof {
            let grown = data@.subrange(start as int, i + 1);
            assert(grown.drop_last() =~= data@.subrange(start as int, i as int));
            assert(grown.last() == data@[i as int]);
        }
        a = (a + data[i] as u32) % 65521;
        b = (b + a) % 65521;
        i += 1;
    }
    b * 65536 + a
}

// ------------------------------------------------------------------ encoding

/// A text: its byte length and its UTF-8 bytes.
pub open spec fn encode_text(s: Seq<char>) -> Seq<u8> {
    le_bytes(encode_utf8(s).len() % 0x1_0000_0000, 4) + encode_utf8(s)
}

/// A value: its tag and its payload.
pub open spec fn encode_value(v: ValueView) -> Seq<u8> {
    match v {
        ValueView::Null => seq![VALUE_NULL],
        ValueView::Boolean(b) => seq![VALUE_BOOLEAN, if b { 1u8 } else { 0u8 }],
        ValueView::Integer(i) => seq![VALUE_INTEGER] + le_bytes(twos_complement(i), 8),
        ValueView::Float(x) => seq![VALUE_FLOAT] + le_bytes(x.spec_bits() as nat, 8),
        ValueView::Text(s) => seq![VALUE_TEXT] + encode_text(s),
    }
}

/// Properties without their count: key and value in turn.
pub open spec fn encode_entries(s: Seq<(Seq<char>, ValueView)>) -> Seq<u8>
    decreases s.len(),
{
    if s.len() == 0 {
        Seq::empty()
    } else {
        encode_entries(s.drop_last()) + (encode_text(s.last().0) + encode_value(s.last().1))
    }
}

/// Properties: their count, then key and value in turn.
pub open spec fn encode_properties(s: Seq<(Seq<char>, ValueView)>) -> Seq<u8> {
    le_bytes(s.len() % 0x1_0000_0000, 4) + encode_entries(s)
}

/// The payload of a node record, with its properties in the given order.
pub open spec fn encode_node_payload(
    n: NodeView,
    entries: Seq<(Seq<char>, ValueView)>,
) -> Seq<u8> {
    le_bytes(n.id.0 as nat, 8) + (encode_text(n.label) + encode_properties(entries))
}

/// The payload of an edge record, with its properties in the given order.
pub open spec fn encode_edge_payload(
    e: EdgeView,
    entries: Seq<(Seq<char>, ValueView)>,
) -> Seq<u8> {
    le_bytes(e.id.0 as nat, 8) + (le_bytes(e.source.0 as nat, 8) + (le_bytes(
        e.target.0 as nat,
        8,
    ) + (encode_text(e.label) + (le_bytes(e.weight.spec_bits() as nat, 8) + encode_properties(
        entries,
    )))))
}

/// A record: the type, the payload and the checksum of both.
pub open spec fn sealed(kind: u8, payload: Seq<u8>) -> Seq<u8> {
    let body = seq![kind] + payload;
    body + le_bytes(checksum(body), 4)
}

fn write_le(buf: &mut Vec<u8>, v: u64, k: usize)
    ensures
        final(buf)@ == old(buf)@ + le_bytes(v as nat, k as nat),
{
    let mut left: u64 = v;
    let mut i: usize = 0;
    proof {
        assert(old(buf)@ + le_bytes(v as nat, k as nat) =~= buf@ + le_bytes(left as nat, k as nat));
    }
    while i < k
        invariant
            i <= k,
            old(buf)@ + le_bytes(v as nat, k as nat) == buf@ + le_bytes(
                left as nat,
                (k - i) as nat,
            ),
        decreases k - i,
    {
        let ghost before = buf@;
        buf.push((left % 256) as u8);
        proof {
            let rest = le_bytes(left as nat / 256, (k - i - 1) as nat);
            assert(before + (seq![(left as nat % 256) as u8] + rest) =~= buf@ + rest);
        }
        left = left / 256;
        i += 1;
    }
    assert(buf@ + le_bytes(left as nat, 0) =~= buf@);
}

fn write_u32(buf: &mut Vec<u8>, v: u32)
    ensures
        final(buf)@ == old(buf)@ + le_bytes(v as nat, 4),
{
    write_le(buf, v as u64, 4);
}

fn write_u64(buf: &mut Vec<u8>, v: u64)
    ensures
        final(buf)@ == old(buf)@ + le_bytes(v as nat, 8),
{
    write_le(buf, v, 8);
}

fn write_i64(buf: &mut Vec<u8>, v: i64)
    ensures
        final(buf)@ == old(buf)@ + le_bytes(twos_complement(v), 8),
{
    if v < 0 {
        write_le(buf, (v as i128 + 0x1_0000_0000_0000_0000) as u64, 8);
    } else {
        write_le(buf, v as u64, 8);
    }
}

fn write_f64(buf: &mut Vec<u8>, v: Float64)
    ensures
        final(buf)@ == old(buf)@ + le_bytes(v.spec_bits() as nat, 8),
{
    write_le(buf, v.to_bits(), 8);
}

/// Writes a text as its byte length and its UTF-8 bytes.
fn write_str(buf: &mut Vec<u8>, s: &str)
    ensures
        final(buf)@ == old(buf)@ + encode_text(s@),
{
    let bytes = s.as_bytes();
    let n: usize = bytes.len();
    write_u32(buf, (n as u64 % 0x1_0000_0000) as u32);
    let ghost start = buf@;
    let mut i: usize = 0;
    assert(buf@ =~= start + bytes@.take(0));
    while i < n
        invariant
            i <= n,
            n == bytes.len(),
            buf@ == start + bytes@.take(i as int),
        decreases n - i,
    {
        buf.push(bytes[i]);
        assert(bytes@.take(i + 1) =~= bytes@.take(i as int).push(bytes@[i as int]));
        i += 1;
        assert(buf@ =~= start + bytes@.take(i as int));
    }
    proof {
        assert(bytes@.take(n as int) =~= bytes@);
        assert(buf@ =~= old(buf)@ + encode_text(s@));
    }
}

fn write_value(buf: &mut Vec<u8>, v: &Value)
    ensures
        final(buf)@ == old(buf)@ + encode_value(v@),
{
    match v {
        Value::Null => {
            buf.push(VALUE_NULL);
        },
        Value::Boolean(b) => {
            buf.push(VALUE_BOOLEAN);
            buf.push(
                if *b {
                    1
                } else {
                    0
                },
            );
        },
        Value::Integer(i) => {
            buf.push(VALUE_INTEGER);
            write_i64(buf, *i);
        },
        Value::Float(x) => {
            buf.push(VALUE_FLOAT);
            write_f64(buf, *x);
        },
        Value::Text(s) => {
            buf.push(VALUE_TEXT);
            write_str(buf, s.as_str());
        },
    }
    assert(buf@ =~= old(buf)@ + encode_value(v@));
}

fn write_properties(buf: &mut Vec<u8>, props: &StringMap<Value>)
    ensures
        final(buf)@ == old(buf)@ + encode_properties(props.entries()),
{
    let n: usize = props.len();
    write_u32(buf, (n as u64 % 0x1_0000_0000) as u32);
    let ghost start = buf@;
    let mut i: usize = 0;
    assert(buf@ =~= start + encode_entries(props.entries().take(0)));
    while i < n
        invariant
            i <= n,
            n == props.entries().len(),
            buf@ == start + encode_entries(props.entries().take(i as int)),
        decreases n - i,
    {
        let ghost before = buf@;
        write_str(buf, props.key_at(i).as_str());
        write_value(buf, props.value_at(i));
        proof {
            let grown = props.entries().take(i + 1);
            assert(grown.drop_last() =~= props.entries().take(i as int));
            assert(grown.last() == props.entries()[i as int]);
            assert(buf@ =~= start + encode_entries(grown));
        }
        i += 1;
    }
    proof {
        assert(props.entries().take(n as int) =~= props.entries());
        assert(buf@ =~= old(buf)@ + encode_properties(props.entries()));
    }
}

/// Appends the checksum to a record's type and payload.
fn with_checksum(body: Vec<u8>) -> (r: Vec<u8>)
    ensures
        r@ == body@ + le_bytes(checksum(body@), 4),
{
    let mut buf = body;
    let n: usize = buf.len();
    let sum: u32 = adler32(buf.as_slice(), 0, n);
    assert(buf@.subrange(0, n as int) =~= buf@);
    write_u32(&mut buf, sum);
    buf
}

/// The record that stores a node.
pub fn encode_node(node: &Node) -> (r: Vec<u8>)
    ensures
        r@ == sealed(RECORD_UPSERT_NODE, encode_node_payload(node@, node.properties.entries())),
{
    let mut buf: Vec<u8> = Vec::new();
    buf.push(RECORD_UPSERT_NODE);
    write_u64(&mut buf, node.id.0);
    write_str(&mut buf, node.label.as_str());
    write_properties(&mut buf, &node.properties);
    assert(buf@ =~= seq![RECORD_UPSERT_NODE] + encode_node_payload(
        node@,
        node.properties.entries(),
    ));
    with_checksum(buf)
}

/// The record that stores an edge.
pub fn encode_edge(edge: &Edge) -> (r: Vec<u8>)
    ensures
        r@ == sealed(RECORD_UPSERT_EDGE, encode_edge_payload(edge@, edge.properties.entries())),
{
    let mut buf: Vec<u8> = Vec::new();
    buf.push(RECORD_UPSERT_EDGE);
    write_u64(&mut buf, edge.id.0);
    write_u64(&mut buf, edge.source.0);
    write_u64(&mut buf, edge.target.0);
    write_str(&mut buf, edge.label.as_str());
    write_f64(&mut buf, edge.weight);
    write_properties(&mut buf, &edge.properties);
    assert(buf@ =~= seq![RECORD_UPSERT_EDGE] + encode_edge_payload(
        edge@,
        edge.properties.entries(),
    ));
    with_checksum(buf)
}

fn encode_number(kind: u8, n: u64) -> (r: Vec<u8>)
    ensures
        r@ == sealed(kind, le_bytes(n as nat, 8)),
{
    let mut buf: Vec<u8> = Vec::new();
    buf.push(kind);
    write_u64(&mut buf, n);
    assert(buf@ =~= seq![kind] + le_bytes(n as nat, 8));
    with_checksum(buf)
}

/// The record that deletes a node.
pub fn encode_delete_node(id: NodeId) -> (r: Vec<u8>)
    ensures
        r@ == sealed(RECORD_DELETE_NODE, le_bytes(id.0 as nat, 8)),
{
    encode_number(RECORD_DELETE_NODE, id.0)
}

/// The record that deletes an edge.
pub fn encode_delete_edge(id: EdgeId) -> (r: Vec<u8>)
    ensures
        r@ == sealed(RECORD_DELETE_EDGE, le_bytes(id.0 as nat, 8)),
{
    encode_number(RECORD_DELETE_EDGE, id.0)
}

/// A record that begins, commits or rolls back a transaction.
pub fn encode_txn_marker(kind: u8, txn_id: u64) -> (r: Vec<u8>)
    ensures
        r@ == sealed(kind, le_bytes(txn_id as nat, 8)),
{
    encode_number(kind, txn_id)
}

} // verus!
