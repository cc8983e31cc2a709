//! Reading records of the binary log.
//!
//! A reader starts at a position and leaves the position behind what it took,
//! also where it fails: a failed read of a fixed number of bytes takes none of
//! them, and what had been taken before stays taken.

use crate::adapters::storage::binary_codec::{
    from_twos_complement, le_value, lemma_le_value_bound, lemma_pow256_values, RecordData,
    RecordView, RECORD_BEGIN_TXN, RECORD_COMMIT_TXN, RECORD_DELETE_EDGE, RECORD_DELETE_NODE,
    RECORD_ROLLBACK_TXN, RECORD_UPSERT_EDGE, RECORD_UPSERT_NODE, VALUE_BOOLEAN, VALUE_FLOAT,
    VALUE_INTEGER, VALUE_NULL, VALUE_TEXT,
};
use crate::collections::string_map::StringMap;
use crate::float::Float64;
use crate::model::edge::{Edge, EdgeView};
use crate::model::edge_id::EdgeId;
use crate::model::error::{GraphError, GraphErrorView};
use crate::model::node::{Node, NodeView};
use crate::model::node_id::NodeId;
use crate::model::value::{Value, ValueView};
use crate::text::{decimal, hex_byte, hex_byte_text, u64_to_text};
use vstd::prelude::*;
use vstd::string::StringExecFns;
use vstd::utf8::*;

verus! {

/// The outcome of a read: a value or a message, and the position after it.
pub struct Decoded<T> {
    pub value: Result<T, Seq<char>>,
    pub pos: int,
}

/// Whether a reader's result is the given outcome.
pub open spec fn outcome<T: View>(r: Result<T, GraphError>, pos: usize, d: Decoded<T::V>) -> bool {
    &&& pos == d.pos
    &&& match (r, d.value) {
        (Ok(v), Ok(w)) => v@ == w,
        (Err(e), Err(m)) => e@ == GraphErrorView::DeserializationError(m),
        _ => false,
    }
}

/// The message of a read beyond the end.
pub open spec fn eof_message(what: Seq<char>) -> Seq<char> {
    "unexpected end of file reading "@ + what
}

/// What the error for bytes that are not UTF-8 says.
pub uninterp spec fn utf8_error_text(bytes: Seq<u8>) -> Seq<char>;

pub open spec fn decode_u8(data: Seq<u8>, pos: int) -> Decoded<u8> {
    if pos >= data.len() {
        Decoded { value: Err(eof_message("u8"@)), pos }
    } else {
        Decoded { value: Ok(data[pos]), pos: pos + 1 }
    }
}

pub open spec fn decode_bytes(data: Seq<u8>, pos: int, n: int) -> Decoded<Seq<u8>> {
    if pos + n > data.len() {
        Decoded { value: Err(eof_message(decimal(n as nat) + " bytes"@)), pos }
    } else {
        Decoded { value: Ok(data.subrange(pos, pos + n)), pos: pos + n }
    }
}

pub open spec fn decode_u32(data: Seq<u8>, pos: int) -> Decoded<u32> {
    let d = decode_bytes(data, pos, 4);
    match d.value {
        Ok(b) => Decoded { value: Ok(le_value(b) as u32), pos: d.pos },
        Err(m) => Decoded { value: Err(m), pos: d.pos },
    }
}

pub open spec fn decode_u64(data: Seq<u8>, pos: int) -> Decoded<u64> {
    let d = decode_bytes(data, pos, 8);
    match d.value {
        Ok(b) => Decoded { value: Ok(le_value(b) as u64), pos: d.pos },
        Err(m) => Decoded { value: Err(m), pos: d.pos },
    }
}

pub open spec fn decode_text(data: Seq<u8>, pos: int) -> Decoded<Seq<char>> {
    let n = decode_u32(data, pos);
    match n.value {
        Err(m) => Decoded { value: Err(m), pos: n.pos },
        Ok(len) => {
            let d = decode_bytes(data, n.pos, len as int);
            match d.value {
                Err(m) => Decoded { value: Err(m), pos: d.pos },
                Ok(b) => if valid_utf8(b) {
                    Decoded { value: Ok(decode_utf8(b)), pos: d.pos }
                } else {
                    Decoded { value: Err("invalid UTF-8: "@ + utf8_error_text(b)), pos: d.pos }
                },
            }
        },
    }
}

pub open spec fn decode_value(data: Seq<u8>, pos: int) -> Decoded<ValueView> {
    let t = decode_u8(data, pos);
    match t.value {
        Err(m) => Decoded { value: Err(m), pos: t.pos },
        Ok(tag) => if tag == VALUE_NULL {
            Decoded { value: Ok(ValueView::Null), pos: t.pos }
        } else if tag == VALUE_BOOLEAN {
            let d = decode_u8(data, t.pos);
            match d.value {
                Err(m) => Decoded { value: Err(m), pos: d.pos },
                Ok(b) => Decoded { value: Ok(ValueView::Boolean(b != 0)), pos: d.pos },
            }
        } else if tag == VALUE_INTEGER {
            let d = decode_u64(data, t.pos);
            match d.value {
                Err(m) => Decoded { value: Err(m), pos: d.pos },
                Ok(n) => Decoded {
                    value: Ok(ValueView::Integer(from_twos_complement(n as nat))),
                    pos: d.pos,
                },
            }
        } else if tag == VALUE_FLOAT {
            let d = decode_u64(data, t.pos);
            match d.value {
                Err(m) => Decoded { value: Err(m), pos: d.pos },
                Ok(n) => Decoded { value: Ok(ValueView::Float(Float64::of_bits(n))), pos: d.pos },
            }
        } else if tag == VALUE_TEXT {
            let d = decode_text(data, t.pos);
            match d.value {
                Err(m) => Decoded { value: Err(m), pos: d.pos },
                Ok(s) => Decoded { value: Ok(ValueView::Text(s)), pos: d.pos },
            }
        } else {
            Decoded { value: Err("unknown value tag: 0x"@ + hex_byte(tag)), pos: t.pos }
        },
    }
}

/// `n` further entries, on top of those in `acc`.
pub open spec fn decode_entries(
    data: Seq<u8>,
    pos: int,
    n: nat,
    acc: Map<Seq<char>, ValueView>,
) -> Decoded<Map<Seq<char>, ValueView>>
    decreases n,
{
    if n == 0 {
        Decoded { value: Ok(acc), pos }
    } else {
        let k = decode_text(data, pos);
        match k.value {
            Err(m) => Decoded { value: Err(m), pos: k.pos },
            Ok(key) => {
                let v = decode_value(data, k.pos);
                match v.value {
                    Err(m) => Decoded { value: Err(m), pos: v.pos },
                    Ok(value) => decode_entries(
                        data,
                        v.pos,
                        (n - 1) as nat,
                        acc.insert(key, value),
                    ),
                }
            },
        }
    }
}

pub open spec fn decode_properties(data: Seq<u8>, pos: int) -> Decoded<
    Map<Seq<char>, ValueView>,
> {
    let n = decode_u32(data, pos);
    match n.value {
        Err(m) => Decoded { value: Err(m), pos: n.pos },
        Ok(count) => decode_entries(data, n.pos, count as nat, Map::empty()),
    }
}

pub open spec fn decode_node_spec(data: Seq<u8>, pos: int) -> Decoded<NodeView> {
    let i = decode_u64(data, pos);
    match i.value {
        Err(m) => Decoded { value: Err(m), pos: i.pos },
        Ok(id) => {
            let l = decode_text(data, i.pos);
            match l.value {
                Err(m) => Decoded { value: Err(m), pos: l.pos },
                Ok(label) => {
                    let p = decode_properties(data, l.pos);
                    match p.value {
                        Err(m) => Decoded { value: Err(m), pos: p.pos },
                        Ok(properties) => Decoded {
                            value: Ok(NodeView { id: NodeId(id), label, properties }),
                            pos: p.pos,
                        },
                    }
                },
            }
        },
    }
}

/// The label, weight and properties of an edge whose ends are known.
pub open spec fn decode_edge_rest(
    data: Seq<u8>,
    pos: int,
    id: u64,
    source: u64,
    target: u64,
) -> Decoded<EdgeView> {
    let l = decode_text(data, pos);
    match l.value {
        Err(m) => Decoded { value: Err(m), pos: l.pos },
        Ok(label) => {
            let w = decode_u64(data, l.pos);
            match w.value {
                Err(m) => Decoded { value: Err(m), pos: w.pos },
                Ok(bits) => {
                    let p = decode_properties(data, w.pos);
                    match p.value {
                        Err(m) => Decoded { value: Err(m), pos: p.pos },
                        Ok(properties) => Decoded {
                            value: Ok(
                                EdgeView {
                                    id: EdgeId(id),
                                    source: NodeId(source),
                                    target: NodeId(target),
                                    label,
                                    weight: Float64::of_bits(bits),
                                    properties,
                                },
                            ),
                            pos: p.pos,
                        },
                    }
                },
            }
        },
    }
}

pub open spec fn decode_edge_spec(data: Seq<u8>, pos: int) -> Decoded<EdgeView> {
    let i = decode_u64(data, pos);
    match i.value {
        Err(m) => Decoded { value: Err(m), pos: i.pos },
        Ok(id) => {
            let s = decode_u64(data, i.pos);
            match s.value {
                Err(m) => Decoded { value: Err(m), pos: s.pos },
                Ok(source) => {
                    let t = decode_u64(data, s.pos);
                    match t.value {
                        Err(m) => Decoded { value: Err(m), pos: t.pos },
                        Ok(target) => decode_edge_rest(data, t.pos, id, source, target),
                    }
                },
            }
        },
    }
}

/// The record that a type byte of fixed payload makes of its number.
pub open spec fn number_record(kind: u8, n: u64) -> RecordView {
    if kind == RECORD_DELETE_NODE {
        RecordView::DeleteNode(NodeId(n))
    } else if kind == RECORD_DELETE_EDGE {
        RecordView::DeleteEdge(EdgeId(n))
    } else if kind == RECORD_BEGIN_TXN {
        RecordView::BeginTxn(n)
    } else if kind == RECORD_COMMIT_TXN {
        RecordView::CommitTxn(n)
    } else {
        RecordView::RollbackTxn(n)
    }
}

/// The payload of a record of the given type.
#[verifier::opaque]
pub open spec fn decode_payload(kind: u8, data: Seq<u8>, pos: int) -> Decoded<RecordView> {
    if kind == RECORD_UPSERT_NODE {
        let d = decode_node_spec(data, pos);
        match d.value {
            Err(m) => Decoded { value: Err(m), pos: d.pos },
            Ok(n) => Decoded { value: Ok(RecordView::UpsertNode(n)), pos: d.pos },
        }
    } else if kind == RECORD_UPSERT_EDGE {
        let d = decode_edge_spec(data, pos);
        match d.value {
            Err(m) => Decoded { value: Err(m), pos: d.pos },
            Ok(e) => Decoded { value: Ok(RecordView::UpsertEdge(e)), pos: d.pos },
        }
    } else if RECORD_DELETE_NODE <= kind <= RECORD_ROLLBACK_TXN {
        let d = decode_u64(data, pos);
        match d.value {
            Err(m) => Decoded { value: Err(m), pos: d.pos },
            Ok(n) => Decoded { value: Ok(number_record(kind, n)), pos: d.pos },
        }
    } else {
        Decoded { value: Err("unknown record type 0x"@ + hex_byte(kind)), pos }
    }
}

/// The error for a read beyond the end.
fn eof(what: &str) -> (r: GraphError)
    ensures
        r@ == GraphErrorView::DeserializationError(eof_message(what@)),
{
    let mut s = String::from_str("unexpected end of file reading ");
    s.append(what);
    GraphError::DeserializationError(s)
}

/// Takes one byte.
pub fn read_u8(data: &[u8], pos: &mut usize) -> (r: Result<u8, GraphError>)
    ensures
        outcome(r, *final(pos), decode_u8(data@, *old(pos) as int)),
        *old(pos) <= data.len() ==> *final(pos) <= data.len(),
{
    if *pos >= data.len() {
        return Err(eof("u8"));
    }
    let v: u8 = data[*pos];
    *pos = *pos + 1;
    Ok(v)
}

/// Takes `n` bytes, and gives the position where they start.
pub fn read_bytes(data: &[u8], pos: &mut usize, n: usize) -> (r: Result<usize, GraphError>)
    ensures
        *final(pos) == decode_bytes(data@, *old(pos) as int, n as int).pos,
        match (r, decode_bytes(data@, *old(pos) as int, n as int).value) {
            (Ok(start), Ok(b)) => start == *old(pos) && b == data@.subrange(
                start as int,
                start + n,
            ),
            (Err(e), Err(m)) => e@ == GraphErrorView::DeserializationError(m),
            _ => false,
        },
        *old(pos) <= data.len() ==> *final(pos) <= data.len(),
{
    let start: usize = *pos;
    if start > data.len() || n > data.len() - start {
        let mut what = u64_to_text(n as u64);
        what.append(" bytes");
        return Err(eof(what.as_str()));
    }
    *pos = start + n;
    Ok(start)
}

fn le_number(data: &[u8], start: usize, k: usize) -> (r: u64)
    requires
        start + k <= data.len(),
        k <= 8,
    ensures
        r == le_value(data@.subrange(start as int, start + k)),
    decreases k,
{
    if k == 0 {
        0
    } else {
        let rest: u64 = le_number(data, start + 1, k - 1);
        proof {
            let s = data@.subrange(start as int, start + k);
            assert(s.drop_first() =~= data@.subrange(start + 1, start + k));
            lemma_le_value_bound(s);
            lemma_pow256_values();
            lemma_pow256_up(k as nat, 8);
        }
        data[start] as u64 + 256 * rest
    }
}

proof fn lemma_pow256_up(a: nat, b: nat)
    requires
        a <= b,
    ensures
        crate::adapters::storage::binary_codec::pow256(a)
            <= crate::adapters::storage::binary_codec::pow256(b),
    decreases b,
{
    if a < b {
        lemma_pow256_up(a, (b - 1) as nat);
    }
}

/// Takes a number of four bytes.
pub fn read_u32(data: &[u8], pos: &mut usize) -> (r: Result<u32, GraphError>)
    ensures
        outcome(r, *final(pos), decode_u32(data@, *old(pos) as int)),
        *old(pos) <= data.len() ==> *final(pos) <= data.len(),
{
    match read_bytes(data, pos, 4) {
        Ok(start) => {
            let n: u64 = le_number(data, start, 4);
            proof {
                lemma_le_value_bound(data@.subrange(start as int, start + 4));
                lemma_pow256_values();
            }
            Ok(n as u32)
        },
        Err(e) => Err(e),
    }
}

/// Takes a number of eight bytes.
pub fn read_u64(data: &[u8], pos: &mut usize) -> (r: Result<u64, GraphError>)
    ensures
        outcome(r, *final(pos), decode_u64(data@, *old(pos) as int)),
        *old(pos) <= data.len() ==> *final(pos) <= data.len(),
{
    match read_bytes(data, pos, 8) {
        Ok(start) => Ok(le_number(data, start, 8)),
        Err(e) => Err(e),
    }
}

/// `String::from_utf8` gives the text that valid UTF-8 encodes, and an error
/// that says what is wrong with other bytes. The error's text depends on the
/// bytes alone.
#[verifier::external_body]
fn text_from_utf8(bytes: Vec<u8>) -> (r: Result<String, String>)
    ensures
        match r {
            Ok(s) => valid_utf8(bytes@) && s@ == decode_utf8(bytes@),
            Err(m) => !valid_utf8(bytes@) && m@ == utf8_error_text(bytes@),
        },
{
    String::from_utf8(bytes).map_err(|e| e.to_string())
}

fn read_str(data: &[u8], pos: &mut usize) -> (r: Result<String, GraphError>)
    ensures
        outcome(r, *final(pos), decode_text(data@, *old(pos) as int)),
        *old(pos) <= data.len() ==> *final(pos) <= data.len(),
{
    let len: u32 = match read_u32(data, pos) {
        Ok(n) => n,
        Err(e) => {
            return Err(e);
        },
    };
    let start: usize = match read_bytes(data, pos, len as usize) {
        Ok(s) => s,
        Err(e) => {
            return Err(e);
        },
    };
    let end: usize = start + len as usize;
    let mut bytes: Vec<u8> = Vec::new();
    let mut i: usize = start;
    while i < end
        invariant
            start <= i <= end <= data.len(),
            bytes@ =~= data@.subrange(start as int, i as int),
        decreases end - i,
    {
        bytes.push(data[i]);
        i += 1;
    }
    match text_from_utf8(bytes) {
        Ok(s) => Ok(s),
        Err(m) => {
            let mut message = String::from_str("invalid UTF-8: ");
            message.append(m.as_str());
            Err(GraphError::DeserializationError(message))
        },
    }
}

fn read_value(data: &[u8], pos: &mut usize) -> (r: Result<Value, GraphError>)
    ensures
        outcome(r, *final(pos), decode_value(data@, *old(pos) as int)),
        *old(pos) <= data.len() ==> *final(pos) <= data.len(),
{
    let tag: u8 = match read_u8(data, pos) {
        Ok(t) => t,
        Err(e) => {
            return Err(e);
        },
    };
    if tag == VALUE_NULL {
        Ok(Value::Null)
    } else if tag == VALUE_BOOLEAN {
        match read_u8(data, pos) {
            Ok(b) => Ok(Value::Boolean(b != 0)),
            Err(e) => Err(e),
        }
    } else if tag == VALUE_INTEGER {
        match read_u64(data, pos) {
            Ok(n) => {
                let i: i64 = if n < 0x8000_0000_0000_0000 {
                    n as i64
                } else {
                    (n as i128 - 0x1_0000_0000_0000_0000) as i64
                };
                Ok(Value::Integer(i))
            },
            Err(e) => Err(e),
        }
    } else if tag == VALUE_FLOAT {
        match read_u64(data, pos) {
            Ok(n) => Ok(Value::Float(Float64::from_bits(n))),
            Err(e) => Err(e),
        }
    } else if tag == VALUE_TEXT {
        match read_str(data, pos) {
            Ok(s) => Ok(Value::Text(s)),
            Err(e) => Err(e),
        }
    } else {
        let mut message = String::from_str("unknown value tag: 0x");
        message.append(hex_byte_text(tag).as_str());
        Err(GraphError::DeserializationError(message))
    }
}

fn read_properties(data: &[u8], pos: &mut usize) -> (r: Result<StringMap<Value>, GraphError>)
    ensures
        outcome(r, *final(pos), decode_properties(data@, *old(pos) as int)),
        *old(pos) <= data.len() ==> *final(pos) <= data.len(),
{
    let ghost all = decode_properties(data@, *pos as int);
    let count: u32 = match read_u32(data, pos) {
        Ok(n) => n,
        Err(e) => {
            return Err(e);
        },
    };
    let mut map: StringMap<Value> = StringMap::new();
    let mut i: u32 = 0;
    while i < count
        invariant
            i <= count,
            *old(pos) <= data.len() ==> *pos <= data.len(),
            all == decode_properties(data@, *old(pos) as int),
            all == decode_entries(data@, *pos as int, (count - i) as nat, map@),
        decreases count - i,
    {
        let key = match read_str(data, pos) {
            Ok(k) => k,
            Err(e) => {
                return Err(e);
            },
        };
        let value = match read_value(data, pos) {
            Ok(v) => v,
            Err(e) => {
                return Err(e);
            },
        };
        map.insert(key, value);
        i += 1;
    }
    Ok(map)
}

/// Reads a node.
pub fn decode_node(data: &[u8], pos: &mut usize) -> (r: Result<Node, GraphError>)
    ensures
        outcome(r, *final(pos), decode_node_spec(data@, *old(pos) as int)),
        *old(pos) <= data.len() ==> *final(pos) <= data.len(),
{
    let id: u64 = match read_u64(data, pos) {
        Ok(n) => n,
        Err(e) => {
            return Err(e);
        },
    };
    let label = match read_str(data, pos) {
        Ok(s) => s,
        Err(e) => {
            return Err(e);
        },
    };
    match read_properties(data, pos) {
        Ok(properties) => Ok(Node { id: NodeId(id), label, properties }),
        Err(e) => Err(e),
    }
}

/// Reads an edge.
pub fn decode_edge(data: &[u8], pos: &mut usize) -> (r: Result<Edge, GraphError>)
    ensures
        outcome(r, *final(pos), decode_edge_spec(data@, *old(pos) as int)),
        *old(pos) <= data.len() ==> *final(pos) <= data.len(),
{
    let id: u64 = match read_u64(data, pos) {
        Ok(n) => n,
        Err(e) => {
            return Err(e);
        },
    };
    let source: u64 = match read_u64(data, pos) {
        Ok(n) => n,
        Err(e) => {
            return Err(e);
        },
    };
    let target: u64 = match read_u64(data, pos) {
        Ok(n) => n,
        Err(e) => {
            return Err(e);
        },
    };
    let label = match read_str(data, pos) {
        Ok(s) => s,
        Err(e) => {
            return Err(e);
        },
    };
    let bits: u64 = match read_u64(data, pos) {
        Ok(n) => n,
        Err(e) => {
            return Err(e);
        },
    };
    match read_properties(data, pos) {
        Ok(properties) => Ok(
            Edge {
                id: EdgeId(id),
                source: NodeId(source),
                target: NodeId(target),
                label,
                weight: Float64::from_bits(bits),
                properties,
            },
        ),
        Err(e) => Err(e),
    }
}

/// Reads the payload of a record of the given type.
pub fn decode_record(kind: u8, data: &[u8], pos: &mut usize) -> (r: Result<RecordData, GraphError>)
    ensures
        outcome(r, *final(pos), decode_payload(kind, data@, *old(pos) as int)),
        *old(pos) <= data.len() ==> *final(pos) <= data.len(),
{
    proof {
        reveal(decode_payload);
    }
    if kind == RECORD_UPSERT_NODE {
        match decode_node(data, pos) {
            Ok(n) => Ok(RecordData::UpsertNode(n)),
            Err(e) => Err(e),
        }
    } else if kind == RECORD_UPSERT_EDGE {
        match decode_edge(data, pos) {
            Ok(e) => Ok(RecordData::UpsertEdge(e)),
            Err(e) => Err(e),
        }
    } else if RECORD_DELETE_NODE <= kind && kind <= RECORD_ROLLBACK_TXN {
        match read_u64(data, pos) {
            Ok(n) => if kind == RECORD_DELETE_NODE {
                Ok(RecordData::DeleteNode(NodeId(n)))
            } else if kind == RECORD_DELETE_EDGE {
                Ok(RecordData::DeleteEdge(EdgeId(n)))
            } else if kind == RECORD_BEGIN_TXN {
                Ok(RecordData::BeginTxn(n))
            } else if kind == RECORD_COMMIT_TXN {
                Ok(RecordData::CommitTxn(n))
            } else {
                Ok(RecordData::RollbackTxn(n))
            },
            Err(e) => Err(e),
        }
    } else {
        let mut message = String::from_str("unknown record type 0x");
        message.append(hex_byte_text(kind).as_str());
        Err(GraphError::DeserializationError(message))
    }
}

/// Reads a stored checksum.
pub fn read_checksum(data: &[u8], pos: &mut usize) -> (r: Result<u32, GraphError>)
    ensures
        outcome(r, *final(pos), decode_u32(data@, *old(pos) as int)),
        *old(pos) <= data.len() ==> *final(pos) <= data.len(),
{
    read_u32(data, pos)
}

} // verus!
