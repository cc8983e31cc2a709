//! Where a record of the binary log ends.
//!
//! The length fields of a record say where it ends, whether or not its texts are
//! readable. A damaged record can thus be passed over as a whole.

use crate::adapters::storage::binary_codec::{
    RECORD_DELETE_NODE, RECORD_ROLLBACK_TXN, RECORD_UPSERT_EDGE, RECORD_UPSERT_NODE, VALUE_BOOLEAN,
    VALUE_FLOAT, VALUE_INTEGER, VALUE_NULL, VALUE_TEXT,
};
use crate::adapters::storage::binary_decode::{
    decode_bytes, decode_entries, decode_payload, decode_properties, decode_text, decode_u32,
    decode_u64, decode_u8, decode_value, read_bytes, read_u32, read_u64, read_u8,
};
use crate::model::value::ValueView;
use vstd::prelude::*;

verus! {

/// How far a part of a record reaches, and whether its lengths and tags could all
/// be followed; if not, it reaches up to the first that could not.
pub struct Extent {
    pub whole: bool,
    pub end: int,
}

pub open spec fn text_extent(data: Seq<u8>, pos: int) -> Extent {
    let n = decode_u32(data, pos);
    match n.value {
        Err(_) => Extent { whole: false, end: n.pos },
        Ok(len) => {
            let d = decode_bytes(data, n.pos, len as int);
            Extent { whole: d.value is Ok, end: d.pos }
        },
    }
}

pub open spec fn number_extent(data: Seq<u8>, pos: int) -> Extent {
    let d = decode_u64(data, pos);
    Extent { whole: d.value is Ok, end: d.pos }
}

pub open spec fn value_extent(data: Seq<u8>, pos: int) -> Extent {
    let t = decode_u8(data, pos);
    match t.value {
        Err(_) => Extent { whole: false, end: t.pos },
        Ok(tag) => if tag == VALUE_NULL {
            Extent { whole: true, end: t.pos }
        } else if tag == VALUE_BOOLEAN {
            let d = decode_u8(data, t.pos);
            Extent { whole: d.value is Ok, end: d.pos }
        } else if tag == VALUE_INTEGER || tag == VALUE_FLOAT {
            number_extent(data, t.pos)
        } else if tag == VALUE_TEXT {
            text_extent(data, t.pos)
        } else {
            Extent { whole: false, end: t.pos }
        },
    }
}

/// How far `n` entries reach.
pub open spec fn entries_extent(data: Seq<u8>, pos: int, n: nat) -> Extent
    decreases n,
{
    if n == 0 {
        Extent { whole: true, end: pos }
    } else {
        let k = text_extent(data, pos);
        if !k.whole {
            k
        } else {
            let v = value_extent(data, k.end);
            if !v.whole {
                v
            } else {
                entries_extent(data, v.end, (n - 1) as nat)
            }
        }
    }
}

pub open spec fn properties_extent(data: Seq<u8>, pos: int) -> Extent {
    let n = decode_u32(data, pos);
    match n.value {
        Err(_) => Extent { whole: false, end: n.pos },
        Ok(count) => entries_extent(data, n.pos, count as nat),
    }
}

pub open spec fn node_extent(data: Seq<u8>, pos: int) -> Extent {
    let i = number_extent(data, pos);
    if !i.whole {
        i
    } else {
        let l = text_extent(data, i.end);
        if !l.whole {
            l
        } else {
            properties_extent(data, l.end)
        }
    }
}

/// How far the label, weight and properties of an edge reach.
pub open spec fn edge_rest_extent(data: Seq<u8>, pos: int) -> Extent {
    let l = text_extent(data, pos);
    if !l.whole {
        l
    } else {
        let w = number_extent(data, l.end);
        if !w.whole {
            w
        } else {
            properties_extent(data, w.end)
        }
    }
}

pub open spec fn edge_extent(data: Seq<u8>, pos: int) -> Extent {
    let i = number_extent(data, pos);
    if !i.whole {
        i
    } else {
        let s = number_extent(data, i.end);
        if !s.whole {
            s
        } else {
            let t = number_extent(data, s.end);
            if !t.whole {
                t
            } else {
                edge_rest_extent(data, t.end)
            }
        }
    }
}

/// How far the payload of a record of the given type reaches.
#[verifier::opaque]
pub open spec fn payload_extent(kind: u8, data: Seq<u8>, pos: int) -> Extent {
    if kind == RECORD_UPSERT_NODE {
        node_extent(data, pos)
    } else if kind == RECORD_UPSERT_EDGE {
        edge_extent(data, pos)
    } else if RECORD_DELETE_NODE <= kind <= RECORD_ROLLBACK_TXN {
        number_extent(data, pos)
    } else {
        Extent { whole: false, end: pos }
    }
}

/// A payload reaches forward, and not beyond the end.
pub proof fn lemma_extent_advances(kind: u8, data: Seq<u8>, pos: int)
    requires
        0 <= pos <= data.len(),
    ensures
        pos <= payload_extent(kind, data, pos).end <= data.len(),
{
    reveal(payload_extent);
    let i = number_extent(data, pos);
    let l = text_extent(data, i.end);
    lemma_properties_extent(data, l.end);
    let t = number_extent(data, number_extent(data, i.end).end);
    let w = number_extent(data, text_extent(data, t.end).end);
    lemma_properties_extent(data, w.end);
}

proof fn lemma_properties_extent(data: Seq<u8>, pos: int)
    requires
        0 <= pos <= data.len(),
    ensures
        pos <= properties_extent(data, pos).end <= data.len(),
{
    let n = decode_u32(data, pos);
    if n.value is Ok {
        lemma_entries_extent(data, n.pos, n.value->Ok_0 as nat);
    }
}

proof fn lemma_entries_extent(data: Seq<u8>, pos: int, n: nat)
    requires
        0 <= pos <= data.len(),
    ensures
        pos <= entries_extent(data, pos, n).end <= data.len(),
    decreases n,
{
    if n > 0 {
        let k = text_extent(data, pos);
        let v = value_extent(data, k.end);
        if k.whole && v.whole {
            lemma_entries_extent(data, v.end, (n - 1) as nat);
        }
    }
}

proof fn lemma_entries_decoded(data: Seq<u8>, pos: int, n: nat, acc: Map<Seq<char>, ValueView>)
    requires
        decode_entries(data, pos, n, acc).value is Ok,
    ensures
        entries_extent(data, pos, n) == (Extent {
            whole: true,
            end: decode_entries(data, pos, n, acc).pos,
        }),
    decreases n,
{
    if n > 0 {
        let k = decode_text(data, pos);
        let v = decode_value(data, k.pos);
        lemma_entries_decoded(
            data,
            v.pos,
            (n - 1) as nat,
            acc.insert(k.value->Ok_0, v.value->Ok_0),
        );
    }
}

/// Properties that can be read reach as far as they were read.
pub proof fn lemma_properties_decoded(data: Seq<u8>, pos: int)
    requires
        decode_properties(data, pos).value is Ok,
    ensures
        properties_extent(data, pos) == (Extent {
            whole: true,
            end: decode_properties(data, pos).pos,
        }),
{
    let n = decode_u32(data, pos);
    lemma_entries_decoded(data, n.pos, n.value->Ok_0 as nat, Map::empty());
}

/// A payload that can be read reaches as far as it was read.
pub proof fn lemma_extent_decoded(kind: u8, data: Seq<u8>, pos: int)
    requires
        decode_payload(kind, data, pos).value is Ok,
    ensures
        payload_extent(kind, data, pos) == (Extent {
            whole: true,
            end: decode_payload(kind, data, pos).pos,
        }),
{
    reveal(payload_extent);
    reveal(decode_payload);
    if kind == RECORD_UPSERT_NODE {
        let l = decode_text(data, decode_u64(data, pos).pos);
        lemma_properties_decoded(data, l.pos);
    } else if kind == RECORD_UPSERT_EDGE {
        let t = decode_u64(data, decode_u64(data, decode_u64(data, pos).pos).pos);
        let w = decode_u64(data, decode_text(data, t.pos).pos);
        lemma_properties_decoded(data, w.pos);
    }
}

// ------------------------------------------------------------------- skipping

fn skip_text(data: &[u8], pos: &mut usize) -> (r: bool)
    ensures
        (Extent { whole: r, end: *final(pos) as int }) == text_extent(data@, *old(pos) as int),
{
    match read_u32(data, pos) {
        Ok(len) => read_bytes(data, pos, len as usize).is_ok(),
        Err(_) => false,
    }
}

fn skip_number(data: &[u8], pos: &mut usize) -> (r: bool)
    ensures
        (Extent { whole: r, end: *final(pos) as int }) == number_extent(data@, *old(pos) as int),
{
    read_u64(data, pos).is_ok()
}

fn skip_value(data: &[u8], pos: &mut usize) -> (r: bool)
    ensures
        (Extent { whole: r, end: *final(pos) as int }) == value_extent(data@, *old(pos) as int),
{
    match read_u8(data, pos) {
        Err(_) => false,
        Ok(tag) => if tag == VALUE_NULL {
            true
        } else if tag == VALUE_BOOLEAN {
            read_u8(data, pos).is_ok()
        } else if tag == VALUE_INTEGER || tag == VALUE_FLOAT {
            skip_number(data, pos)
        } else if tag == VALUE_TEXT {
            skip_text(data, pos)
        } else {
            false
        },
    }
}

fn skip_properties(data: &[u8], pos: &mut usize) -> (r: bool)
    ensures
        (Extent { whole: r, end: *final(pos) as int }) == properties_extent(
            data@,
            *old(pos) as int,
        ),
{
    let ghost all = properties_extent(data@, *pos as int);
    let count: u32 = match read_u32(data, pos) {
        Ok(n) => n,
        Err(_) => {
            return false;
        },
    };
    let mut i: u32 = 0;
    while i < count
        invariant
            i <= count,
            all == properties_extent(data@, *old(pos) as int),
            all == entries_extent(data@, *pos as int, (count - i) as nat),
        decreases count - i,
    {
        if !skip_text(data, pos) {
            return false;
        }
        if !skip_value(data, pos) {
            return false;
        }
        i += 1;
    }
    true
}

/// Passes over the payload of a record of the given type.
pub fn skip_record(kind: u8, data: &[u8], pos: &mut usize) -> (r: bool)
    ensures
        (Extent { whole: r, end: *final(pos) as int }) == payload_extent(
            kind,
            data@,
            *old(pos) as int,
        ),
{
    proof {
        reveal(payload_extent);
    }
    if kind == RECORD_UPSERT_NODE {
        skip_number(data, pos) && skip_text(data, pos) && skip_properties(data, pos)
    } else if kind == RECORD_UPSERT_EDGE {
        skip_number(data, pos) && skip_number(data, pos) && skip_number(data, pos) && skip_text(
            data,
            pos,
        ) && skip_number(data, pos) && skip_properties(data, pos)
    } else if RECORD_DELETE_NODE <= kind && kind <= RECORD_ROLLBACK_TXN {
        skip_number(data, pos)
    } else {
        false
    }
}

} // verus!
