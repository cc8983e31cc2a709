//! Whether texts and properties can be stored.

use crate::collections::entries::{
    entries_map, lemma_entries_count, lemma_entries_map_at, lemma_entries_map_contains,
};
use crate::collections::string_map::StringMap;
use crate::model::edge::Edge;
use crate::model::node::Node;
use crate::model::value::{Value, ValueView};
use crate::ports::storage::{short_text, storable_edge, storable_node, storable_properties};
use vstd::prelude::*;
use vstd::utf8::{encode_scalar, encode_utf8};

verus! {

/// A character takes at most four bytes.
proof fn lemma_encoded_length(s: Seq<char>)
    ensures
        encode_utf8(s).len() <= 4 * s.len(),
    decreases s.len(),
{
    if s.len() > 0 {
        lemma_encoded_length(s.drop_first());
        assert(encode_scalar(s[0] as u32).len() <= 4);
    }
}

/// A text of less than a thousand million characters can be stored.
pub proof fn lemma_short_text(s: Seq<char>)
    requires
        s.len() < 1_000_000_000,
    ensures
        short_text(s),
{
    lemma_encoded_length(s);
}

/// Whether a text can be stored.
pub fn is_short_text(s: &str) -> (r: bool)
    ensures
        r == short_text(s@),
{
    let n: usize = s.as_bytes().len();
    (n as u64) < 0x1_0000_0000
}

fn is_storable_value(v: &Value) -> (r: bool)
    ensures
        r == (v@ matches ValueView::Text(s) ==> short_text(s)),
{
    match v {
        Value::Text(s) => is_short_text(s.as_str()),
        _ => true,
    }
}

/// Whether properties can be stored.
pub fn are_storable(p: &StringMap<Value>) -> (r: bool)
    ensures
        r == storable_properties(p@),
{
    let n: usize = p.len();
    let ghost entries = p.entries();
    proof {
        lemma_entries_count(entries);
    }
    if n as u64 >= 0x1_0000_0000 {
        return false;
    }
    let mut i: usize = 0;
    while i < n
        invariant
            i <= n,
            entries == p.entries(),
            n == entries.len(),
            crate::collections::entries::distinct_keys(entries),
            p@ == entries_map(entries),
            forall|j: int|
                0 <= j < i ==> short_text((#[trigger] entries[j]).0) && (entries[j].1 matches
                    ValueView::Text(s) ==> short_text(s)),
        decreases n - i,
    {
        proof {
            lemma_entries_map_at(entries, i as int);
        }
        if !is_short_text(p.key_at(i).as_str()) || !is_storable_value(p.value_at(i)) {
            assert(p@.contains_key(entries[i as int].0));
            return false;
        }
        i += 1;
    }
    proof {
        assert forall|k: Seq<char>| #[trigger] p@.contains_key(k) implies short_text(k) && (p@[k]
            matches ValueView::Text(s) ==> short_text(s)) by {
            lemma_entries_map_contains(entries, k);
            let j = choose|j: int| 0 <= j < entries.len() && #[trigger] entries[j].0 == k;
            lemma_entries_map_at(entries, j);
        }
    }
    true
}

/// Whether a node can be stored.
pub fn is_storable_node(n: &Node) -> (r: bool)
    ensures
        r == storable_node(n@),
{
    is_short_text(n.label.as_str()) && are_storable(&n.properties)
}

/// Whether an edge can be stored.
pub fn is_storable_edge(e: &Edge) -> (r: bool)
    ensures
        r == storable_edge(e@),
{
    is_short_text(e.label.as_str()) && are_storable(&e.properties)
}

} // verus!
