//! What labels the nodes of the database carry.

use crate::database::layered::LayeredGraphDatabase;
use crate::model::node_id::NodeId;
use crate::ports::cache::CachePort;
use crate::ports::engine::GraphEnginePort;
use crate::ports::storage::StoragePort;
use vstd::prelude::*;

verus! {

/// A label with the number of nodes that carry it.
#[derive(Debug)]
pub struct LabelCount {
    pub label: String,
    pub count: usize,
}

/// Whether labels with more nodes come first.
pub open spec fn by_count(s: Seq<LabelCount>) -> bool {
    forall|i: int, j: int|
        0 <= i < j < s.len() ==> (#[trigger] s[i]).count >= (#[trigger] s[j]).count
}

/// Whether a list holds each label of a map once, with its count.
pub open spec fn counts_labels(s: Seq<LabelCount>, m: Map<Seq<char>, Seq<NodeId>>) -> bool {
    &&& forall|i: int|
        0 <= i < s.len() ==> m.contains_key((#[trigger] s[i]).label@) && s[i].count
            == m[s[i].label@].len()
    &&& forall|i: int, j: int|
        0 <= i < j < s.len() ==> (#[trigger] s[i]).label@ != (#[trigger] s[j]).label@
    &&& forall|l: Seq<char>| #[trigger]
        m.contains_key(l) ==> exists|i: int| 0 <= i < s.len() && (#[trigger] s[i]).label@ == l
}

/// Puts a label behind those with at least as many nodes.
fn place(list: &mut Vec<LabelCount>, entry: LabelCount)
    requires
        by_count(old(list)@),
    ensures
        by_count(final(list)@),
        exists|p: int|
            0 <= p <= old(list)@.len() && final(list)@ == #[trigger] old(list)@.insert(p, entry),
{
    let mut p: usize = 0;
    while p < list.len() && list[p].count >= entry.count
        invariant
            p <= list.len(),
            forall|j: int| 0 <= j < p ==> (#[trigger] list@[j]).count >= entry.count,
        decreases list.len() - p,
    {
        p += 1;
    }
    let ghost before = list@;
    list.insert(p, entry);
    proof {
        let after = list@;
        assert(after == before.insert(p as int, entry));
        assert forall|i: int, j: int| 0 <= i < j < after.len() implies (#[trigger] after[i]).count
            >= (#[trigger] after[j]).count by {
            if p < before.len() && j > p {
                assert(before[p as int].count >= before[j - 1].count);
            }
        }
    }
}

/// A label that was not counted yet can be put anywhere.
proof fn lemma_placed(
    before: Seq<LabelCount>,
    m: Map<Seq<char>, Seq<NodeId>>,
    p: int,
    entry: LabelCount,
    ids: Seq<NodeId>,
)
    requires
        counts_labels(before, m),
        !m.contains_key(entry.label@),
        entry.count == ids.len(),
        0 <= p <= before.len(),
    ensures
        counts_labels(before.insert(p, entry), m.insert(entry.label@, ids)),
{
    let after = before.insert(p, entry);
    let m2 = m.insert(entry.label@, ids);
    assert(after[p] == entry);
    assert forall|a: int| 0 <= a < after.len() implies m2.contains_key((#[trigger] after[a]).label@)
        && after[a].count == m2[after[a].label@].len() by {
        if a != p {
            let b = if a < p { a } else { a - 1 };
            assert(after[a] == before[b]);
        }
    }
    assert forall|a: int, b: int| 0 <= a < b < after.len() implies (#[trigger] after[a]).label@
        != (#[trigger] after[b]).label@ by {
        let x = if a < p { a } else { a - 1 };
        let y = if b < p { b } else { b - 1 };
        if a == p {
            assert(after[b] == before[y]);
        } else if b == p {
            assert(after[a] == before[x]);
        } else {
            assert(after[a] == before[x] && after[b] == before[y]);
        }
    }
    assert forall|l: Seq<char>| #[trigger] m2.contains_key(l) implies exists|a: int|
        0 <= a < after.len() && (#[trigger] after[a]).label@ == l by {
        if l == entry.label@ {
            assert(after[p].label@ == l);
        } else {
            assert(m.contains_key(l));
            let b = choose|b: int| 0 <= b < before.len() && (#[trigger] before[b]).label@ == l;
            let a = if b < p { b } else { b + 1 };
            assert(after[a] == before[b]);
        }
    }
}

impl<S: StoragePort, C: CachePort, E: GraphEnginePort> LayeredGraphDatabase<S, C, E> {
    /// The labels in use with their numbers of nodes, those with more nodes first.
    pub fn label_stats(&self) -> (r: Vec<LabelCount>)
        ensures
            counts_labels(r@, self.labels()),
            by_count(r@),
    {
        let labels = self.label_index.all_labels();
        let ghost m = self.labels();
        let ghost mut part: Map<Seq<char>, Seq<NodeId>> = Map::empty();
        let mut out: Vec<LabelCount> = Vec::new();
        let mut i: usize = 0;
        while i < labels.len()
            invariant
                i <= labels.len(),
                m == self.label_index@,
                forall|a: int, b: int|
                    0 <= a < b < labels.len() ==> #[trigger] labels[a]@ != #[trigger] labels[b]@,
                forall|a: int| 0 <= a < labels.len() ==> m.contains_key(#[trigger] labels[a]@),
                by_count(out@),
                counts_labels(out@, part),
                forall|l: Seq<char>| #[trigger]
                    part.contains_key(l) ==> m.contains_key(l) && part[l] == m[l],
                forall|a: int| 0 <= a < labels.len() ==> (part.contains_key(#[trigger] labels[a]@)
                    <==> a < i),
            decreases labels.len() - i,
        {
            let count: usize = self.label_index.label_count(labels[i].as_str());
            let entry = LabelCount { label: labels[i].clone(), count };
            let ghost before = out@;
            place(&mut out, entry);
            proof {
                let l = labels[i as int]@;
                let p = choose|p: int|
                    0 <= p <= before.len() && out@ == #[trigger] before.insert(p, entry);
                lemma_placed(before, part, p, entry, m[l]);
                part = part.insert(l, m[l]);
            }
            i += 1;
        }
        proof {
            assert forall|l: Seq<char>| #[trigger] m.contains_key(l) implies part.contains_key(
                l,
            ) by {
                let k = choose|k: int| 0 <= k < labels.len() && #[trigger] labels[k]@ == l;
                assert(part.contains_key(labels[k]@));
            }
            assert(part =~= m);
        }
        out
    }
}

} // verus!
