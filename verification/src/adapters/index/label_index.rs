//! Which nodes carry which label.

use crate::collections::string_map::StringMap;
use crate::model::node_id::NodeId;
use crate::collections::filtering::{lemma_filter_contains, lemma_push_contains};
use vstd::prelude::*;
use vstd::string::StringExecFns;

verus! {

/// The nodes of a label, none where there is no such label.
pub open spec fn label_bucket(m: Map<Seq<char>, Seq<NodeId>>, label: Seq<char>) -> Seq<NodeId> {
    if m.contains_key(label) {
        m[label]
    } else {
        Seq::empty()
    }
}

/// The identifiers other than the given one.
pub open spec fn others(s: Seq<NodeId>, id: NodeId) -> Seq<NodeId> {
    s.filter(is_other(id))
}

/// Whether an identifier is another than the given one.
pub open spec fn is_other(id: NodeId) -> spec_fn(NodeId) -> bool {
    |x: NodeId| x != id
}

/// The index after a node was registered under a label.
pub open spec fn label_insert(
    m: Map<Seq<char>, Seq<NodeId>>,
    id: NodeId,
    label: Seq<char>,
) -> Map<Seq<char>, Seq<NodeId>> {
    m.insert(label, label_bucket(m, label).push(id))
}

/// The index after a node was taken out of a label. A label without nodes goes.
pub open spec fn label_remove(
    m: Map<Seq<char>, Seq<NodeId>>,
    id: NodeId,
    label: Seq<char>,
) -> Map<Seq<char>, Seq<NodeId>> {
    let rest = others(label_bucket(m, label), id);
    if rest.len() == 0 {
        m.remove(label)
    } else {
        m.insert(label, rest)
    }
}

/// A secondary index from label to nodes.
pub struct LabelIndex {
    index: StringMap<Vec<NodeId>>,
}

impl View for LabelIndex {
    type V = Map<Seq<char>, Seq<NodeId>>;

    closed spec fn view(&self) -> Map<Seq<char>, Seq<NodeId>> {
        self.index@
    }
}

/// The identifiers other than the given one.
pub fn without_id(ids: &Vec<NodeId>, id: NodeId) -> (r: Vec<NodeId>)
    ensures
        r@ == others(ids@, id),
{
    let mut out: Vec<NodeId> = Vec::new();
    let mut i: usize = 0;
    proof {
        reveal(Seq::filter);
    }
    assert(others(ids@.take(0), id) =~= Seq::empty());
    while i < ids.len()
        invariant
            i <= ids.len(),
            out@ == others(ids@.take(i as int), id),
        decreases ids.len() - i,
    {
        proof {
            reveal(Seq::filter);
            assert(ids@.take(i + 1).drop_last() =~= ids@.take(i as int));
            assert(ids@.take(i + 1).last() == ids@[i as int]);
        }
        if ids[i] != id {
            out.push(ids[i]);
        }
        i += 1;
    }
    assert(ids@.take(i as int) =~= ids@);
    out
}

impl LabelIndex {
    /// An index without labels.
    pub fn new() -> (r: LabelIndex)
        ensures
            r@ == Map::<Seq<char>, Seq<NodeId>>::empty(),
    {
        LabelIndex { index: StringMap::new() }
    }

    /// Registers a node under its label.
    pub fn insert(&mut self, id: NodeId, label: &str)
        ensures
            final(self)@ == label_insert(old(self)@, id, label@),
    {
        let mut ids = match self.index.remove(label) {
            Some(v) => v,
            None => Vec::new(),
        };
        ids.push(id);
        self.index.insert(String::from_str(label), ids);
        assert(self@ =~= label_insert(old(self)@, id, label@));
    }

    /// Takes a node out of its label. A label without nodes goes.
    pub fn remove(&mut self, id: NodeId, label: &str)
        ensures
            final(self)@ == label_remove(old(self)@, id, label@),
    {
        match self.index.remove(label) {
            Some(ids) => {
                let rest = without_id(&ids, id);
                if rest.len() > 0 {
                    self.index.insert(String::from_str(label), rest);
                }
            },
            None => {
                proof {
                    reveal(Seq::filter);
                    assert(others(Seq::empty(), id) =~= Seq::empty());
                }
            },
        }
        assert(self@ =~= label_remove(old(self)@, id, label@));
    }

    /// The nodes that carry the label.
    pub fn get(&self, label: &str) -> (r: &[NodeId])
        ensures
            r@ == label_bucket(self@, label@),
    {
        match self.index.get(label) {
            Some(ids) => ids.as_slice(),
            None => {
                let none: &[NodeId] = &[];
                assert(none@ =~= Seq::empty());
                none
            },
        }
    }

    /// How many nodes carry the label.
    pub fn label_count(&self, label: &str) -> (r: usize)
        ensures
            r == label_bucket(self@, label@).len(),
    {
        match self.index.get(label) {
            Some(ids) => ids.len(),
            None => 0,
        }
    }

    /// The labels in use, each once.
    pub fn all_labels(&self) -> (r: Vec<String>)
        ensures
            forall|i: int, j: int| 0 <= i < j < r.len() ==> #[trigger] r[i]@ != #[trigger] r[j]@,
            forall|i: int| 0 <= i < r.len() ==> self@.contains_key(#[trigger] r[i]@),
            forall|label: Seq<char>| #[trigger]
                self@.contains_key(label) ==> exists|i: int|
                    0 <= i < r.len() && #[trigger] r[i]@ == label,
    {
        self.index.keys()
    }
}

impl Default for LabelIndex {
    fn default() -> (r: LabelIndex)
        ensures
            r@ == Map::<Seq<char>, Seq<NodeId>>::empty(),
    {
        LabelIndex::new()
    }
}

/// No label is kept without a node: this holds of a new index, and registering
/// and removing nodes keeps it.
pub open spec fn no_empty_label(m: Map<Seq<char>, Seq<NodeId>>) -> bool {
    forall|label: Seq<char>| #[trigger] m.contains_key(label) ==> m[label].len() > 0
}

/// A label disappears with its last node, whatever is registered and removed.
pub proof fn law_labels_have_nodes(m: Map<Seq<char>, Seq<NodeId>>, id: NodeId, label: Seq<char>)
    requires
        no_empty_label(m),
    ensures
        no_empty_label(label_insert(m, id, label)),
        no_empty_label(label_remove(m, id, label)),
{
}

/// A node that is registered is found, and one that is removed is not.
pub proof fn law_lookup_follows_changes(
    m: Map<Seq<char>, Seq<NodeId>>,
    id: NodeId,
    label: Seq<char>,
)
    ensures
        label_bucket(label_insert(m, id, label), label).contains(id),
        !label_bucket(label_remove(m, id, label), label).contains(id),
        forall|other: Seq<char>|
            other != label ==> #[trigger] label_bucket(label_insert(m, id, label), other)
                == label_bucket(m, other),
        forall|other: Seq<char>|
            other != label ==> #[trigger] label_bucket(label_remove(m, id, label), other)
                == label_bucket(m, other),
{
    let b = label_bucket(m, label);
    assert(b.push(id)[b.len() as int] == id);
    broadcast use vstd::seq_lib::group_filter_ensures;
    let rest = others(b, id);
    if rest.contains(id) {
        let i = choose|i: int| 0 <= i < rest.len() && rest[i] == id;
    }
}

/// A node that is registered under a label comes behind those that were there, and the
/// others that carry a label stay when one is taken out of it, in their order.
pub proof fn law_labels_keep_the_others(
    m: Map<Seq<char>, Seq<NodeId>>,
    id: NodeId,
    label: Seq<char>,
    other: NodeId,
)
    requires
        other != id,
    ensures
        label_bucket(label_insert(m, id, label), label).drop_last() == label_bucket(m, label),
        label_bucket(label_insert(m, id, label), label).last() == id,
        label_bucket(label_insert(m, id, label), label).contains(other) == label_bucket(
            m,
            label,
        ).contains(other),
        label_bucket(label_remove(m, id, label), label).contains(other) == label_bucket(
            m,
            label,
        ).contains(other),
        !label_bucket(m, label).contains(id) ==> label_bucket(label_remove(m, id, label), label)
            == label_bucket(m, label),
        !label_bucket(m, label).contains(id) ==> label_bucket(
            label_remove(label_insert(m, id, label), id, label),
            label,
        ) == label_bucket(m, label),
{
    let b = label_bucket(m, label);
    let c = label_bucket(label_insert(m, id, label), label);
    assert(c.drop_last() =~= b);
    lemma_push_contains(b, id, other);
    lemma_filter_contains(b, is_other(id), other);
    assert(label_bucket(label_remove(m, id, label), label) =~= others(b, id));
    assert(label_bucket(label_remove(label_insert(m, id, label), id, label), label) =~= others(
        c,
        id,
    ));
    if !b.contains(id) {
        lemma_others_all(b, id);
        reveal(Seq::filter);
    }
}

proof fn lemma_others_all(s: Seq<NodeId>, id: NodeId)
    requires
        !s.contains(id),
    ensures
        others(s, id) == s,
    decreases s.len(),
{
    reveal(Seq::filter);
    if s.len() > 0 {
        let t = s.drop_last();
        assert(s[s.len() - 1] != id);
        assert forall|i: int| 0 <= i < t.len() implies #[trigger] t[i] != id by {
            assert(s[i] != id);
        }
        assert(!t.contains(id));
        lemma_others_all(t, id);
        assert(t.push(s.last()) =~= s);
    } else {
        assert(others(s, id) =~= s);
    }
}

} // verus!
