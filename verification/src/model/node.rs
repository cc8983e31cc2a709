//! Nodes of the graph.

use crate::collections::string_map::StringMap;
use crate::model::node_id::NodeId;
use crate::model::value::{Value, ValueView};
use vstd::prelude::*;
use vstd::string::StringExecFns;

verus! {

/// A node: an identifier, a label and named properties.
#[derive(Debug)]
pub struct Node {
    /// The identifier.
    pub id: NodeId,
    /// The label, the type of the entity.
    pub label: String,
    /// The properties by name.
    pub properties: StringMap<Value>,
}

/// What a node holds.
pub struct NodeView {
    pub id: NodeId,
    pub label: Seq<char>,
    pub properties: Map<Seq<char>, ValueView>,
}

impl View for Node {
    type V = NodeView;

    open spec fn view(&self) -> NodeView {
        NodeView { id: self.id, label: self.label@, properties: self.properties@ }
    }
}

impl Node {
    /// A node without properties.
    pub fn new(id: NodeId, label: String) -> (r: Node)
        ensures
            r.id == id,
            r.label == label,
            r.properties@ == Map::<Seq<char>, ValueView>::empty(),
    {
        Node { id, label, properties: StringMap::new() }
    }

    /// The node with one property more, or with another value for it.
    pub fn with_property(self, key: String, value: Value) -> (r: Node)
        ensures
            r@ == (NodeView {
                id: self.id,
                label: self.label@,
                properties: self.properties@.insert(key@, value@),
            }),
    {
        let mut properties = self.properties;
        properties.insert(key, value);
        Node { id: self.id, label: self.label, properties }
    }
}

/// Properties as text, in order: names and values in turn.
pub open spec fn properties_text(s: Seq<(Seq<char>, ValueView)>) -> Seq<char>
    decreases s.len(),
{
    if s.len() == 0 {
        Seq::empty()
    } else {
        let before = s.drop_last();
        properties_text(before) + (if before.len() > 0 {
            ", "@
        } else {
            Seq::empty()
        }) + s.last().0 + ": "@ + s.last().1.text()
    }
}

/// The text of a node: its identifier and label, and its properties in the given
/// order if it has any.
pub open spec fn node_text(n: NodeView, entries: Seq<(Seq<char>, ValueView)>) -> Seq<char> {
    "("@ + n.id.text() + " :"@ + n.label + ")"@ + if entries.len() == 0 {
        Seq::empty()
    } else {
        " {"@ + properties_text(entries) + "}"@
    }
}

impl Node {
    /// The text of the node, such as `(N0 :City) {name: "London"}`.
    pub fn display(&self) -> (r: String)
        ensures
            r@ == node_text(self@, self.properties.entries()),
    {
        let mut out = String::from_str("(");
        out.append(self.id.display().as_str());
        out.append(" :");
        out.append(self.label.as_str());
        out.append(")");
        let ghost head = out@;
        let n: usize = self.properties.len();
        let ghost entries = self.properties.entries();
        if n > 0 {
            out.append(" {");
            let ghost start = out@;
            let mut i: usize = 0;
            assert(out@ =~= start + properties_text(entries.take(0)));
            while i < n
                invariant
                    i <= n,
                    n == entries.len(),
                    entries == self.properties.entries(),
                    out@ == start + properties_text(entries.take(i as int)),
                decreases n - i,
            {
                proof {
                    let grown = entries.take(i + 1);
                    assert(grown.drop_last() =~= entries.take(i as int));
                    assert(grown.last() == entries[i as int]);
                }
                if i > 0 {
                    out.append(", ");
                }
                out.append(self.properties.key_at(i).as_str());
                out.append(": ");
                out.append(self.properties.value_at(i).display().as_str());
                i += 1;
                assert(out@ =~= start + properties_text(entries.take(i as int)));
            }
            out.append("}");
            proof {
                assert(entries.take(n as int) =~= entries);
                assert(out@ =~= head + (" {"@ + properties_text(entries) + "}"@));
            }
        } else {
            assert(head + Seq::<char>::empty() =~= head);
        }
        out
    }
}

impl Clone for Node {
    fn clone(&self) -> (r: Node)
        ensures
            r@ == self@,
    {
        Node { id: self.id, label: self.label.clone(), properties: self.properties.clone() }
    }
}

} // verus!
