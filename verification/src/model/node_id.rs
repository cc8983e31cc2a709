//! The identifier of a node.

use crate::collections::id_map::Identifier;
use crate::text::{decimal, u64_to_text};
use vstd::prelude::*;
use vstd::string::StringExecFns;

verus! {

/// A strongly typed identifier of a node in the graph.
#[derive(Clone, Copy, Debug, PartialEq, Eq, PartialOrd, Ord, Hash, Structural)]
pub struct NodeId(pub u64);

impl View for NodeId {
    type V = NodeId;

    open spec fn view(&self) -> NodeId {
        *self
    }
}

impl NodeId {
    /// The text of an identifier: `N` and the number.
    pub open spec fn text(self) -> Seq<char> {
        "N"@ + decimal(self.0 as nat)
    }

    /// The text of the identifier, such as `N42`.
    pub fn display(&self) -> (r: String)
        ensures
            r@ == self.text(),
    {
        let mut s = String::from_str("N");
        s.append(u64_to_text(self.0).as_str());
        s
    }
}

impl Identifier for NodeId {
    open spec fn number(self) -> u64 {
        self.0
    }

    open spec fn of_number(n: u64) -> NodeId {
        NodeId(n)
    }

    proof fn lemma_one_to_one(self, n: u64) {
    }

    fn to_number(self) -> u64 {
        self.0
    }

    fn from_number(n: u64) -> NodeId {
        NodeId(n)
    }
}

} // verus!
