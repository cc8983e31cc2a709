//! The identifier of a edge.

use crate::collections::id_map::Identifier;
use crate::text::{decimal, u64_to_text};
use vstd::prelude::*;
use vstd::string::StringExecFns;

verus! {

/// A strongly typed identifier of a edge in the graph.
#[derive(Clone, Copy, Debug, PartialEq, Eq, PartialOrd, Ord, Hash, Structural)]
pub struct EdgeId(pub u64);

impl View for EdgeId {
    type V = EdgeId;

    open spec fn view(&self) -> EdgeId {
        *self
    }
}

impl EdgeId {
    /// The text of an identifier: `E` and the number.
    pub open spec fn text(self) -> Seq<char> {
        "E"@ + decimal(self.0 as nat)
    }

    /// The text of the identifier, such as `E42`.
    pub fn display(&self) -> (r: String)
        ensures
            r@ == self.text(),
    {
        let mut s = String::from_str("E");
        s.append(u64_to_text(self.0).as_str());
        s
    }
}

impl Identifier for EdgeId {
    open spec fn number(self) -> u64 {
        self.0
    }

    open spec fn of_number(n: u64) -> EdgeId {
        EdgeId(n)
    }

    proof fn lemma_one_to_one(self, n: u64) {
    }

    fn to_number(self) -> u64 {
        self.0
    }

    fn from_number(n: u64) -> EdgeId {
        EdgeId(n)
    }
}

} // verus!
