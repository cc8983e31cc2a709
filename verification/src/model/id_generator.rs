//! Sequential identifiers for nodes and edges.

use crate::model::edge_id::EdgeId;
use crate::model::node_id::NodeId;
use vstd::prelude::*;

verus! {

/// Hands out node and edge identifiers in ascending order from two independent
/// counters.
#[derive(Clone, Copy, Debug)]
pub struct IdGenerator {
    next_node: u64,
    next_edge: u64,
}

impl IdGenerator {
    /// The number of the next node identifier.
    pub closed spec fn next_node(&self) -> u64 {
        self.next_node
    }

    /// The number of the next edge identifier.
    pub closed spec fn next_edge(&self) -> u64 {
        self.next_edge
    }

    /// A generator that starts both counters at zero.
    pub fn new() -> (r: IdGenerator)
        ensures
            r.next_node() == 0,
            r.next_edge() == 0,
    {
        IdGenerator { next_node: 0, next_edge: 0 }
    }

    /// The next node identifier. The counter must not have run out.
    pub fn next_node_id(&mut self) -> (r: NodeId)
        requires
            old(self).next_node() < u64::MAX,
        ensures
            r == NodeId(old(self).next_node()),
            final(self).next_node() == old(self).next_node() + 1,
            final(self).next_edge() == old(self).next_edge(),
    {
        let id = NodeId(self.next_node);
        self.next_node = self.next_node + 1;
        id
    }

    /// The next edge identifier. The counter must not have run out.
    pub fn next_edge_id(&mut self) -> (r: EdgeId)
        requires
            old(self).next_edge() < u64::MAX,
        ensures
            r == EdgeId(old(self).next_edge()),
            final(self).next_edge() == old(self).next_edge() + 1,
            final(self).next_node() == old(self).next_node(),
    {
        let id = EdgeId(self.next_edge);
        self.next_edge = self.next_edge + 1;
        id
    }

    /// The node identifier that comes next.
    pub fn peek_node_id(&self) -> (r: NodeId)
        ensures
            r == NodeId(self.next_node()),
    {
        NodeId(self.next_node)
    }

    /// The edge identifier that comes next.
    pub fn peek_edge_id(&self) -> (r: EdgeId)
        ensures
            r == EdgeId(self.next_edge()),
    {
        EdgeId(self.next_edge)
    }

    /// Moves the node counter past an identifier that is in use. The counter
    /// never moves back.
    pub fn seed_from_node(&mut self, seen: NodeId)
        requires
            seen.0 < u64::MAX,
        ensures
            final(self).next_node() == if seen.0 >= old(self).next_node() {
                (seen.0 + 1) as u64
            } else {
                old(self).next_node()
            },
            final(self).next_edge() == old(self).next_edge(),
    {
        if seen.0 >= self.next_node {
            self.next_node = seen.0 + 1;
        }
    }

    /// Moves the edge counter past an identifier that is in use. The counter
    /// never moves back.
    pub fn seed_from_edge(&mut self, seen: EdgeId)
        requires
            seen.0 < u64::MAX,
        ensures
            final(self).next_edge() == if seen.0 >= old(self).next_edge() {
                (seen.0 + 1) as u64
            } else {
                old(self).next_edge()
            },
            final(self).next_node() == old(self).next_node(),
    {
        if seen.0 >= self.next_edge {
            self.next_edge = seen.0 + 1;
        }
    }
}

impl Default for IdGenerator {
    fn default() -> (r: IdGenerator)
        ensures
            r.next_node() == 0,
            r.next_edge() == 0,
    {
        IdGenerator::new()
    }
}

} // verus!
