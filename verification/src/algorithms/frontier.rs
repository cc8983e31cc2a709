//! The nodes that a search has yet to expand, nearest first.

use crate::float::Float64;
use crate::model::node_id::NodeId;
use vstd::multiset::Multiset;
use vstd::prelude::*;

verus! {

/// A node and the distance at which it was found.
#[derive(Clone, Copy, Debug, PartialEq, Eq, Structural)]
pub struct HeapEntry {
    /// The distance.
    pub distance: Float64,
    /// The node.
    pub node_id: NodeId,
}

/// Whether one entry comes out before the other: by distance in the total order
/// of doubles, then by node.
pub open spec fn before(a: HeapEntry, b: HeapEntry) -> bool {
    a.distance.total_rank() < b.distance.total_rank() || (a.distance.total_rank()
        == b.distance.total_rank() && a.node_id.0 < b.node_id.0)
}

fn is_before(a: HeapEntry, b: HeapEntry) -> (r: bool)
    ensures
        r == before(a, b),
{
    a.distance.is_before(b.distance) || (!b.distance.is_before(a.distance) && a.node_id.0
        < b.node_id.0)
}

/// Entries of which the first in order is taken out.
pub struct Frontier {
    entries: Vec<HeapEntry>,
}

impl View for Frontier {
    type V = Multiset<HeapEntry>;

    closed spec fn view(&self) -> Multiset<HeapEntry> {
        self.entries@.to_multiset()
    }
}

impl Frontier {
    /// A frontier without entries.
    pub fn new() -> (r: Frontier)
        ensures
            r@ == Multiset::<HeapEntry>::empty(),
    {
        let r = Frontier { entries: Vec::new() };
        proof {
            r.entries@.to_multiset_ensures();
            assert(r@ =~= Multiset::empty());
        }
        r
    }

    /// Adds an entry.
    pub fn push(&mut self, e: HeapEntry)
        ensures
            final(self)@ == old(self)@.insert(e),
    {
        proof {
            self.entries@.to_multiset_ensures();
        }
        self.entries.push(e);
    }

    /// Takes out the entry that comes before all others.
    pub fn pop(&mut self) -> (r: Option<HeapEntry>)
        ensures
            match r {
                Some(e) => {
                    &&& old(self)@.contains(e)
                    &&& final(self)@ == old(self)@.remove(e)
                    &&& forall|x: HeapEntry| #[trigger]
                        old(self)@.contains(x) ==> !before(x, e)
                },
                None => old(self)@ == Multiset::<HeapEntry>::empty() && final(self)@ == old(self)@,
            },
    {
        let n: usize = self.entries.len();
        proof {
            self.entries@.to_multiset_ensures();
        }
        if n == 0 {
            assert(self@ =~= Multiset::empty());
            return None;
        }
        let mut best: usize = 0;
        let mut i: usize = 1;
        while i < n
            invariant
                best < i <= n,
                n == self.entries.len(),
                self.entries@ == old(self).entries@,
                forall|j: int|
                    0 <= j < i ==> !before(#[trigger] self.entries@[j], self.entries@[best as int]),
            decreases n - i,
        {
            if is_before(self.entries[i], self.entries[best]) {
                best = i;
            }
            i += 1;
        }
        let ghost all = self.entries@;
        let e = self.entries.remove(best);
        proof {
            all.to_multiset_ensures();
            assert(all.contains(e)) by {
                assert(all[best as int] == e);
            }
            assert(all.remove(best as int).to_multiset() == all.to_multiset().remove(e));
            assert forall|x: HeapEntry| #[trigger] old(self)@.contains(x) implies !before(x, e) by {
                assert(all.contains(x));
                let j = choose|j: int| 0 <= j < all.len() && all[j] == x;
                assert(!before(all[j], all[best as int]));
            }
        }
        Some(e)
    }

    /// The number of entries.
    pub fn len(&self) -> (r: usize)
        ensures
            r == self@.len(),
    {
        proof {
            self.entries@.to_multiset_ensures();
        }
        self.entries.len()
    }
}

} // verus!
