//! A set of texts.

use crate::collections::entries::lemma_entries_count;
use crate::collections::string_map::StringMap;
use vstd::prelude::*;

verus! {

/// A set of texts that remembers the order in which they came.
pub struct StringSet {
    map: StringMap<bool>,
}

impl View for StringSet {
    type V = Set<Seq<char>>;

    closed spec fn view(&self) -> Set<Seq<char>> {
        self.map@.dom()
    }
}

impl StringSet {
    /// The empty set.
    pub fn new() -> (r: StringSet)
        ensures
            r@ == Set::<Seq<char>>::empty(),
    {
        let r = StringSet { map: StringMap::new() };
        assert(r@ =~= Set::empty());
        r
    }

    /// Adds a text.
    pub fn insert(&mut self, text: String)
        ensures
            final(self)@ == old(self)@.insert(text@),
    {
        self.map.insert(text, true);
        assert(self@ =~= old(self)@.insert(text@));
    }

    /// Whether the text is in the set.
    pub fn contains(&self, text: &str) -> (r: bool)
        ensures
            r == self@.contains(text@),
    {
        self.map.contains_key(text)
    }

    /// The number of texts.
    pub fn len(&self) -> (r: usize)
        ensures
            r == self@.len(),
    {
        let n: usize = self.map.len();
        proof {
            lemma_entries_count(self.map.entries());
        }
        n
    }
}

} // verus!
