//! A map from text to values.

use crate::collections::entries::{
    distinct_keys, entries_map, lemma_distinct_push, lemma_entries_map_at,
    lemma_entries_map_contains, lemma_entries_map_remove, lemma_entries_map_update,
};
use crate::model::value::Value;
use crate::text::same_text;
use vstd::prelude::*;

verus! {

/// The entries of a list of pairs.
spec fn pair_entries<V: View>(pairs: Seq<(String, V)>) -> Seq<(Seq<char>, V::V)> {
    Seq::new(pairs.len(), |i: int| (pairs[i].0@, pairs[i].1@))
}

/// A map from text to values that remembers the order in which its keys came.
#[derive(Debug)]
pub struct StringMap<V: View> {
    pairs: Vec<(String, V)>,
}

impl<V: View> View for StringMap<V> {
    type V = Map<Seq<char>, V::V>;

    open spec fn view(&self) -> Map<Seq<char>, V::V> {
        entries_map(self.entries())
    }
}

impl<V: View> StringMap<V> {
    /// The entries in order.
    pub closed spec fn entries(&self) -> Seq<(Seq<char>, V::V)> {
        pair_entries(self.pairs@)
    }

    /// No key occurs twice.
    #[verifier::type_invariant]
    spec fn keys_distinct(self) -> bool {
        distinct_keys(self.entries())
    }

    /// The map without entries.
    pub fn new() -> (r: StringMap<V>)
        ensures
            r@ == Map::<Seq<char>, V::V>::empty(),
            r.entries() == Seq::<(Seq<char>, V::V)>::empty(),
    {
        let r = StringMap { pairs: Vec::new() };
        assert(r.entries() =~= Seq::empty());
        r
    }

    /// The number of entries.
    pub fn len(&self) -> (r: usize)
        ensures
            r == self.entries().len(),
            distinct_keys(self.entries()),
    {
        proof {
            use_type_invariant(self);
        }
        self.pairs.len()
    }

    /// The key of entry `i`.
    pub fn key_at(&self, i: usize) -> (r: &String)
        requires
            i < self.entries().len(),
        ensures
            r@ == self.entries()[i as int].0,
    {
        &self.pairs[i].0
    }

    /// The value of entry `i`.
    pub fn value_at(&self, i: usize) -> (r: &V)
        requires
            i < self.entries().len(),
        ensures
            r@ == self.entries()[i as int].1,
    {
        &self.pairs[i].1
    }

    fn take_pairs(&mut self) -> (r: Vec<(String, V)>)
        ensures
            r@ == old(self).pairs@,
    {
        let mut taken = StringMap { pairs: Vec::new() };
        core::mem::swap(self, &mut taken);
        taken.pairs
    }

    fn find(&self, key: &str) -> (r: Option<usize>)
        ensures
            match r {
                Some(i) => i < self.entries().len() && self.entries()[i as int].0 == key@,
                None => forall|i: int|
                    0 <= i < self.entries().len() ==> #[trigger] self.entries()[i].0 != key@,
            },
    {
        let mut i: usize = 0;
        while i < self.pairs.len()
            invariant
                i <= self.pairs.len(),
                forall|j: int| 0 <= j < i ==> #[trigger] self.entries()[j].0 != key@,
            decreases self.pairs.len() - i,
        {
            if same_text(self.pairs[i].0.as_str(), key) {
                return Some(i);
            }
            i += 1;
        }
        None
    }

    /// The value of a key.
    pub fn get(&self, key: &str) -> (r: Option<&V>)
        ensures
            match r {
                Some(v) => self@.contains_key(key@) && v@ == self@[key@],
                None => !self@.contains_key(key@),
            },
    {
        proof {
            use_type_invariant(self);
            lemma_entries_map_contains(self.entries(), key@);
        }
        match self.find(key) {
            Some(i) => {
                proof {
                    lemma_entries_map_at(self.entries(), i as int);
                }
                Some(&self.pairs[i].1)
            },
            None => None,
        }
    }

    /// Whether the key has a value.
    pub fn contains_key(&self, key: &str) -> (r: bool)
        ensures
            r == self@.contains_key(key@),
    {
        self.get(key).is_some()
    }

    /// The keys, each once.
    pub fn keys(&self) -> (r: Vec<String>)
        ensures
            r.len() == self.entries().len(),
            forall|i: int| 0 <= i < r.len() ==> #[trigger] r[i]@ == self.entries()[i].0,
            forall|i: int, j: int| 0 <= i < j < r.len() ==> #[trigger] r[i]@ != #[trigger] r[j]@,
            forall|i: int| 0 <= i < r.len() ==> self@.contains_key(#[trigger] r[i]@),
            forall|k: Seq<char>| #[trigger]
                self@.contains_key(k) ==> exists|i: int| 0 <= i < r.len() && #[trigger] r[i]@ == k,
    {
        proof {
            use_type_invariant(self);
        }
        let mut out: Vec<String> = Vec::new();
        let mut i: usize = 0;
        while i < self.pairs.len()
            invariant
                i <= self.pairs.len(),
                out.len() == i,
                forall|j: int| 0 <= j < i ==> #[trigger] out[j]@ == self.entries()[j].0,
            decreases self.pairs.len() - i,
        {
            let key = self.pairs[i].0.clone();
            out.push(key);
            i += 1;
        }
        proof {
            assert forall|a: int, b: int| 0 <= a < b < out.len() implies #[trigger] out[a]@
                != #[trigger] out[b]@ by {
                assert(self.entries()[a].0 != self.entries()[b].0);
            }
            assert forall|j: int| 0 <= j < out.len() implies self@.contains_key(
                #[trigger] out[j]@,
            ) by {
                lemma_entries_map_at(self.entries(), j);
            }
            assert forall|k: Seq<char>| #[trigger] self@.contains_key(k) implies exists|j: int|
                0 <= j < out.len() && #[trigger] out[j]@ == k by {
                lemma_entries_map_contains(self.entries(), k);
                let j = choose|j: int|
                    0 <= j < self.entries().len() && #[trigger] self.entries()[j].0 == k;
                assert(out[j]@ == k);
            }
        }
        out
    }

    /// Gives the key a value, in place of any it had.
    pub fn insert(&mut self, key: String, value: V)
        ensures
            final(self)@ == old(self)@.insert(key@, value@),
    {
        proof {
            use_type_invariant(&*self);
        }
        let ghost before = self.entries();
        let ghost k = key@;
        let ghost w = value@;
        match self.find(key.as_str()) {
            Some(i) => {
                proof {
                    lemma_entries_map_update(before, i as int, w);
                }
                let mut pairs = self.take_pairs();
                pairs[i] = (key, value);
                assert(pair_entries(pairs@) =~= before.update(i as int, (k, w)));
                *self = StringMap { pairs };
            },
            None => {
                proof {
                    lemma_distinct_push(before, k, w);
                }
                let mut pairs = self.take_pairs();
                pairs.push((key, value));
                assert(pair_entries(pairs@) =~= before.push((k, w)));
                *self = StringMap { pairs };
                assert(before.push((k, w)).drop_last() =~= before);
            },
        }
    }

    /// Takes the key and its value out.
    pub fn remove(&mut self, key: &str) -> (r: Option<V>)
        ensures
            final(self)@ == old(self)@.remove(key@),
            match r {
                Some(v) => old(self)@.contains_key(key@) && v@ == old(self)@[key@],
                None => !old(self)@.contains_key(key@),
            },
    {
        proof {
            use_type_invariant(&*self);
            lemma_entries_map_contains(self.entries(), key@);
        }
        let ghost before = self.entries();
        match self.find(key) {
            Some(i) => {
                proof {
                    lemma_entries_map_remove(before, i as int);
                    lemma_entries_map_at(before, i as int);
                }
                let mut pairs = self.take_pairs();
                let pair = pairs.remove(i);
                assert(pair_entries(pairs@) =~= before.remove(i as int));
                *self = StringMap { pairs };
                Some(pair.1)
            },
            None => {
                assert(self@ =~= self@.remove(key@));
                None
            },
        }
    }
}

impl StringMap<Value> {
    /// A copy of the map.
    pub fn clone(&self) -> (r: StringMap<Value>)
        ensures
            r@ == self@,
            r.entries() == self.entries(),
    {
        proof {
            use_type_invariant(self);
        }
        let n: usize = self.pairs.len();
        let mut pairs: Vec<(String, Value)> = Vec::new();
        let mut i: usize = 0;
        while i < n
            invariant
                i <= n,
                n == self.pairs.len(),
                pairs.len() == i,
                forall|j: int|
                    0 <= j < i ==> #[trigger] pairs[j].0@ == self.pairs[j].0@ && pairs[j].1@
                        == self.pairs[j].1@,
            decreases n - i,
        {
            let key = self.pairs[i].0.clone();
            let value = self.pairs[i].1.clone();
            pairs.push((key, value));
            i += 1;
        }
        assert(pair_entries(pairs@) =~= self.entries());
        StringMap { pairs }
    }
}

} // verus!
