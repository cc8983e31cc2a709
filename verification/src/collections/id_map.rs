//! A map from identifiers to values.

use std::collections::HashMap;
use vstd::prelude::*;
use vstd::std_specs::hash::spec_keys_iter;
use vstd::std_specs::iter::IteratorSpec;

verus! {

broadcast use vstd::std_specs::hash::group_hash_axioms;

/// An identifier that wraps a 64-bit number.
pub trait Identifier: Copy {
    /// The number.
    spec fn number(self) -> u64;

    /// The identifier of a number.
    spec fn of_number(n: u64) -> Self;

    /// Identifiers and numbers correspond one to one.
    proof fn lemma_one_to_one(self, n: u64)
        ensures
            Self::of_number(self.number()) == self,
            Self::of_number(n).number() == n,
    ;

    /// The number of this identifier.
    fn to_number(self) -> (r: u64)
        ensures
            r == self.number(),
    ;

    /// The identifier of a number.
    fn from_number(n: u64) -> (r: Self)
        ensures
            r == Self::of_number(n),
    ;
}

/// A map from identifiers to values.
#[verifier::reject_recursive_types(K)]
pub struct IdMap<K: Identifier, V> {
    map: HashMap<u64, V>,
    kind: Ghost<Option<K>>,
}

impl<K: Identifier, V> View for IdMap<K, V> {
    type V = Map<K, V>;

    closed spec fn view(&self) -> Map<K, V> {
        Map::new(
            |k: K| self.map@.contains_key(k.number()),
            |k: K| self.map@[k.number()],
        )
    }
}

impl<K: Identifier, V> IdMap<K, V> {
    proof fn lemma_numbers_differ(a: K, b: K)
        ensures
            a.number() == b.number() <==> a == b,
    {
        a.lemma_one_to_one(0);
        b.lemma_one_to_one(0);
    }

    proof fn lemma_insert(before: Map<u64, V>, k: K, v: V)
        ensures
            Map::new(
                |j: K| before.insert(k.number(), v).contains_key(j.number()),
                |j: K| before.insert(k.number(), v)[j.number()],
            ) == Map::new(
                |j: K| before.contains_key(j.number()),
                |j: K| before[j.number()],
            ).insert(k, v),
    {
        assert forall|j: K| #[trigger] j.number() == k.number() <==> j == k by {
            Self::lemma_numbers_differ(j, k);
        }
        assert(Map::new(
            |j: K| before.insert(k.number(), v).contains_key(j.number()),
            |j: K| before.insert(k.number(), v)[j.number()],
        ) =~= Map::new(|j: K| before.contains_key(j.number()), |j: K| before[j.number()]).insert(
            k,
            v,
        ));
    }

    proof fn lemma_remove(before: Map<u64, V>, k: K)
        ensures
            Map::new(
                |j: K| before.remove(k.number()).contains_key(j.number()),
                |j: K| before.remove(k.number())[j.number()],
            ) == Map::new(
                |j: K| before.contains_key(j.number()),
                |j: K| before[j.number()],
            ).remove(k),
    {
        assert forall|j: K| #[trigger] j.number() == k.number() <==> j == k by {
            Self::lemma_numbers_differ(j, k);
        }
        assert(Map::new(
            |j: K| before.remove(k.number()).contains_key(j.number()),
            |j: K| before.remove(k.number())[j.number()],
        ) =~= Map::new(|j: K| before.contains_key(j.number()), |j: K| before[j.number()]).remove(
            k,
        ));
    }

    /// A map in memory is finite.
    pub proof fn lemma_finite(&self)
        ensures
            self@.dom().finite(),
    {
        self.lemma_len();
    }

    proof fn lemma_len(&self)
        ensures
            self@.dom().finite(),
            self@.len() == self.map@.len(),
    {
        let f = |n: u64| K::of_number(n);
        let numbers = self.map@.dom();
        assert forall|a: u64, b: u64| #[trigger] f(a) == #[trigger] f(b) implies a == b by {
            K::of_number(0).lemma_one_to_one(a);
            K::of_number(0).lemma_one_to_one(b);
        }
        assert forall|k: K| self@.dom().contains(k) == numbers.map(f).contains(k) by {
            k.lemma_one_to_one(0);
            if self@.dom().contains(k) {
                assert(numbers.contains(k.number()) && f(k.number()) == k);
            }
            if numbers.map(f).contains(k) {
                let n = choose|n: u64| numbers.contains(n) && f(n) == k;
                k.lemma_one_to_one(n);
            }
        }
        assert(numbers.map(f) =~= self@.dom());
        vstd::set_lib::lemma_map_size(numbers, self@.dom(), f);
    }

    /// The map without entries.
    pub fn new() -> (r: IdMap<K, V>)
        ensures
            r@ == Map::<K, V>::empty(),
    {
        let r = IdMap { map: HashMap::new(), kind: Ghost(None) };
        assert(r@ =~= Map::<K, V>::empty());
        r
    }

    /// The number of entries.
    pub fn len(&self) -> (r: usize)
        ensures
            r == self@.len(),
            self@.dom().finite(),
    {
        proof {
            self.lemma_len();
        }
        self.map.len()
    }

    /// The value of an identifier.
    pub fn get(&self, id: K) -> (r: Option<&V>)
        ensures
            match r {
                Some(v) => self@.contains_key(id) && *v == self@[id],
                None => !self@.contains_key(id),
            },
    {
        self.map.get(&id.to_number())
    }

    /// Whether the identifier has a value.
    pub fn contains_key(&self, id: K) -> (r: bool)
        ensures
            r == self@.contains_key(id),
    {
        self.map.contains_key(&id.to_number())
    }

    /// Gives the identifier a value, in place of any it had.
    pub fn insert(&mut self, id: K, value: V)
        ensures
            final(self)@ == old(self)@.insert(id, value),
    {
        proof {
            Self::lemma_insert(self.map@, id, value);
        }
        self.map.insert(id.to_number(), value);
    }

    /// Takes the identifier and its value out.
    pub fn remove(&mut self, id: K) -> (r: Option<V>)
        ensures
            final(self)@ == old(self)@.remove(id),
            match r {
                Some(v) => old(self)@.contains_key(id) && v == old(self)@[id],
                None => !old(self)@.contains_key(id),
            },
    {
        proof {
            Self::lemma_remove(self.map@, id);
        }
        self.map.remove(&id.to_number())
    }

    /// The identifiers, each once, in no particular order.
    pub fn keys(&self) -> (r: Vec<K>)
        ensures
            r@.no_duplicates(),
            r@.to_set() == self@.dom(),
            r@.len() == self@.len(),
            self@.dom().finite(),
    {
        let mut out: Vec<K> = Vec::new();
        let ghost all = spec_keys_iter(&self.map).remaining().unref();
        for k in it: self.map.keys()
            invariant
                it.seq().unref() == all,
                out.len() == it.index(),
                forall|i: int| 0 <= i < out.len() ==> #[trigger] out[i] == K::of_number(all[i]),
        {
            out.push(K::from_number(*k));
        }
        proof {
            assert(spec_keys_iter(&self.map).remaining().no_duplicates());
            assert(all.no_duplicates());
            assert forall|i: int, j: int| 0 <= i < out.len() && 0 <= j < out.len() && i
                != j implies out[i] != out[j] by {
                K::of_number(0).lemma_one_to_one(all[i]);
                K::of_number(0).lemma_one_to_one(all[j]);
            }
            assert forall|k: K| #[trigger] out@.to_set().contains(k) <==> self@.dom().contains(k) by {
                k.lemma_one_to_one(0);
                if out@.to_set().contains(k) {
                    let i = choose|i: int| 0 <= i < out.len() && out[i] == k;
                    k.lemma_one_to_one(all[i]);
                    assert(all.to_set().contains(all[i]));
                    assert(self.map@.dom().contains(k.number()));
                }
                if self@.dom().contains(k) {
                    assert(self.map@.dom().contains(k.number()));
                    assert(all.to_set().contains(k.number()));
                    let i = choose|i: int| 0 <= i < all.len() && all[i] == k.number();
                    assert(out[i] == k);
                    assert(out@.contains(k));
                }
            }
            assert(out@.to_set() =~= self@.dom());
            out@.unique_seq_to_set();
        }
        out
    }

    /// Removes every entry.
    pub fn clear(&mut self)
        ensures
            final(self)@ == Map::<K, V>::empty(),
    {
        self.map.clear();
        assert(self@ =~= Map::<K, V>::empty());
    }
}

} // verus!
