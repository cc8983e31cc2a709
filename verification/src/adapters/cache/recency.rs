//! A bounded store that remembers in which order its entries were last used.

use crate::collections::entries::{
    distinct_keys, entries_map, lemma_distinct_push, lemma_entries_map_at,
    lemma_entries_map_contains, lemma_entries_map_remove,
};
use crate::collections::id_map::Identifier;
use vstd::prelude::*;

verus! {

/// The position of the last entry with the given key, or -1.
pub open spec fn key_index<K, W>(s: Seq<(K, W)>, k: K) -> int
    decreases s.len(),
{
    if s.len() == 0 {
        -1
    } else if s.last().0 == k {
        s.len() - 1
    } else {
        key_index(s.drop_last(), k)
    }
}

/// The entries after one of them was used: it moves to the end.
pub open spec fn used<K, W>(s: Seq<(K, W)>, k: K) -> Seq<(K, W)> {
    let i = key_index(s, k);
    if i < 0 {
        s
    } else {
        s.remove(i).push(s[i])
    }
}

/// The entries after one was stored at the end. Where the key is new and the
/// store is full, the entry at the front, the least recently used, goes.
pub open spec fn stored<K, W>(s: Seq<(K, W)>, capacity: nat, k: K, w: W) -> Seq<(K, W)> {
    let i = key_index(s, k);
    if i >= 0 {
        s.remove(i).push((k, w))
    } else if s.len() >= capacity {
        s.drop_first().push((k, w))
    } else {
        s.push((k, w))
    }
}

/// The entries without the given key.
pub open spec fn dropped<K, W>(s: Seq<(K, W)>, k: K) -> Seq<(K, W)> {
    let i = key_index(s, k);
    if i < 0 {
        s
    } else {
        s.remove(i)
    }
}

pub proof fn lemma_key_index<K, W>(s: Seq<(K, W)>, k: K)
    ensures
        -1 <= key_index(s, k) < s.len(),
        key_index(s, k) >= 0 ==> s[key_index(s, k)].0 == k,
        key_index(s, k) < 0 ==> forall|i: int| 0 <= i < s.len() ==> #[trigger] s[i].0 != k,
        key_index(s, k) >= 0 <==> entries_map(s).contains_key(k),
    decreases s.len(),
{
    lemma_entries_map_contains(s, k);
    if s.len() > 0 && s.last().0 != k {
        let t = s.drop_last();
        lemma_key_index(t, k);
        if key_index(t, k) < 0 {
            assert forall|i: int| 0 <= i < s.len() implies #[trigger] s[i].0 != k by {
                if i < t.len() {
                    assert(t[i].0 != k);
                }
            }
        } else {
            assert(s[key_index(t, k)].0 == k);
        }
    } else if s.len() > 0 {
        assert(s[s.len() - 1].0 == k);
    }
}

proof fn lemma_key_index_unique<K, W>(s: Seq<(K, W)>, k: K, i: int)
    requires
        distinct_keys(s),
        0 <= i < s.len(),
        s[i].0 == k,
    ensures
        key_index(s, k) == i,
{
    lemma_key_index(s, k);
    let j = key_index(s, k);
    if i < j {
        assert(s[i].0 != s[j].0);
    } else if j < i && j >= 0 {
        assert(s[j].0 != s[i].0);
    }
}

proof fn lemma_absent_after_remove<K, W>(s: Seq<(K, W)>, i: int)
    requires
        distinct_keys(s),
        0 <= i < s.len(),
    ensures
        forall|j: int| 0 <= j < s.remove(i).len() ==> #[trigger] s.remove(i)[j].0 != s[i].0,
{
    let u = s.remove(i);
    assert forall|j: int| 0 <= j < u.len() implies #[trigger] u[j].0 != s[i].0 by {
        if j < i {
            assert(s[j].0 != s[i].0);
        } else {
            assert(s[i].0 != s[j + 1].0);
        }
    }
}

/// Using an entry keeps the contents.
pub proof fn lemma_used<K, W>(s: Seq<(K, W)>, k: K)
    requires
        distinct_keys(s),
    ensures
        distinct_keys(used(s, k)),
        entries_map(used(s, k)) == entries_map(s),
        used(s, k).len() == s.len(),
{
    lemma_key_index(s, k);
    let i = key_index(s, k);
    if i >= 0 {
        let u = s.remove(i);
        lemma_entries_map_remove(s, i);
        lemma_absent_after_remove(s, i);
        lemma_distinct_push(u, s[i].0, s[i].1);
        lemma_entries_map_at(s, i);
        assert(u.push(s[i]).drop_last() =~= u);
        assert(u.push(s[i]) =~= u.push((s[i].0, s[i].1)));
        assert(entries_map(used(s, k)) =~= entries_map(s));
    }
}

/// Storing an entry leaves it and, at most, what was there before.
pub proof fn lemma_stored<K, W>(s: Seq<(K, W)>, capacity: nat, k: K, w: W)
    requires
        distinct_keys(s),
        capacity > 0,
        s.len() <= capacity,
    ensures
        distinct_keys(stored(s, capacity, k, w)),
        stored(s, capacity, k, w).len() <= capacity,
        crate::ports::cache::within_insert(
            entries_map(stored(s, capacity, k, w)),
            entries_map(s),
            k,
            w,
        ),
        entries_map(stored(s, capacity, k, w)).contains_key(k),
{
    lemma_key_index(s, k);
    let i = key_index(s, k);
    let base = if i >= 0 {
        s.remove(i)
    } else if s.len() >= capacity {
        s.drop_first()
    } else {
        s
    };
    let r = stored(s, capacity, k, w);
    assert(r.drop_last() =~= base);
    if i >= 0 {
        lemma_entries_map_remove(s, i);
        lemma_absent_after_remove(s, i);
    } else if s.len() >= capacity {
        assert(s.drop_first() =~= s.remove(0));
        lemma_entries_map_remove(s, 0);
        assert forall|j: int| 0 <= j < base.len() implies #[trigger] base[j].0 != k by {
            assert(base[j] == s[j + 1]);
        }
    }
    lemma_distinct_push(base, k, w);
}

/// Dropping an entry takes its key out of the contents.
pub proof fn lemma_dropped<K, W>(s: Seq<(K, W)>, k: K)
    requires
        distinct_keys(s),
    ensures
        distinct_keys(dropped(s, k)),
        entries_map(dropped(s, k)) == entries_map(s).remove(k),
        dropped(s, k).len() <= s.len(),
{
    lemma_key_index(s, k);
    let i = key_index(s, k);
    if i >= 0 {
        lemma_entries_map_remove(s, i);
    } else {
        assert(entries_map(s).remove(k) =~= entries_map(s));
    }
}

/// Entries ordered from the least to the most recently used.
pub struct RecencyStore<K: Identifier, V: View> {
    capacity: usize,
    pairs: Vec<(K, V)>,
}

impl<K: Identifier, V: View> RecencyStore<K, V> {
    /// The entries, the least recently used first.
    pub closed spec fn entries(&self) -> Seq<(K, V::V)> {
        Seq::new(self.pairs.len() as nat, |i: int| (self.pairs[i].0, self.pairs[i].1@))
    }

    /// How many entries the store holds at most.
    pub closed spec fn limit(&self) -> nat {
        self.capacity as nat
    }

    /// The contents.
    pub open spec fn contents(&self) -> Map<K, V::V> {
        entries_map(self.entries())
    }

    /// No key occurs twice and the capacity is kept.
    pub open spec fn valid(&self) -> bool {
        distinct_keys(self.entries()) && self.entries().len() <= self.limit() && self.limit() > 0
    }

    /// A store without entries.
    pub fn new(capacity: usize) -> (r: RecencyStore<K, V>)
        requires
            capacity > 0,
        ensures
            r.valid(),
            r.limit() == capacity,
            r.entries() == Seq::<(K, V::V)>::empty(),
    {
        let r = RecencyStore { capacity, pairs: Vec::new() };
        assert(r.entries() =~= Seq::empty());
        r
    }

    fn find(&self, id: K) -> (r: Option<usize>)
        requires
            self.valid(),
        ensures
            match r {
                Some(i) => i < self.pairs.len() && key_index(self.entries(), id) == i,
                None => key_index(self.entries(), id) < 0,
            },
    {
        let mut i: usize = 0;
        while i < self.pairs.len()
            invariant
                i <= self.pairs.len(),
                self.valid(),
                forall|j: int| 0 <= j < i ==> #[trigger] self.entries()[j].0 != id,
            decreases self.pairs.len() - i,
        {
            proof {
                self.pairs[i as int].0.lemma_one_to_one(0);
                id.lemma_one_to_one(0);
            }
            if self.pairs[i].0.to_number() == id.to_number() {
                proof {
                    lemma_key_index_unique(self.entries(), id, i as int);
                }
                return Some(i);
            }
            i += 1;
        }
        proof {
            lemma_key_index(self.entries(), id);
        }
        None
    }

    /// Uses an entry: it becomes the most recent.
    pub fn touch(&mut self, id: K) -> (r: bool)
        requires
            old(self).valid(),
        ensures
            final(self).valid(),
            final(self).limit() == old(self).limit(),
            final(self).entries() == used(old(self).entries(), id),
            final(self).contents() == old(self).contents(),
            r == old(self).contents().contains_key(id),
            r ==> final(self).entries().len() > 0 && final(self).entries().last() == (
                id,
                old(self).contents()[id],
            ),
    {
        let ghost before = self.entries();
        proof {
            lemma_used(before, id);
            lemma_key_index(before, id);
        }
        match self.find(id) {
            Some(i) => {
                proof {
                    lemma_entries_map_at(before, i as int);
                }
                let pair = self.pairs.remove(i);
                self.pairs.push(pair);
                assert(self.entries() =~= used(before, id));
                true
            },
            None => false,
        }
    }

    /// The most recently used value.
    pub fn most_recent(&self) -> (r: &V)
        requires
            self.entries().len() > 0,
        ensures
            r@ == self.entries().last().1,
    {
        &self.pairs[self.pairs.len() - 1].1
    }

    /// Stores a value as the most recent. A full store first lets go of the
    /// least recently used entry.
    pub fn put(&mut self, id: K, value: V)
        requires
            old(self).valid(),
        ensures
            final(self).valid(),
            final(self).limit() == old(self).limit(),
            final(self).entries() == stored(old(self).entries(), old(self).limit(), id, value@),
            crate::ports::cache::within_insert(
                final(self).contents(),
                old(self).contents(),
                id,
                value@,
            ),
            final(self).contents().contains_key(id),
    {
        let ghost before = self.entries();
        let ghost w = value@;
        proof {
            lemma_stored(before, self.limit(), id, w);
        }
        match self.find(id) {
            Some(i) => {
                self.pairs.remove(i);
            },
            None => {
                if self.pairs.len() >= self.capacity {
                    self.pairs.remove(0);
                }
            },
        }
        self.pairs.push((id, value));
        assert(self.entries() =~= stored(before, self.limit(), id, w));
    }

    /// Takes an entry out.
    pub fn drop_entry(&mut self, id: K)
        requires
            old(self).valid(),
        ensures
            final(self).valid(),
            final(self).limit() == old(self).limit(),
            final(self).entries() == dropped(old(self).entries(), id),
            final(self).contents() == old(self).contents().remove(id),
    {
        let ghost before = self.entries();
        proof {
            lemma_dropped(before, id);
        }
        match self.find(id) {
            Some(i) => {
                self.pairs.remove(i);
                assert(self.entries() =~= before.remove(i as int));
            },
            None => {},
        }
    }

    /// Takes all entries out.
    pub fn clear(&mut self)
        requires
            old(self).valid(),
        ensures
            final(self).valid(),
            final(self).limit() == old(self).limit(),
            final(self).entries() == Seq::<(K, V::V)>::empty(),
    {
        self.pairs.clear();
        assert(self.entries() =~= Seq::empty());
    }
}

/// An entry that is used stands at the end afterwards, and the others keep their order;
/// where no entry has the key, nothing changes.
pub proof fn law_used_entry_is_latest<K, W>(s: Seq<(K, W)>, k: K, i: int)
    requires
        distinct_keys(s),
    ensures
        0 <= i < s.len() && s[i].0 == k ==> {
            let r = used(s, k);
            &&& r.len() == s.len()
            &&& r.last() == s[i]
            &&& forall|j: int| 0 <= j < i ==> #[trigger] r[j] == s[j]
            &&& forall|j: int| i <= j < s.len() - 1 ==> #[trigger] r[j] == s[j + 1]
        },
        (forall|j: int| 0 <= j < s.len() ==> (#[trigger] s[j]).0 != k) ==> used(s, k) == s,
{
    lemma_key_index(s, k);
    if 0 <= i < s.len() && s[i].0 == k {
        lemma_key_index_unique(s, k, i);
    }
}

/// An entry that is stored stands at the end. It takes the place of the one with its key;
/// where there is none, the others stay, but that the first leaves a full store.
pub proof fn law_stored_entry_is_latest<K, W>(s: Seq<(K, W)>, capacity: nat, k: K, w: W, i: int)
    requires
        distinct_keys(s),
        0 < s.len() <= capacity,
    ensures
        stored(s, capacity, k, w).len() > 0,
        stored(s, capacity, k, w).last() == (k, w),
        0 <= i < s.len() && s[i].0 == k ==> {
            let r = stored(s, capacity, k, w);
            &&& r.len() == s.len()
            &&& forall|j: int| 0 <= j < i ==> #[trigger] r[j] == s[j]
            &&& forall|j: int| i <= j < s.len() - 1 ==> #[trigger] r[j] == s[j + 1]
        },
        (forall|j: int| 0 <= j < s.len() ==> (#[trigger] s[j]).0 != k) ==> {
            let r = stored(s, capacity, k, w);
            if s.len() == capacity {
                r.len() == s.len() && forall|j: int|
                    0 <= j < s.len() - 1 ==> #[trigger] r[j] == s[j + 1]
            } else {
                r.len() == s.len() + 1 && forall|j: int| 0 <= j < s.len() ==> #[trigger] r[j] == s[j]
            }
        },
{
    lemma_key_index(s, k);
    if 0 <= i < s.len() && s[i].0 == k {
        lemma_key_index_unique(s, k, i);
    }
}

/// Dropping a key takes its entry out and leaves the others in order.
pub proof fn law_dropped_entry_is_gone<K, W>(s: Seq<(K, W)>, k: K, i: int)
    requires
        distinct_keys(s),
    ensures
        0 <= i < s.len() && s[i].0 == k ==> {
            let r = dropped(s, k);
            &&& r.len() == s.len() - 1
            &&& forall|j: int| 0 <= j < i ==> #[trigger] r[j] == s[j]
            &&& forall|j: int| i <= j < s.len() - 1 ==> #[trigger] r[j] == s[j + 1]
        },
        (forall|j: int| 0 <= j < s.len() ==> (#[trigger] s[j]).0 != k) ==> dropped(s, k) == s,
{
    lemma_key_index(s, k);
    if 0 <= i < s.len() && s[i].0 == k {
        lemma_key_index_unique(s, k, i);
    }
}

} // verus!
