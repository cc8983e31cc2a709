//! Lists of keys and values, and the maps that they denote.

use vstd::prelude::*;

verus! {

/// The map that a list of entries denotes: a later entry replaces an earlier
/// one of the same key.
pub open spec fn entries_map<K, W>(s: Seq<(K, W)>) -> Map<K, W>
    decreases s.len(),
{
    if s.len() == 0 {
        Map::empty()
    } else {
        entries_map(s.drop_last()).insert(s.last().0, s.last().1)
    }
}

/// Whether no key occurs twice.
pub open spec fn distinct_keys<K, W>(s: Seq<(K, W)>) -> bool {
    forall|i: int, j: int| 0 <= i < j < s.len() ==> #[trigger] s[i].0 != #[trigger] s[j].0
}

/// The keys of the map are those of the entries.
pub proof fn lemma_entries_map_contains<K, W>(s: Seq<(K, W)>, k: K)
    ensures
        entries_map(s).contains_key(k) <==> exists|i: int| 0 <= i < s.len() && #[trigger] s[i].0 == k,
    decreases s.len(),
{
    if s.len() > 0 {
        let t = s.drop_last();
        lemma_entries_map_contains(t, k);
        if entries_map(t).contains_key(k) {
            let i = choose|i: int| 0 <= i < t.len() && #[trigger] t[i].0 == k;
            assert(s[i].0 == k);
        }
        if exists|i: int| 0 <= i < s.len() && #[trigger] s[i].0 == k {
            let i = choose|i: int| 0 <= i < s.len() && #[trigger] s[i].0 == k;
            if i < t.len() {
                assert(t[i].0 == k);
            }
        }
    }
}

/// Where no key occurs twice, each entry is in the map.
pub proof fn lemma_entries_map_at<K, W>(s: Seq<(K, W)>, i: int)
    requires
        distinct_keys(s),
        0 <= i < s.len(),
    ensures
        entries_map(s).contains_key(s[i].0),
        entries_map(s)[s[i].0] == s[i].1,
    decreases s.len(),
{
    if i < s.len() - 1 {
        let t = s.drop_last();
        assert(t[i] == s[i]);
        assert forall|a: int, b: int| 0 <= a < b < t.len() implies #[trigger] t[a].0
            != #[trigger] t[b].0 by {
            assert(s[a].0 != s[b].0);
        }
        lemma_entries_map_at(t, i);
        assert(s[i].0 != s[s.len() - 1].0);
    }
}

pub proof fn lemma_entries_map_update<K, W>(s: Seq<(K, W)>, i: int, w: W)
    requires
        distinct_keys(s),
        0 <= i < s.len(),
    ensures
        entries_map(s.update(i, (s[i].0, w))) == entries_map(s).insert(s[i].0, w),
        distinct_keys(s.update(i, (s[i].0, w))),
{
    let u = s.update(i, (s[i].0, w));
    assert forall|a: int, b: int| 0 <= a < b < u.len() implies #[trigger] u[a].0
        != #[trigger] u[b].0 by {
        assert(s[a].0 != s[b].0);
    }
    let left = entries_map(u);
    let right = entries_map(s).insert(s[i].0, w);
    assert forall|k: K| left.contains_key(k) == right.contains_key(k) by {
        lemma_entries_map_contains(u, k);
        lemma_entries_map_contains(s, k);
        if exists|j: int| 0 <= j < u.len() && #[trigger] u[j].0 == k {
            let j = choose|j: int| 0 <= j < u.len() && #[trigger] u[j].0 == k;
            assert(s[j].0 == k);
        }
        if exists|j: int| 0 <= j < s.len() && #[trigger] s[j].0 == k {
            let j = choose|j: int| 0 <= j < s.len() && #[trigger] s[j].0 == k;
            assert(u[j].0 == k);
        }
        assert(u[i].0 == s[i].0);
    }
    assert forall|k: K| left.contains_key(k) implies left[k] == right[k] by {
        lemma_entries_map_contains(u, k);
        let j = choose|j: int| 0 <= j < u.len() && #[trigger] u[j].0 == k;
        lemma_entries_map_at(u, j);
        lemma_entries_map_at(s, j);
        if j != i {
            assert(s[j].0 != s[i].0);
        }
    }
    assert(left =~= right);
}

pub proof fn lemma_entries_map_remove<K, W>(s: Seq<(K, W)>, i: int)
    requires
        distinct_keys(s),
        0 <= i < s.len(),
    ensures
        entries_map(s.remove(i)) == entries_map(s).remove(s[i].0),
        distinct_keys(s.remove(i)),
{
    let u = s.remove(i);
    assert forall|a: int, b: int| 0 <= a < b < u.len() implies #[trigger] u[a].0
        != #[trigger] u[b].0 by {
        let a2 = if a < i { a } else { a + 1 };
        let b2 = if b < i { b } else { b + 1 };
        assert(s[a2].0 != s[b2].0);
    }
    let left = entries_map(u);
    let right = entries_map(s).remove(s[i].0);
    assert forall|k: K| left.contains_key(k) == right.contains_key(k) by {
        lemma_entries_map_contains(u, k);
        lemma_entries_map_contains(s, k);
        if exists|j: int| 0 <= j < u.len() && #[trigger] u[j].0 == k {
            let j = choose|j: int| 0 <= j < u.len() && #[trigger] u[j].0 == k;
            let j2 = if j < i { j } else { j + 1 };
            assert(s[j2].0 == k);
            assert(s[j2].0 != s[i].0);
        }
        if right.contains_key(k) {
            let j = choose|j: int| 0 <= j < s.len() && #[trigger] s[j].0 == k;
            let j2 = if j < i { j } else { j - 1 };
            assert(u[j2].0 == k);
        }
    }
    assert forall|k: K| left.contains_key(k) implies left[k] == right[k] by {
        lemma_entries_map_contains(u, k);
        let j = choose|j: int| 0 <= j < u.len() && #[trigger] u[j].0 == k;
        lemma_entries_map_at(u, j);
        let j2 = if j < i { j } else { j + 1 };
        lemma_entries_map_at(s, j2);
    }
    assert(left =~= right);
}

pub proof fn lemma_distinct_push<K, W>(s: Seq<(K, W)>, k: K, w: W)
    requires
        distinct_keys(s),
        forall|i: int| 0 <= i < s.len() ==> #[trigger] s[i].0 != k,
    ensures
        distinct_keys(s.push((k, w))),
{
    let t = s.push((k, w));
    assert forall|a: int, b: int| 0 <= a < b < t.len() implies #[trigger] t[a].0
        != #[trigger] t[b].0 by {
        assert(t[a] == s[a]);
        if b < s.len() {
            assert(t[b] == s[b]);
        }
    }
}

/// Where no key occurs twice, the map has as many keys as there are entries.
pub proof fn lemma_entries_count<K, W>(s: Seq<(K, W)>)
    requires
        distinct_keys(s),
    ensures
        entries_map(s).dom().finite(),
        entries_map(s).len() == s.len(),
    decreases s.len(),
{
    if s.len() > 0 {
        let t = s.drop_last();
        assert forall|a: int, b: int| 0 <= a < b < t.len() implies #[trigger] t[a].0
            != #[trigger] t[b].0 by {
            assert(s[a].0 != s[b].0);
        }
        lemma_entries_count(t);
        lemma_entries_map_contains(t, s.last().0);
        if entries_map(t).contains_key(s.last().0) {
            let i = choose|i: int| 0 <= i < t.len() && #[trigger] t[i].0 == s.last().0;
            assert(s[i].0 != s[s.len() - 1].0);
        }
        assert(entries_map(s).dom() =~= entries_map(t).dom().insert(s.last().0));
    } else {
        assert(entries_map(s).dom() =~= Set::empty());
    }
}

} // verus!
