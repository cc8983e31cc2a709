//! Facts about filtered sequences.

use vstd::prelude::*;

verus! {

/// Filtering twice is filtering once by both conditions.
pub proof fn lemma_filter_twice<T>(s: Seq<T>, p: spec_fn(T) -> bool, q: spec_fn(T) -> bool, r: spec_fn(T) -> bool)
    requires
        forall|x: T| #[trigger] r(x) == (p(x) && q(x)),
    ensures
        s.filter(p).filter(q) == s.filter(r),
    decreases s.len(),
{
    reveal(Seq::filter);
    if s.len() > 0 {
        let t = s.drop_last();
        lemma_filter_twice(t, p, q, r);
        assert(r(s.last()) == (p(s.last()) && q(s.last())));
        if p(s.last()) {
            assert(s.filter(p).drop_last() =~= t.filter(p));
            assert(s.filter(p).last() == s.last());
        }
    } else {
        assert(s.filter(p) =~= Seq::empty());
        assert(s.filter(r) =~= Seq::empty());
    }
}

/// Filtering depends on the condition's values alone.
pub proof fn lemma_filter_same<T>(s: Seq<T>, p: spec_fn(T) -> bool, q: spec_fn(T) -> bool)
    requires
        forall|x: T| #[trigger] p(x) == q(x),
    ensures
        s.filter(p) == s.filter(q),
    decreases s.len(),
{
    reveal(Seq::filter);
    if s.len() > 0 {
        lemma_filter_same(s.drop_last(), p, q);
        assert(p(s.last()) == q(s.last()));
    }
}

/// A condition that always holds filters nothing out.
pub proof fn lemma_filter_all<T>(s: Seq<T>, p: spec_fn(T) -> bool)
    requires
        forall|x: T| #[trigger] p(x),
    ensures
        s.filter(p) == s,
    decreases s.len(),
{
    reveal(Seq::filter);
    if s.len() > 0 {
        lemma_filter_all(s.drop_last(), p);
        assert(p(s.last()));
        assert(s.drop_last().push(s.last()) =~= s);
    }
}

/// What is left after filtering keeps its order.
pub proof fn lemma_filter_order<T>(s: Seq<T>, p: spec_fn(T) -> bool)
    ensures
        forall|i: int, j: int|
            0 <= i < j < s.filter(p).len() ==> exists|a: int, b: int|
                0 <= a < b < s.len() && s[a] == #[trigger] s.filter(p)[i] && s[b]
                    == #[trigger] s.filter(p)[j],
        forall|i: int|
            0 <= i < s.filter(p).len() ==> exists|a: int|
                0 <= a < s.len() && s[a] == #[trigger] s.filter(p)[i],
    decreases s.len(),
{
    reveal(Seq::filter);
    if s.len() > 0 {
        let t = s.drop_last();
        lemma_filter_order(t, p);
        let r = s.filter(p);
        let q = t.filter(p);
        assert forall|i: int| 0 <= i < r.len() implies exists|a: int|
            0 <= a < s.len() && s[a] == #[trigger] r[i] by {
            if i < q.len() {
                let a = choose|a: int| 0 <= a < t.len() && t[a] == q[i];
                assert(s[a] == r[i]);
            } else {
                assert(s[s.len() - 1] == r[i]);
            }
        }
        assert forall|i: int, j: int| 0 <= i < j < r.len() implies exists|a: int, b: int|
            0 <= a < b < s.len() && s[a] == #[trigger] r[i] && s[b] == #[trigger] r[j] by {
            if j < q.len() {
                let (a, b) = choose|a: int, b: int|
                    0 <= a < b < t.len() && t[a] == q[i] && t[b] == q[j];
                assert(s[a] == r[i] && s[b] == r[j]);
            } else {
                let a = choose|a: int| 0 <= a < t.len() && t[a] == q[i];
                assert(s[a] == r[i] && s[s.len() - 1] == r[j]);
            }
        }
    }
}

/// Filtering leaves the elements that meet the condition.
pub proof fn lemma_filter_contains<T>(s: Seq<T>, p: spec_fn(T) -> bool, x: T)
    ensures
        s.filter(p).contains(x) <==> s.contains(x) && p(x),
{
    broadcast use vstd::seq_lib::group_filter_ensures;

    let r = s.filter(p);
    if r.contains(x) {
        let i = choose|i: int| 0 <= i < r.len() && r[i] == x;
        assert(p(r[i]));
        lemma_filter_order(s, p);
        let a = choose|a: int| 0 <= a < s.len() && s[a] == r[i];
        assert(s[a] == x);
    }
    if s.contains(x) && p(x) {
        let i = choose|i: int| 0 <= i < s.len() && s[i] == x;
        assert(r.contains(s[i]));
    }
}

/// Filtering does not repeat elements.
pub proof fn lemma_filter_distinct<T>(s: Seq<T>, p: spec_fn(T) -> bool)
    requires
        s.no_duplicates(),
    ensures
        s.filter(p).no_duplicates(),
{
    let r = s.filter(p);
    lemma_filter_order(s, p);
    assert forall|i: int, j: int| 0 <= i < j < r.len() implies r[i] != r[j] by {
        let (a, b) = choose|a: int, b: int| 0 <= a < b < s.len() && s[a] == r[i] && s[b] == r[j];
        assert(s[a] != s[b]);
    }
}

/// Appending an element that is not there does not repeat elements.
pub proof fn lemma_push_distinct<T>(s: Seq<T>, x: T)
    requires
        s.no_duplicates(),
        !s.contains(x),
    ensures
        s.push(x).no_duplicates(),
{
    let r = s.push(x);
    assert forall|i: int, j: int| 0 <= i < j < r.len() implies r[i] != r[j] by {
        if j == s.len() {
            assert(s.contains(s[i]));
        }
    }
}

/// What a sequence contains after an element was appended.
pub proof fn lemma_push_contains<T>(s: Seq<T>, x: T, y: T)
    ensures
        s.push(x).contains(y) <==> s.contains(y) || x == y,
{
    let r = s.push(x);
    if r.contains(y) {
        let i = choose|i: int| 0 <= i < r.len() && r[i] == y;
        if i < s.len() {
            assert(s[i] == y);
        }
    }
    if s.contains(y) {
        let i = choose|i: int| 0 <= i < s.len() && s[i] == y;
        assert(r[i] == y);
    }
    assert(r[s.len() as int] == x);
}

} // verus!
