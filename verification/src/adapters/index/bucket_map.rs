//! Buckets of node identifiers in the order of their keys.

use crate::adapters::index::label_index::{others, without_id};
use crate::float::Float64;
use crate::model::node_id::NodeId;
use crate::query::ast::ComparisonOp;
use crate::text::{is_text_less, same_text, text_less};
use vstd::prelude::*;

verus! {

/// A key by which values of one kind are ordered. Values that the order does not
/// tell apart share a key.
pub trait IndexKey: Sized {
    /// What the order sees of a value.
    type Rank;

    /// The key of a value.
    spec fn rank(&self) -> Self::Rank;

    /// The order of keys.
    spec fn precedes(a: Self::Rank, b: Self::Rank) -> bool;

    /// Whether values with these keys are told apart by inequality.
    spec fn differs(a: Self::Rank, b: Self::Rank) -> bool;

    /// The order is strict and total.
    proof fn lemma_order(a: Self::Rank, b: Self::Rank, c: Self::Rank)
        ensures
            !Self::precedes(a, a),
            Self::precedes(a, b) && Self::precedes(b, c) ==> Self::precedes(a, c),
            !Self::precedes(a, b) && !Self::precedes(b, a) ==> a == b,
    ;

    /// Whether this value comes before another.
    fn is_less(&self, other: &Self) -> (r: bool)
        ensures
            r == Self::precedes(self.rank(), other.rank()),
    ;

    /// Whether this value and another are unequal.
    fn is_unequal(&self, other: &Self) -> (r: bool)
        ensures
            r == Self::differs(self.rank(), other.rank()),
    ;
}

impl IndexKey for i64 {
    type Rank = i64;

    open spec fn rank(&self) -> i64 {
        *self
    }

    open spec fn precedes(a: i64, b: i64) -> bool {
        a < b
    }

    open spec fn differs(a: i64, b: i64) -> bool {
        a != b
    }

    proof fn lemma_order(a: i64, b: i64, c: i64) {
    }

    fn is_less(&self, other: &i64) -> (r: bool) {
        *self < *other
    }

    fn is_unequal(&self, other: &i64) -> (r: bool) {
        *self != *other
    }
}

impl IndexKey for bool {
    type Rank = bool;

    open spec fn rank(&self) -> bool {
        *self
    }

    open spec fn precedes(a: bool, b: bool) -> bool {
        !a && b
    }

    open spec fn differs(a: bool, b: bool) -> bool {
        a != b
    }

    proof fn lemma_order(a: bool, b: bool, c: bool) {
    }

    fn is_less(&self, other: &bool) -> (r: bool) {
        !*self && *other
    }

    fn is_unequal(&self, other: &bool) -> (r: bool) {
        *self != *other
    }
}

/// Texts stand in a strict order that is total.
pub proof fn lemma_text_order(a: Seq<char>, b: Seq<char>, c: Seq<char>)
    ensures
        !text_less(a, a),
        text_less(a, b) && text_less(b, c) ==> text_less(a, c),
        !text_less(a, b) && !text_less(b, a) ==> a == b,
    decreases a.len(),
{
    if a.len() > 0 {
        let rest = a.drop_first();
        lemma_text_order(rest, rest, rest);
        if b.len() > 0 && c.len() > 0 {
            lemma_text_order(a.drop_first(), b.drop_first(), c.drop_first());
        }
        if b.len() > 0 {
            lemma_text_order(a.drop_first(), b.drop_first(), a.drop_first());
            if !text_less(a, b) && !text_less(b, a) {
                assert(a[0] == b[0]);
                assert(a.drop_first() == b.drop_first());
                assert(a =~= seq![a[0]] + a.drop_first());
                assert(b =~= seq![b[0]] + b.drop_first());
            }
        }
    } else if b.len() == 0 {
        assert(a =~= b);
    }
}

impl IndexKey for String {
    type Rank = Seq<char>;

    open spec fn rank(&self) -> Seq<char> {
        self@
    }

    open spec fn precedes(a: Seq<char>, b: Seq<char>) -> bool {
        text_less(a, b)
    }

    open spec fn differs(a: Seq<char>, b: Seq<char>) -> bool {
        a != b
    }

    proof fn lemma_order(a: Seq<char>, b: Seq<char>, c: Seq<char>) {
        lemma_text_order(a, b, c);
    }

    fn is_less(&self, other: &String) -> (r: bool) {
        is_text_less(self.as_str(), other.as_str())
    }

    fn is_unequal(&self, other: &String) -> (r: bool) {
        !same_text(self.as_str(), other.as_str())
    }
}

/// The place of a number in an index: all NaN stand together below all numbers.
pub open spec fn float_rank(x: Float64) -> Option<int> {
    if x.nan() {
        None
    } else {
        Some(x.rank())
    }
}

impl IndexKey for Float64 {
    type Rank = Option<int>;

    open spec fn rank(&self) -> Option<int> {
        float_rank(*self)
    }

    open spec fn precedes(a: Option<int>, b: Option<int>) -> bool {
        match (a, b) {
            (None, Some(_)) => true,
            (Some(x), Some(y)) => x < y,
            _ => false,
        }
    }

    /// NaN is unequal to everything, itself as well.
    open spec fn differs(a: Option<int>, b: Option<int>) -> bool {
        a is None || b is None || a != b
    }

    proof fn lemma_order(a: Option<int>, b: Option<int>, c: Option<int>) {
    }

    fn is_less(&self, other: &Float64) -> (r: bool) {
        if self.is_nan() {
            !other.is_nan()
        } else {
            Float64::is_less(*self, *other)
        }
    }

    fn is_unequal(&self, other: &Float64) -> (r: bool) {
        !self.is_same(*other)
    }
}

/// Buckets ordered by their keys, none of them empty.
pub open spec fn ordered<K: IndexKey>(s: Seq<(K::Rank, Seq<NodeId>)>) -> bool {
    &&& forall|i: int, j: int|
        0 <= i < j < s.len() ==> K::precedes(#[trigger] s[i].0, #[trigger] s[j].0)
    &&& forall|i: int| 0 <= i < s.len() ==> (#[trigger] s[i].1).len() > 0
}

/// The number of leading buckets whose keys come before the given one.
pub open spec fn lower_bound<K: IndexKey>(s: Seq<(K::Rank, Seq<NodeId>)>, k: K::Rank) -> int
    decreases s.len(),
{
    if s.len() == 0 || !K::precedes(s[0].0, k) {
        0
    } else {
        1 + lower_bound::<K>(s.drop_first(), k)
    }
}

/// Whether a key has a bucket, which is then the one at its lower bound.
pub open spec fn has_bucket<K: IndexKey>(s: Seq<(K::Rank, Seq<NodeId>)>, k: K::Rank) -> bool {
    let i = lower_bound::<K>(s, k);
    0 <= i < s.len() && s[i].0 == k
}

/// The bucket of a key, empty where it has none.
pub open spec fn bucket<K: IndexKey>(s: Seq<(K::Rank, Seq<NodeId>)>, k: K::Rank) -> Seq<NodeId> {
    if has_bucket::<K>(s, k) {
        s[lower_bound::<K>(s, k)].1
    } else {
        Seq::empty()
    }
}

/// The buckets after an identifier was added to a key's bucket.
pub open spec fn with_id<K: IndexKey>(
    s: Seq<(K::Rank, Seq<NodeId>)>,
    k: K::Rank,
    id: NodeId,
) -> Seq<(K::Rank, Seq<NodeId>)> {
    let i = lower_bound::<K>(s, k);
    if has_bucket::<K>(s, k) {
        s.update(i, (k, s[i].1.push(id)))
    } else {
        s.insert(i, (k, seq![id]))
    }
}

/// The buckets after an identifier was taken out of a key's bucket. An empty
/// bucket goes.
pub open spec fn without<K: IndexKey>(
    s: Seq<(K::Rank, Seq<NodeId>)>,
    k: K::Rank,
    id: NodeId,
) -> Seq<(K::Rank, Seq<NodeId>)> {
    let i = lower_bound::<K>(s, k);
    if !has_bucket::<K>(s, k) {
        s
    } else if others(s[i].1, id).len() == 0 {
        s.remove(i)
    } else {
        s.update(i, (k, others(s[i].1, id)))
    }
}

/// Whether a query with the given operator and key selects the bucket of
/// another key.
pub open spec fn selects<K: IndexKey>(op: ComparisonOp, k: K::Rank, key: K::Rank) -> bool {
    match op {
        ComparisonOp::Eq => k == key,
        ComparisonOp::NotEq => K::differs(k, key),
        ComparisonOp::Lt => K::precedes(k, key),
        ComparisonOp::LtEq => !K::precedes(key, k),
        ComparisonOp::Gt => K::precedes(key, k),
        ComparisonOp::GtEq => !K::precedes(k, key),
    }
}

/// The identifiers in the buckets whose keys a query selects, bucket by bucket.
pub open spec fn gather<K: IndexKey>(
    s: Seq<(K::Rank, Seq<NodeId>)>,
    p: spec_fn(K::Rank) -> bool,
) -> Seq<NodeId>
    decreases s.len(),
{
    if s.len() == 0 {
        Seq::empty()
    } else {
        gather::<K>(s.drop_last(), p) + if p(s.last().0) {
            s.last().1
        } else {
            Seq::empty()
        }
    }
}

/// The lower bound parts the keys that come before from the rest.
pub proof fn lemma_lower_bound<K: IndexKey>(s: Seq<(K::Rank, Seq<NodeId>)>, k: K::Rank)
    requires
        ordered::<K>(s),
    ensures
        0 <= lower_bound::<K>(s, k) <= s.len(),
        forall|j: int|
            0 <= j < lower_bound::<K>(s, k) ==> K::precedes(#[trigger] s[j].0, k),
        forall|j: int|
            lower_bound::<K>(s, k) <= j < s.len() ==> !K::precedes(#[trigger] s[j].0, k),
        has_bucket::<K>(s, k) <==> exists|j: int| 0 <= j < s.len() && #[trigger] s[j].0 == k,
    decreases s.len(),
{
    let n = lower_bound::<K>(s, k);
    if s.len() > 0 {
        if K::precedes(s[0].0, k) {
            let t = s.drop_first();
            assert(ordered::<K>(t)) by {
                assert forall|i: int, j: int| 0 <= i < j < t.len() implies K::precedes(
                    #[trigger] t[i].0,
                    #[trigger] t[j].0,
                ) by {
                    assert(K::precedes(s[i + 1].0, s[j + 1].0));
                }
            }
            lemma_lower_bound::<K>(t, k);
            assert forall|j: int| 0 <= j < n implies K::precedes(#[trigger] s[j].0, k) by {
                if j > 0 {
                    assert(s[j] == t[j - 1]);
                }
            }
            assert forall|j: int| n <= j < s.len() implies !K::precedes(#[trigger] s[j].0, k) by {
                assert(s[j] == t[j - 1]);
            }
        } else {
            assert forall|j: int| 0 <= j < s.len() implies !K::precedes(#[trigger] s[j].0, k) by {
                if j > 0 {
                    assert(K::precedes(s[0].0, s[j].0));
                    K::lemma_order(s[0].0, s[j].0, k);
                }
            }
        }
    }
    if exists|j: int| 0 <= j < s.len() && #[trigger] s[j].0 == k {
        let j = choose|j: int| 0 <= j < s.len() && #[trigger] s[j].0 == k;
        K::lemma_order(k, k, k);
        assert(j >= n);
        if j > n {
            assert(K::precedes(s[n].0, s[j].0));
        }
    }
}

/// Adding an identifier keeps the order and changes one bucket.
pub proof fn lemma_with_id<K: IndexKey>(s: Seq<(K::Rank, Seq<NodeId>)>, k: K::Rank, id: NodeId)
    requires
        ordered::<K>(s),
    ensures
        ordered::<K>(with_id::<K>(s, k, id)),
        forall|j: K::Rank| #[trigger]
            bucket::<K>(with_id::<K>(s, k, id), j) == if j == k {
                bucket::<K>(s, k).push(id)
            } else {
                bucket::<K>(s, j)
            },
{
    lemma_lower_bound::<K>(s, k);
    let n = lower_bound::<K>(s, k);
    let t = with_id::<K>(s, k, id);
    if has_bucket::<K>(s, k) {
        assert forall|i: int, j: int| 0 <= i < j < t.len() implies K::precedes(
            #[trigger] t[i].0,
            #[trigger] t[j].0,
        ) by {
            assert(K::precedes(s[i].0, s[j].0));
        }
    } else {
        assert forall|i: int, j: int| 0 <= i < j < t.len() implies K::precedes(
            #[trigger] t[i].0,
            #[trigger] t[j].0,
        ) by {
            if i < n && j < n {
                assert(K::precedes(s[i].0, s[j].0));
            } else if i < n && j == n {
                assert(K::precedes(s[i].0, k));
            } else if i < n {
                assert(K::precedes(s[i].0, s[j - 1].0));
            } else if i == n {
                assert(!K::precedes(s[j - 1].0, k));
                assert(s[j - 1].0 != k);
                K::lemma_order(s[j - 1].0, k, k);
            } else {
                assert(K::precedes(s[i - 1].0, s[j - 1].0));
            }
        }
    }
    assert forall|j: K::Rank| #[trigger] bucket::<K>(t, j) == if j == k {
        bucket::<K>(s, k).push(id)
    } else {
        bucket::<K>(s, j)
    } by {
        lemma_bucket_of::<K>(s, j);
        lemma_bucket_of::<K>(t, j);
        lemma_lower_bound::<K>(s, j);
        lemma_lower_bound::<K>(t, j);
        if j == k {
            assert(t[n].0 == k);
            lemma_bucket_at::<K>(t, n);
            if !has_bucket::<K>(s, k) {
                assert(seq![id] =~= Seq::<NodeId>::empty().push(id));
            }
        } else if has_bucket::<K>(s, j) {
            let i = lower_bound::<K>(s, j);
            let i2 = if has_bucket::<K>(s, k) || i < n {
                i
            } else {
                i + 1
            };
            assert(t[i2] == s[i]);
            lemma_bucket_at::<K>(t, i2);
        } else if has_bucket::<K>(t, j) {
            let i = lower_bound::<K>(t, j);
            let i2 = if has_bucket::<K>(s, k) || i < n {
                i
            } else {
                i - 1
            };
            assert(i != n);
            assert(t[i].0 == s[i2].0);
        }
    }
}

proof fn lemma_bucket_of<K: IndexKey>(s: Seq<(K::Rank, Seq<NodeId>)>, k: K::Rank)
    ensures
        !has_bucket::<K>(s, k) ==> bucket::<K>(s, k) == Seq::<NodeId>::empty(),
{
}

/// The bucket at a position is that of its key.
pub proof fn lemma_bucket_at<K: IndexKey>(s: Seq<(K::Rank, Seq<NodeId>)>, i: int)
    requires
        ordered::<K>(s),
        0 <= i < s.len(),
    ensures
        has_bucket::<K>(s, s[i].0),
        bucket::<K>(s, s[i].0) == s[i].1,
{
    let k = s[i].0;
    lemma_lower_bound::<K>(s, k);
    let n = lower_bound::<K>(s, k);
    K::lemma_order(k, k, k);
    if n < i {
        assert(K::precedes(s[n].0, s[i].0));
    }
}

/// Taking an identifier out keeps the order and changes one bucket.
pub proof fn lemma_without<K: IndexKey>(s: Seq<(K::Rank, Seq<NodeId>)>, k: K::Rank, id: NodeId)
    requires
        ordered::<K>(s),
    ensures
        ordered::<K>(without::<K>(s, k, id)),
        forall|j: K::Rank| #[trigger]
            bucket::<K>(without::<K>(s, k, id), j) == if j == k {
                others(bucket::<K>(s, k), id)
            } else {
                bucket::<K>(s, j)
            },
{
    lemma_lower_bound::<K>(s, k);
    let n = lower_bound::<K>(s, k);
    let t = without::<K>(s, k, id);
    if has_bucket::<K>(s, k) {
        let gone = others(s[n].1, id).len() == 0;
        assert forall|i: int, j: int| 0 <= i < j < t.len() implies K::precedes(
            #[trigger] t[i].0,
            #[trigger] t[j].0,
        ) by {
            let i2 = if gone && i >= n { i + 1 } else { i };
            let j2 = if gone && j >= n { j + 1 } else { j };
            assert(K::precedes(s[i2].0, s[j2].0));
        }
        assert forall|j: K::Rank| #[trigger] bucket::<K>(t, j) == if j == k {
            others(bucket::<K>(s, k), id)
        } else {
            bucket::<K>(s, j)
        } by {
            lemma_lower_bound::<K>(s, j);
            lemma_lower_bound::<K>(t, j);
            if j == k {
                if gone {
                    if has_bucket::<K>(t, j) {
                        let i = lower_bound::<K>(t, j);
                        let i2 = if i >= n { i + 1 } else { i };
                        assert(s[i2].0 == k);
                        K::lemma_order(k, k, k);
                        if i2 < n {
                            assert(K::precedes(s[i2].0, k));
                        } else {
                            assert(K::precedes(s[n].0, s[i2].0));
                        }
                    }
                    assert(others(s[n].1, id) =~= Seq::empty());
                } else {
                    lemma_bucket_at::<K>(t, n);
                }
            } else if has_bucket::<K>(s, j) {
                let i = lower_bound::<K>(s, j);
                assert(i != n);
                let i2 = if gone && i > n { i - 1 } else { i };
                assert(t[i2] == s[i]);
                lemma_bucket_at::<K>(t, i2);
            } else if has_bucket::<K>(t, j) {
                let i = lower_bound::<K>(t, j);
                let i2 = if gone && i >= n { i + 1 } else { i };
                assert(t[i].0 == s[i2].0);
            }
        }
    } else {
        reveal(Seq::filter);
        assert(others(Seq::empty(), id) =~= Seq::empty());
    }
}

/// Without an identifier that was added at the end and is not among them, the
/// others are left.
pub proof fn lemma_others_of_push(s: Seq<NodeId>, id: NodeId)
    requires
        !s.contains(id),
    ensures
        others(s.push(id), id) == s,
{
    reveal(Seq::filter);
    let t = s.push(id);
    assert(t.drop_last() =~= s);
    lemma_others_of_stranger(s, id);
}

proof fn lemma_others_of_stranger(s: Seq<NodeId>, id: NodeId)
    requires
        !s.contains(id),
    ensures
        others(s, id) == s,
    decreases s.len(),
{
    reveal(Seq::filter);
    if s.len() > 0 {
        let t = s.drop_last();
        assert(s.contains(s[s.len() - 1]));
        assert forall|x: NodeId| t.contains(x) implies s.contains(x) by {
            let i = choose|i: int| 0 <= i < t.len() && t[i] == x;
            assert(s[i] == x);
        }
        lemma_others_of_stranger(t, id);
        assert(t.push(s.last()) =~= s);
    } else {
        assert(others(s, id) =~= s);
    }
}

/// Taking out an identifier that was just added gives the buckets back, where the
/// key's bucket did not hold it.
pub proof fn lemma_without_undoes<K: IndexKey>(
    s: Seq<(K::Rank, Seq<NodeId>)>,
    k: K::Rank,
    id: NodeId,
)
    requires
        ordered::<K>(s),
        !bucket::<K>(s, k).contains(id),
    ensures
        without::<K>(with_id::<K>(s, k, id), k, id) == s,
{
    let t = with_id::<K>(s, k, id);
    let i = lower_bound::<K>(s, k);
    lemma_lower_bound::<K>(s, k);
    lemma_with_id::<K>(s, k, id);
    lemma_lower_bound::<K>(t, k);
    let j = lower_bound::<K>(t, k);
    K::lemma_order(k, k, k);
    assert(t[i].0 == k);
    assert(has_bucket::<K>(t, k));
    if j < i {
        assert(K::precedes(t[j].0, t[i].0));
    } else if i < j {
        assert(K::precedes(t[i].0, t[j].0));
    }
    assert(i == j);
    if has_bucket::<K>(s, k) {
        lemma_others_of_push(s[i].1, id);
        assert(t.update(i, (k, s[i].1)) =~= s);
    } else {
        assert(t[i].1 == seq![id]);
        assert(Seq::<NodeId>::empty().push(id) =~= seq![id]);
        lemma_others_of_push(Seq::empty(), id);
        assert(t.remove(i) =~= s);
    }
}

/// A query finds the identifiers in the buckets of the keys that it selects.
pub proof fn lemma_gather<K: IndexKey>(
    s: Seq<(K::Rank, Seq<NodeId>)>,
    p: spec_fn(K::Rank) -> bool,
    id: NodeId,
)
    requires
        ordered::<K>(s),
    ensures
        gather::<K>(s, p).contains(id) <==> exists|k: K::Rank|
            p(k) && (#[trigger] bucket::<K>(s, k)).contains(id),
{
    lemma_gather_positions::<K>(s, p, id);
    if gather::<K>(s, p).contains(id) {
        let i = choose|i: int|
            0 <= i < s.len() && p(s[i].0) && (#[trigger] s[i]).1.contains(id);
        lemma_bucket_at::<K>(s, i);
        assert(bucket::<K>(s, s[i].0).contains(id));
    }
    if exists|k: K::Rank|
        p(k) && (#[trigger] bucket::<K>(s, k)).contains(id) {
        let k = choose|k: K::Rank|
            p(k) && (#[trigger] bucket::<K>(s, k)).contains(id);
        let i = lower_bound::<K>(s, k);
        assert(has_bucket::<K>(s, k));
        assert(s[i].1.contains(id));
    }
}

proof fn lemma_gather_positions<K: IndexKey>(
    s: Seq<(K::Rank, Seq<NodeId>)>,
    p: spec_fn(K::Rank) -> bool,
    id: NodeId,
)
    ensures
        gather::<K>(s, p).contains(id) <==> exists|i: int|
            0 <= i < s.len() && p(s[i].0) && (#[trigger] s[i]).1.contains(id),
    decreases s.len(),
{
    if s.len() > 0 {
        let t = s.drop_last();
        let before = gather::<K>(t, p);
        let all = gather::<K>(s, p);
        lemma_gather_positions::<K>(t, p, id);
        if all.contains(id) {
            let j = choose|j: int| 0 <= j < all.len() && all[j] == id;
            if j < before.len() {
                assert(before[j] == id);
                let i = choose|i: int|
                    0 <= i < t.len() && p(t[i].0) && (#[trigger] t[i]).1.contains(id);
                assert(s[i] == t[i]);
            } else {
                assert(s[s.len() - 1].1[j - before.len()] == id);
            }
        }
        if exists|i: int|
            0 <= i < s.len() && p(s[i].0) && (#[trigger] s[i]).1.contains(id) {
            let i = choose|i: int|
                0 <= i < s.len() && p(s[i].0) && (#[trigger] s[i]).1.contains(id);
            if i < t.len() {
                assert(t[i] == s[i]);
                assert(before.contains(id));
                let j = choose|j: int| 0 <= j < before.len() && before[j] == id;
                assert(all[j] == id);
            } else {
                let j = choose|j: int| 0 <= j < s[i].1.len() && s[i].1[j] == id;
                assert(all[before.len() + j] == id);
            }
        }
    }
}

/// A query does not repeat identifiers where no bucket does and no two share one.
pub proof fn lemma_gather_distinct<K: IndexKey>(
    s: Seq<(K::Rank, Seq<NodeId>)>,
    p: spec_fn(K::Rank) -> bool,
)
    requires
        forall|i: int| 0 <= i < s.len() ==> (#[trigger] s[i]).1.no_duplicates(),
        forall|i: int, j: int, x: NodeId|
            0 <= i < j < s.len() && #[trigger] s[i].1.contains(x) ==> !#[trigger] s[j].1.contains(
                x,
            ),
    ensures
        gather::<K>(s, p).no_duplicates(),
    decreases s.len(),
{
    if s.len() > 0 {
        let t = s.drop_last();
        let before = gather::<K>(t, p);
        let all = gather::<K>(s, p);
        assert forall|i: int| 0 <= i < t.len() implies (#[trigger] t[i]).1.no_duplicates() by {
            assert(s[i] == t[i]);
        }
        assert forall|i: int, j: int, x: NodeId|
            0 <= i < j < t.len() && #[trigger] t[i].1.contains(x) implies !#[trigger] t[j].1.contains(
            x,
        ) by {
            assert(s[i] == t[i] && s[j] == t[j]);
        }
        lemma_gather_distinct::<K>(t, p);
        let n = s.len() - 1;
        assert(s[n].1.no_duplicates());
        assert forall|i: int, j: int| 0 <= i < j < all.len() implies all[i] != all[j] by {
            if j < before.len() {
                assert(before[i] != before[j]);
            } else if i < before.len() {
                assert(before.contains(before[i]));
                lemma_gather_positions::<K>(t, p, before[i]);
                let a = choose|a: int|
                    0 <= a < t.len() && p(t[a].0) && (
                    #[trigger] t[a]).1.contains(before[i]);
                assert(s[a] == t[a]);
                assert(s[a].1.contains(before[i]));
                if all[i] == all[j] {
                    assert(s[n].1[j - before.len()] == all[j]);
                    assert(s[n].1.contains(all[j]));
                }
            }
        }
    }
}

/// Buckets of node identifiers, kept in the order of their keys.
pub struct BucketMap<K: IndexKey> {
    pairs: Vec<(K, Vec<NodeId>)>,
}

impl<K: IndexKey> BucketMap<K> {
    /// The buckets in order.
    pub closed spec fn buckets(&self) -> Seq<(K::Rank, Seq<NodeId>)> {
        Seq::new(self.pairs.len() as nat, |i: int| (self.pairs[i].0.rank(), self.pairs[i].1@))
    }

    /// Whether the buckets are in order.
    pub open spec fn valid(&self) -> bool {
        ordered::<K>(self.buckets())
    }

    /// No buckets.
    pub fn new() -> (r: BucketMap<K>)
        ensures
            r.valid(),
            r.buckets() == Seq::<(K::Rank, Seq<NodeId>)>::empty(),
    {
        let r = BucketMap { pairs: Vec::new() };
        assert(r.buckets() =~= Seq::empty());
        r
    }

    /// The number of buckets.
    pub fn len(&self) -> (r: usize)
        ensures
            r == self.buckets().len(),
    {
        self.pairs.len()
    }

    fn seek(&self, key: &K) -> (r: usize)
        requires
            self.valid(),
        ensures
            r == lower_bound::<K>(self.buckets(), key.rank()),
            r <= self.pairs.len(),
    {
        let ghost s = self.buckets();
        let ghost k = key.rank();
        proof {
            lemma_lower_bound::<K>(s, k);
        }
        let mut low: usize = 0;
        let mut high: usize = self.pairs.len();
        while low < high
            invariant
                low <= high <= self.pairs.len(),
                s == self.buckets(),
                k == key.rank(),
                low <= lower_bound::<K>(s, k) <= high,
                ordered::<K>(s),
            decreases high - low,
        {
            let middle: usize = low + (high - low) / 2;
            proof {
                lemma_lower_bound::<K>(s, k);
                assert(s[middle as int].0 == self.pairs[middle as int].0.rank());
            }
            if self.pairs[middle].0.is_less(key) {
                low = middle + 1;
            } else {
                high = middle;
            }
        }
        low
    }

    fn is_at(&self, i: usize, key: &K) -> (r: bool)
        requires
            self.valid(),
            i == lower_bound::<K>(self.buckets(), key.rank()),
            i <= self.pairs.len(),
        ensures
            r == has_bucket::<K>(self.buckets(), key.rank()),
    {
        if i >= self.pairs.len() {
            return false;
        }
        proof {
            lemma_lower_bound::<K>(self.buckets(), key.rank());
            assert(self.buckets()[i as int].0 == self.pairs[i as int].0.rank());
            K::lemma_order(self.pairs[i as int].0.rank(), key.rank(), key.rank());
        }
        !key.is_less(&self.pairs[i].0)
    }

    /// Adds an identifier to the bucket of a key.
    pub fn bucket_insert(&mut self, key: K, id: NodeId)
        requires
            old(self).valid(),
        ensures
            final(self).valid(),
            final(self).buckets() == with_id::<K>(old(self).buckets(), key.rank(), id),
    {
        let ghost s = self.buckets();
        let ghost k = key.rank();
        proof {
            lemma_with_id::<K>(s, k, id);
        }
        let i: usize = self.seek(&key);
        if self.is_at(i, &key) {
            let (held, ids) = self.pairs.remove(i);
            let mut ids = ids;
            ids.push(id);
            self.pairs.insert(i, (held, ids));
        } else {
            let mut ids: Vec<NodeId> = Vec::new();
            ids.push(id);
            assert(ids@ =~= seq![id]);
            self.pairs.insert(i, (key, ids));
        }
        assert(self.buckets() =~= with_id::<K>(s, k, id));
    }

    /// Takes an identifier out of the bucket of a key. An empty bucket goes.
    pub fn bucket_remove(&mut self, key: &K, id: NodeId)
        requires
            old(self).valid(),
        ensures
            final(self).valid(),
            final(self).buckets() == without::<K>(old(self).buckets(), key.rank(), id),
    {
        let ghost s = self.buckets();
        let ghost k = key.rank();
        proof {
            lemma_without::<K>(s, k, id);
        }
        let i: usize = self.seek(key);
        if self.is_at(i, key) {
            let (held, ids) = self.pairs.remove(i);
            let rest = without_id(&ids, id);
            if rest.len() > 0 {
                self.pairs.insert(i, (held, rest));
            }
        }
        assert(self.buckets() =~= without::<K>(s, k, id));
    }

    /// The identifiers whose keys compare to the given one as asked. But for inequality
    /// only the buckets that are asked for are looked at.
    pub fn range_query(&self, op: &ComparisonOp, key: &K) -> (r: Vec<NodeId>)
        requires
            self.valid(),
        ensures
            r@ == gather::<K>(self.buckets(), |k: K::Rank| selects::<K>(*op, k, key.rank())),
    {
        let n: usize = self.pairs.len();
        let low: usize = self.seek(key);
        let high: usize = if self.is_at(low, key) {
            low + 1
        } else {
            low
        };
        let (from, to): (usize, usize) = match op {
            ComparisonOp::Eq => (low, high),
            ComparisonOp::NotEq => (0, n),
            ComparisonOp::Lt => (0, low),
            ComparisonOp::LtEq => (0, high),
            ComparisonOp::Gt => (high, n),
            ComparisonOp::GtEq => (low, n),
        };
        let ghost s = self.buckets();
        let ghost p = |k: K::Rank| selects::<K>(*op, k, key.rank());
        proof {
            lemma_selected_range::<K>(s, *op, key.rank(), from as int, to as int);
            assert(s.take(from as int).len() == from);
            lemma_gather_nothing::<K>(s.take(from as int), p);
        }
        let mut out: Vec<NodeId> = Vec::new();
        let mut i: usize = from;
        while i < to
            invariant
                from <= i <= to <= self.pairs.len(),
                s == self.buckets(),
                p == (|k: K::Rank| selects::<K>(*op, k, key.rank())),
                out@ == gather::<K>(s.take(i as int), p),
                forall|m: int|
                    from <= m < to && !(op is NotEq) ==> p((#[trigger] s[m]).0),
            decreases to - i,
        {
            let held = &self.pairs[i].0;
            let selected = match op {
                ComparisonOp::NotEq => held.is_unequal(key),
                _ => true,
            };
            proof {
                assert(s.take(i + 1).drop_last() =~= s.take(i as int));
                assert(s.take(i + 1).last() == s[i as int]);
                assert(s[i as int].0 == held.rank());
            }
            if selected {
                push_all(&mut out, &self.pairs[i].1);
            } else {
                assert(out@ + Seq::<NodeId>::empty() =~= out@);
            }
            i += 1;
        }
        proof {
            lemma_gather_rest::<K>(s, p, to as int);
        }
        out
    }
}

/// Which buckets a query selects: those from one place up to another.
proof fn lemma_selected_range<K: IndexKey>(
    s: Seq<(K::Rank, Seq<NodeId>)>,
    op: ComparisonOp,
    k: K::Rank,
    from: int,
    to: int,
)
    requires
        ordered::<K>(s),
        ({
            let low = lower_bound::<K>(s, k);
            let high = if has_bucket::<K>(s, k) {
                low + 1
            } else {
                low
            };
            (from, to) == match op {
                ComparisonOp::Eq => (low, high),
                ComparisonOp::NotEq => (0, s.len() as int),
                ComparisonOp::Lt => (0, low),
                ComparisonOp::LtEq => (0, high),
                ComparisonOp::Gt => (high, s.len() as int),
                ComparisonOp::GtEq => (low, s.len() as int),
            }
        }),
    ensures
        0 <= from <= to <= s.len(),
        forall|i: int|
            0 <= i < s.len() && !(from <= i < to) ==> !selects::<K>(op, (#[trigger] s[i]).0, k),
        forall|i: int|
            from <= i < to && !(op is NotEq) ==> selects::<K>(op, (#[trigger] s[i]).0, k),
{
    let low = lower_bound::<K>(s, k);
    lemma_lower_bound::<K>(s, k);
    K::lemma_order(k, k, k);
    assert forall|i: int| 0 <= i < s.len() implies {
        &&& i < low ==> K::precedes((#[trigger] s[i]).0, k) && !K::precedes(k, s[i].0) && s[i].0
            != k
        &&& i >= low && s[i].0 != k ==> K::precedes(k, s[i].0) && !K::precedes(s[i].0, k)
        &&& s[i].0 == k <==> has_bucket::<K>(s, k) && i == low
    } by {
        K::lemma_order(s[i].0, k, s[i].0);
        K::lemma_order(s[i].0, s[i].0, s[i].0);
        K::lemma_order(s[i].0, k, k);
        if s[i].0 == k {
            lemma_bucket_at::<K>(s, i);
            if low < i {
                assert(K::precedes(s[low].0, s[i].0));
            }
        }
    }
}

/// Where no key is selected nothing is found.
proof fn lemma_gather_nothing<K: IndexKey>(
    s: Seq<(K::Rank, Seq<NodeId>)>,
    p: spec_fn(K::Rank) -> bool,
)
    requires
        forall|i: int| 0 <= i < s.len() ==> !p((#[trigger] s[i]).0),
    ensures
        gather::<K>(s, p) == Seq::<NodeId>::empty(),
    decreases s.len(),
{
    if s.len() > 0 {
        let t = s.drop_last();
        assert forall|i: int| 0 <= i < t.len() implies !p((#[trigger] t[i]).0) by {
            assert(t[i] == s[i]);
        }
        lemma_gather_nothing::<K>(t, p);
        assert(!p(s[s.len() - 1].0));
        assert(gather::<K>(s, p) =~= Seq::empty());
    }
}

/// Buckets behind the last one that is selected add nothing.
proof fn lemma_gather_rest<K: IndexKey>(
    s: Seq<(K::Rank, Seq<NodeId>)>,
    p: spec_fn(K::Rank) -> bool,
    to: int,
)
    requires
        0 <= to <= s.len(),
        forall|i: int| to <= i < s.len() ==> !p((#[trigger] s[i]).0),
    ensures
        gather::<K>(s, p) == gather::<K>(s.take(to), p),
    decreases s.len() - to,
{
    if to == s.len() {
        assert(s.take(to) =~= s);
    } else {
        lemma_gather_rest::<K>(s, p, to + 1);
        let t = s.take(to + 1);
        assert(t.drop_last() =~= s.take(to));
        assert(t.last() == s[to]);
        assert(gather::<K>(t, p) =~= gather::<K>(s.take(to), p));
    }
}

impl BucketMap<i64> {
    /// The identifiers whose keys, as numbers, compare to the given one as asked.
    pub fn query_as_numbers(&self, op: &ComparisonOp, key: Float64) -> (r: Vec<NodeId>)
        ensures
            r@ == gather::<i64>(
                self.buckets(),
                |k: i64| op.holds_floats(Float64::of_int(k as int), key),
            ),
    {
        let ghost p = |k: i64| op.holds_floats(Float64::of_int(k as int), key);
        let mut out: Vec<NodeId> = Vec::new();
        let ghost s = self.buckets();
        let mut i: usize = 0;
        assert(s.take(0) =~= Seq::empty());
        while i < self.pairs.len()
            invariant
                i <= self.pairs.len(),
                s == self.buckets(),
                p == (|k: i64| op.holds_floats(Float64::of_int(k as int), key)),
                out@ == gather::<i64>(s.take(i as int), p),
            decreases self.pairs.len() - i,
        {
            let held: i64 = self.pairs[i].0;
            proof {
                assert(s.take(i + 1).drop_last() =~= s.take(i as int));
                assert(s.take(i + 1).last() == s[i as int]);
                assert(s[i as int].0 == held);
            }
            if op.compare_f64(Float64::from_i64(held), key) {
                push_all(&mut out, &self.pairs[i].1);
            } else {
                assert(out@ + Seq::<NodeId>::empty() =~= out@);
            }
            i += 1;
        }
        assert(s.take(i as int) =~= s);
        out
    }
}

/// A number with the given place in an index.
pub open spec fn number_at(k: Option<int>) -> Float64 {
    choose|x: Float64| #[trigger] float_rank(x) == k
}

/// Numbers with the same place in an index compare alike.
pub proof fn lemma_number_at(op: ComparisonOp, x: Float64, y: Float64)
    ensures
        float_rank(number_at(float_rank(x))) == float_rank(x),
        op.holds_floats(number_at(float_rank(x)), y) == op.holds_floats(x, y),
{
    let z = number_at(float_rank(x));
    assert(float_rank(x) == float_rank(x));
    assert(float_rank(z) == float_rank(x));
    Float64::lemma_alike_on_the_left(z, x, y);
}

impl BucketMap<Float64> {
    /// The identifiers whose keys compare to the given number as asked.
    pub fn query_numbers(&self, op: &ComparisonOp, key: Float64) -> (r: Vec<NodeId>)
        ensures
            r@ == gather::<Float64>(
                self.buckets(),
                |k: Option<int>| op.holds_floats(number_at(k), key),
            ),
    {
        let ghost p = |k: Option<int>| op.holds_floats(number_at(k), key);
        let mut out: Vec<NodeId> = Vec::new();
        let ghost s = self.buckets();
        let mut i: usize = 0;
        assert(s.take(0) =~= Seq::empty());
        while i < self.pairs.len()
            invariant
                i <= self.pairs.len(),
                s == self.buckets(),
                p == (|k: Option<int>| op.holds_floats(number_at(k), key)),
                out@ == gather::<Float64>(s.take(i as int), p),
            decreases self.pairs.len() - i,
        {
            let held: Float64 = self.pairs[i].0;
            proof {
                assert(s.take(i + 1).drop_last() =~= s.take(i as int));
                assert(s.take(i + 1).last() == s[i as int]);
                assert(s[i as int].0 == float_rank(held));
                lemma_number_at(*op, held, key);
            }
            if op.compare_f64(held, key) {
                push_all(&mut out, &self.pairs[i].1);
            } else {
                assert(out@ + Seq::<NodeId>::empty() =~= out@);
            }
            i += 1;
        }
        assert(s.take(i as int) =~= s);
        out
    }
}

fn push_all(out: &mut Vec<NodeId>, ids: &Vec<NodeId>)
    ensures
        final(out)@ == old(out)@ + ids@,
{
    let mut i: usize = 0;
    assert(out@ =~= old(out)@ + ids@.take(0));
    while i < ids.len()
        invariant
            i <= ids.len(),
            out@ == old(out)@ + ids@.take(i as int),
        decreases ids.len() - i,
    {
        out.push(ids[i]);
        i += 1;
        assert(out@ =~= old(out)@ + ids@.take(i as int));
    }
    assert(ids@.take(i as int) =~= ids@);
}

} // verus!
