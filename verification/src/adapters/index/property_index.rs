//! Which nodes have which property values.
//!
//! Every field has an index for each kind of value, ordered by value.

use crate::adapters::index::bucket_map::{
    bucket, float_rank, gather, lemma_gather, lemma_lower_bound, lemma_number_at,
    lemma_others_of_push, lemma_with_id, lemma_without, lemma_without_undoes, lower_bound,
    number_at, ordered, selects, with_id, without, BucketMap, IndexKey,
};
use crate::adapters::index::label_index::{others, without_id};
use crate::collections::entries::{distinct_keys, entries_map, lemma_entries_map_contains};
use crate::collections::string_map::StringMap;
use crate::float::Float64;
use crate::model::node_id::NodeId;
use crate::model::value::{Value, ValueView};
use crate::query::ast::ComparisonOp;
use vstd::prelude::*;

verus! {

/// The index of one field: buckets of nodes for each kind of value.
pub struct FieldView {
    pub integers: Seq<(i64, Seq<NodeId>)>,
    pub floats: Seq<(Option<int>, Seq<NodeId>)>,
    pub texts: Seq<(Seq<char>, Seq<NodeId>)>,
    pub bools: Seq<(bool, Seq<NodeId>)>,
    pub nulls: Seq<NodeId>,
}

/// Whether some number has the given place in an index.
pub open spec fn is_float_rank(k: Option<int>) -> bool {
    exists|x: Float64| #[trigger] float_rank(x) == k
}

impl FieldView {
    /// An index without values.
    pub open spec fn empty() -> FieldView {
        FieldView {
            integers: Seq::empty(),
            floats: Seq::empty(),
            texts: Seq::empty(),
            bools: Seq::empty(),
            nulls: Seq::empty(),
        }
    }

    /// Whether the buckets of every kind are in order.
    pub open spec fn valid(self) -> bool {
        &&& ordered::<i64>(self.integers)
        &&& ordered::<Float64>(self.floats)
        &&& ordered::<String>(self.texts)
        &&& ordered::<bool>(self.bools)
        &&& forall|i: int|
            0 <= i < self.floats.len() ==> is_float_rank((#[trigger] self.floats[i]).0)
    }

    /// The index after a node's value was added.
    pub open spec fn insert(self, id: NodeId, v: ValueView) -> FieldView {
        match v {
            ValueView::Integer(x) => FieldView {
                integers: with_id::<i64>(self.integers, x, id),
                ..self
            },
            ValueView::Float(x) => FieldView {
                floats: with_id::<Float64>(self.floats, float_rank(x), id),
                ..self
            },
            ValueView::Text(x) => FieldView { texts: with_id::<String>(self.texts, x, id), ..self },
            ValueView::Boolean(x) => FieldView { bools: with_id::<bool>(self.bools, x, id), ..self },
            ValueView::Null => FieldView { nulls: self.nulls.push(id), ..self },
        }
    }

    /// The index after a node's value was taken out.
    pub open spec fn remove(self, id: NodeId, v: ValueView) -> FieldView {
        match v {
            ValueView::Integer(x) => FieldView {
                integers: without::<i64>(self.integers, x, id),
                ..self
            },
            ValueView::Float(x) => FieldView {
                floats: without::<Float64>(self.floats, float_rank(x), id),
                ..self
            },
            ValueView::Text(x) => FieldView { texts: without::<String>(self.texts, x, id), ..self },
            ValueView::Boolean(x) => FieldView { bools: without::<bool>(self.bools, x, id), ..self },
            ValueView::Null => FieldView { nulls: others(self.nulls, id), ..self },
        }
    }

    /// The nodes whose value compares to the given one as asked: integers before
    /// other numbers, by value, then in the order in which they came. Integers and
    /// other numbers compare with each other; nulls are found by equality alone.
    pub open spec fn query(self, op: ComparisonOp, v: ValueView) -> Seq<NodeId> {
        match v {
            ValueView::Integer(x) => gather::<i64>(self.integers, |k: i64| selects::<i64>(op, k, x))
                + gather::<Float64>(
                self.floats,
                |k: Option<int>| op.holds_floats(number_at(k), Float64::of_int(x as int)),
            ),
            ValueView::Float(x) => gather::<i64>(
                self.integers,
                |k: i64| op.holds_floats(Float64::of_int(k as int), x),
            ) + gather::<Float64>(
                self.floats,
                |k: Option<int>| op.holds_floats(number_at(k), x),
            ),
            ValueView::Text(x) => gather::<String>(
                self.texts,
                |k: Seq<char>| selects::<String>(op, k, x),
            ),
            ValueView::Boolean(x) => gather::<bool>(self.bools, |k: bool| selects::<bool>(op, k, x)),
            ValueView::Null => if op == ComparisonOp::Eq {
                self.nulls
            } else {
                Seq::empty()
            },
        }
    }

    /// The nodes that have the given value.
    pub open spec fn holders(self, v: ValueView) -> Seq<NodeId> {
        match v {
            ValueView::Integer(x) => bucket::<i64>(self.integers, x),
            ValueView::Float(x) => bucket::<Float64>(self.floats, float_rank(x)),
            ValueView::Text(x) => bucket::<String>(self.texts, x),
            ValueView::Boolean(x) => bucket::<bool>(self.bools, x),
            ValueView::Null => self.nulls,
        }
    }

    /// The number of distinct values.
    pub open spec fn cardinality(self) -> nat {
        self.integers.len() + self.floats.len() + self.texts.len() + self.bools.len() + if self.nulls.len()
            == 0 {
            0nat
        } else {
            1nat
        }
    }
}

/// Whether an index keeps two values in the same bucket.
pub open spec fn same_bucket(a: ValueView, b: ValueView) -> bool {
    match (a, b) {
        (ValueView::Float(x), ValueView::Float(y)) => float_rank(x) == float_rank(y),
        _ => a == b,
    }
}

/// Adding a value keeps the buckets in order and adds the node to one of them.
pub proof fn lemma_field_insert(f: FieldView, id: NodeId, v: ValueView)
    requires
        f.valid(),
    ensures
        f.insert(id, v).valid(),
        forall|w: ValueView| #[trigger]
            f.insert(id, v).holders(w) == if same_bucket(w, v) {
                f.holders(w).push(id)
            } else {
                f.holders(w)
            },
{
    match v {
        ValueView::Integer(x) => lemma_with_id::<i64>(f.integers, x, id),
        ValueView::Float(x) => {
            let k = float_rank(x);
            lemma_with_id::<Float64>(f.floats, k, id);
            lemma_lower_bound::<Float64>(f.floats, k);
            let n = lower_bound::<Float64>(f.floats, k);
            let t = with_id::<Float64>(f.floats, k, id);
            assert forall|i: int| 0 <= i < t.len() implies is_float_rank((#[trigger] t[i]).0) by {
                if i == n {
                    assert(float_rank(x) == t[i].0);
                } else {
                    let i2 = if t.len() == f.floats.len() || i < n { i } else { i - 1 };
                    assert(t[i] == f.floats[i2]);
                }
            }
        },
        ValueView::Text(x) => lemma_with_id::<String>(f.texts, x, id),
        ValueView::Boolean(x) => lemma_with_id::<bool>(f.bools, x, id),
        ValueView::Null => {},
    }
}

/// Taking a value out keeps the buckets in order and takes the node out of one
/// of them.
pub proof fn lemma_field_remove(f: FieldView, id: NodeId, v: ValueView)
    requires
        f.valid(),
    ensures
        f.remove(id, v).valid(),
        forall|w: ValueView| #[trigger]
            f.remove(id, v).holders(w) == if same_bucket(w, v) {
                others(f.holders(w), id)
            } else {
                f.holders(w)
            },
{
    match v {
        ValueView::Integer(x) => lemma_without::<i64>(f.integers, x, id),
        ValueView::Float(x) => {
            let k = float_rank(x);
            lemma_without::<Float64>(f.floats, k, id);
            lemma_lower_bound::<Float64>(f.floats, k);
            let n = lower_bound::<Float64>(f.floats, k);
            let t = without::<Float64>(f.floats, k, id);
            assert forall|i: int| 0 <= i < t.len() implies is_float_rank((#[trigger] t[i]).0) by {
                let i2 = if t.len() == f.floats.len() || i < n { i } else { i + 1 };
                assert(is_float_rank(f.floats[i2].0));
                assert(t[i].0 == f.floats[i2].0);
            }
        },
        ValueView::Text(x) => lemma_without::<String>(f.texts, x, id),
        ValueView::Boolean(x) => lemma_without::<bool>(f.bools, x, id),
        ValueView::Null => {},
    }
}

/// The number buckets that a query selects hold the nodes with a number that
/// compares as asked.
proof fn lemma_gather_numbers(
    f: FieldView,
    op: ComparisonOp,
    y: Float64,
    p: spec_fn(Option<int>) -> bool,
    id: NodeId,
)
    requires
        f.valid(),
        forall|k: Option<int>| #[trigger] p(k) == op.holds_floats(number_at(k), y),
    ensures
        gather::<Float64>(f.floats, p).contains(id) <==> exists|x: Float64|
            op.holds_floats(x, y) && (#[trigger] f.holders(ValueView::Float(x))).contains(id),
{
    lemma_gather::<Float64>(f.floats, p, id);
    if gather::<Float64>(f.floats, p).contains(id) {
        let k = choose|k: Option<int>|
            p(k) && (#[trigger] bucket::<Float64>(f.floats, k)).contains(id);
        lemma_lower_bound::<Float64>(f.floats, k);
        let i = lower_bound::<Float64>(f.floats, k);
        assert(is_float_rank(f.floats[i].0));
        let x = number_at(k);
        assert(float_rank(x) == k);
        assert(f.holders(ValueView::Float(x)).contains(id));
    }
    if exists|x: Float64|
        op.holds_floats(x, y) && (#[trigger] f.holders(ValueView::Float(x))).contains(id) {
        let x = choose|x: Float64|
            op.holds_floats(x, y) && (#[trigger] f.holders(ValueView::Float(x))).contains(id);
        lemma_number_at(op, x, y);
        assert(p(float_rank(x)));
        assert(bucket::<Float64>(f.floats, float_rank(x)).contains(id));
    }
}

proof fn lemma_gather_integers(
    f: FieldView,
    op: ComparisonOp,
    v: ValueView,
    p: spec_fn(i64) -> bool,
    id: NodeId,
)
    requires
        f.valid(),
        forall|k: i64| #[trigger] p(k) == op.holds_values(ValueView::Integer(k), v),
    ensures
        gather::<i64>(f.integers, p).contains(id) <==> exists|k: i64|
            op.holds_values(ValueView::Integer(k), v) && (#[trigger] f.holders(
                ValueView::Integer(k),
            )).contains(id),
{
    lemma_gather::<i64>(f.integers, p, id);
    if gather::<i64>(f.integers, p).contains(id) {
        let k = choose|k: i64| p(k) && (#[trigger] bucket::<i64>(f.integers, k)).contains(id);
        assert(f.holders(ValueView::Integer(k)).contains(id));
    }
    if exists|k: i64|
        op.holds_values(ValueView::Integer(k), v) && (#[trigger] f.holders(
            ValueView::Integer(k),
        )).contains(id) {
        let k = choose|k: i64|
            op.holds_values(ValueView::Integer(k), v) && (#[trigger] f.holders(
                ValueView::Integer(k),
            )).contains(id);
        assert(p(k));
        assert(bucket::<i64>(f.integers, k).contains(id));
    }
}

proof fn lemma_either<A>(s: Seq<A>, t: Seq<A>, x: A)
    ensures
        (s + t).contains(x) <==> s.contains(x) || t.contains(x),
{
    if (s + t).contains(x) {
        let i = choose|i: int| 0 <= i < (s + t).len() && (s + t)[i] == x;
        if i < s.len() {
            assert(s[i] == x);
        } else {
            assert(t[i - s.len()] == x);
        }
    }
    if s.contains(x) {
        let i = choose|i: int| 0 <= i < s.len() && s[i] == x;
        assert((s + t)[i] == x);
    }
    if t.contains(x) {
        let i = choose|i: int| 0 <= i < t.len() && t[i] == x;
        assert((s + t)[s.len() + i] == x);
    }
}

/// A query finds the nodes that hold a value which compares to the given one as
/// asked, of whatever kind, and no others.
pub proof fn law_query_finds_holders(f: FieldView, op: ComparisonOp, v: ValueView, id: NodeId)
    requires
        f.valid(),
    ensures
        f.query(op, v).contains(id) <==> exists|w: ValueView|
            op.holds_values(w, v) && (#[trigger] f.holders(w)).contains(id),
{
    let whole = f.query(op, v);
    match v {
        ValueView::Integer(x) => {
            let p = |k: i64| selects::<i64>(op, k, x);
            let q = |k: Option<int>| op.holds_floats(number_at(k), Float64::of_int(x as int));
            lemma_gather_integers(f, op, v, p, id);
            lemma_gather_numbers(f, op, Float64::of_int(x as int), q, id);
            lemma_either(gather::<i64>(f.integers, p), gather::<Float64>(f.floats, q), id);
            assert(whole == gather::<i64>(f.integers, p) + gather::<Float64>(f.floats, q));
            lemma_number_holders(f, op, v, Float64::of_int(x as int), id);
        },
        ValueView::Float(x) => {
            let p = |k: i64| op.holds_floats(Float64::of_int(k as int), x);
            let q = |k: Option<int>| op.holds_floats(number_at(k), x);
            lemma_gather_integers(f, op, v, p, id);
            lemma_gather_numbers(f, op, x, q, id);
            lemma_either(gather::<i64>(f.integers, p), gather::<Float64>(f.floats, q), id);
            assert(whole == gather::<i64>(f.integers, p) + gather::<Float64>(f.floats, q));
            lemma_number_holders(f, op, v, x, id);
        },
        ValueView::Text(x) => {
            let p = |k: Seq<char>| selects::<String>(op, k, x);
            lemma_gather::<String>(f.texts, p, id);
            assert forall|k: Seq<char>| #[trigger] p(k) == op.holds_values(ValueView::Text(k), v) by {
                <String as IndexKey>::lemma_order(k, x, k);
                <String as IndexKey>::lemma_order(x, k, x);
            }
            if whole.contains(id) {
                let k = choose|k: Seq<char>|
                    p(k) && (#[trigger] bucket::<String>(f.texts, k)).contains(id);
                assert(f.holders(ValueView::Text(k)).contains(id));
            }
            if exists|w: ValueView| op.holds_values(w, v) && (#[trigger] f.holders(w)).contains(id) {
                let w = choose|w: ValueView|
                    op.holds_values(w, v) && (#[trigger] f.holders(w)).contains(id);
                let k = w->Text_0;
                assert(p(k) && bucket::<String>(f.texts, k).contains(id));
            }
        },
        ValueView::Boolean(x) => {
            let p = |k: bool| selects::<bool>(op, k, x);
            lemma_gather::<bool>(f.bools, p, id);
            assert forall|k: bool| #[trigger] p(k) == op.holds_values(ValueView::Boolean(k), v) by {}
            if whole.contains(id) {
                let k = choose|k: bool| p(k) && (#[trigger] bucket::<bool>(f.bools, k)).contains(id);
                assert(f.holders(ValueView::Boolean(k)).contains(id));
            }
            if exists|w: ValueView| op.holds_values(w, v) && (#[trigger] f.holders(w)).contains(id) {
                let w = choose|w: ValueView|
                    op.holds_values(w, v) && (#[trigger] f.holders(w)).contains(id);
                let k = w->Boolean_0;
                assert(p(k) && bucket::<bool>(f.bools, k).contains(id));
            }
        },
        ValueView::Null => {
            assert(f.holders(ValueView::Null) == f.nulls);
        },
    }
}

/// The values that compare with a number are integers and other numbers.
proof fn lemma_number_holders(f: FieldView, op: ComparisonOp, v: ValueView, y: Float64, id: NodeId)
    requires
        v is Integer && y == Float64::of_int(v->Integer_0 as int) || v == ValueView::Float(y),
    ensures
        (exists|w: ValueView| op.holds_values(w, v) && (#[trigger] f.holders(w)).contains(id)) <==> (
        exists|k: i64|
            op.holds_values(ValueView::Integer(k), v) && (#[trigger] f.holders(
                ValueView::Integer(k),
            )).contains(id)) || (exists|x: Float64|
            op.holds_floats(x, y) && (#[trigger] f.holders(ValueView::Float(x))).contains(id)),
{
    if exists|w: ValueView| op.holds_values(w, v) && (#[trigger] f.holders(w)).contains(id) {
        let w = choose|w: ValueView|
            op.holds_values(w, v) && (#[trigger] f.holders(w)).contains(id);
        match w {
            ValueView::Integer(k) => {
                assert(f.holders(ValueView::Integer(k)).contains(id));
            },
            ValueView::Float(x) => {
                assert(f.holders(ValueView::Float(x)).contains(id));
            },
            _ => {},
        }
    }
}

/// Taking out of a field what was just added to it gives the field back, where
/// the node was not in it with that value.
pub proof fn law_remove_undoes_insert(f: FieldView, id: NodeId, v: ValueView)
    requires
        f.valid(),
        !f.holders(v).contains(id),
    ensures
        f.insert(id, v).remove(id, v) == f,
{
    match v {
        ValueView::Integer(x) => lemma_without_undoes::<i64>(f.integers, x, id),
        ValueView::Float(x) => lemma_without_undoes::<Float64>(f.floats, float_rank(x), id),
        ValueView::Text(x) => lemma_without_undoes::<String>(f.texts, x, id),
        ValueView::Boolean(x) => lemma_without_undoes::<bool>(f.bools, x, id),
        ValueView::Null => lemma_others_of_push(f.nulls, id),
    }
}

/// A value that no node had is one distinct value more, and a value that some node had is
/// none.
pub proof fn law_values_are_counted_once(f: FieldView, id: NodeId, v: ValueView)
    requires
        f.valid(),
    ensures
        f.insert(id, v).cardinality() == f.cardinality() + (if f.holders(v).len() == 0 {
            1nat
        } else {
            0
        }),
{
    match v {
        ValueView::Integer(x) => lemma_lower_bound::<i64>(f.integers, x),
        ValueView::Float(x) => lemma_lower_bound::<Float64>(f.floats, float_rank(x)),
        ValueView::Text(x) => lemma_lower_bound::<String>(f.texts, x),
        ValueView::Boolean(x) => lemma_lower_bound::<bool>(f.bools, x),
        ValueView::Null => {},
    }
}

/// The index of one field.
pub struct FieldIndex {
    integers: BucketMap<i64>,
    floats: BucketMap<Float64>,
    texts: BucketMap<String>,
    bools: BucketMap<bool>,
    nulls: Vec<NodeId>,
}

impl View for FieldIndex {
    type V = FieldView;

    closed spec fn view(&self) -> FieldView {
        FieldView {
            integers: self.integers.buckets(),
            floats: self.floats.buckets(),
            texts: self.texts.buckets(),
            bools: self.bools.buckets(),
            nulls: self.nulls@,
        }
    }
}

impl FieldIndex {
    fn new() -> (r: FieldIndex)
        ensures
            r@ == FieldView::empty(),
            r@.valid(),
    {
        FieldIndex {
            integers: BucketMap::new(),
            floats: BucketMap::new(),
            texts: BucketMap::new(),
            bools: BucketMap::new(),
            nulls: Vec::new(),
        }
    }

    fn insert(&mut self, id: NodeId, value: &Value)
        requires
            old(self)@.valid(),
        ensures
            final(self)@ == old(self)@.insert(id, value@),
            final(self)@.valid(),
    {
        proof {
            lemma_field_insert(self@, id, value@);
        }
        match value {
            Value::Integer(v) => self.integers.bucket_insert(*v, id),
            Value::Float(v) => self.floats.bucket_insert(*v, id),
            Value::Text(v) => self.texts.bucket_insert(v.clone(), id),
            Value::Boolean(v) => self.bools.bucket_insert(*v, id),
            Value::Null => self.nulls.push(id),
        }
    }

    fn remove(&mut self, id: NodeId, value: &Value)
        requires
            old(self)@.valid(),
        ensures
            final(self)@ == old(self)@.remove(id, value@),
            final(self)@.valid(),
    {
        proof {
            lemma_field_remove(self@, id, value@);
        }
        match value {
            Value::Integer(v) => self.integers.bucket_remove(v, id),
            Value::Float(v) => self.floats.bucket_remove(v, id),
            Value::Text(v) => self.texts.bucket_remove(v, id),
            Value::Boolean(v) => self.bools.bucket_remove(v, id),
            Value::Null => {
                self.nulls = without_id(&self.nulls, id);
            },
        }
    }

    fn query(&self, op: &ComparisonOp, value: &Value) -> (r: Vec<NodeId>)
        requires
            self@.valid(),
        ensures
            r@ == self@.query(*op, value@),
    {
        match value {
            Value::Integer(v) => {
                let mut found = self.integers.range_query(op, v);
                let mut numbers = self.floats.query_numbers(op, Float64::from_i64(*v));
                found.append(&mut numbers);
                found
            },
            Value::Float(v) => {
                let mut found = self.integers.query_as_numbers(op, *v);
                let mut numbers = self.floats.query_numbers(op, *v);
                found.append(&mut numbers);
                found
            },
            Value::Text(v) => self.texts.range_query(op, v),
            Value::Boolean(v) => self.bools.range_query(op, v),
            Value::Null => {
                if *op == ComparisonOp::Eq {
                    copy_ids(&self.nulls)
                } else {
                    Vec::new()
                }
            },
        }
    }
}

/// A copy of a list of identifiers.
pub fn copy_ids(ids: &Vec<NodeId>) -> (r: Vec<NodeId>)
    ensures
        r@ == ids@,
{
    let mut out: Vec<NodeId> = Vec::new();
    let mut i: usize = 0;
    while i < ids.len()
        invariant
            i <= ids.len(),
            out@ =~= ids@.take(i as int),
        decreases ids.len() - i,
    {
        out.push(ids[i]);
        i += 1;
    }
    out
}

/// The index of a field, empty where it has none.
pub open spec fn field_of(m: Map<Seq<char>, FieldView>, field: Seq<char>) -> FieldView {
    if m.contains_key(field) {
        m[field]
    } else {
        FieldView::empty()
    }
}

/// The indexes after a node's properties were added.
pub open spec fn index_insert(
    m: Map<Seq<char>, FieldView>,
    id: NodeId,
    props: Map<Seq<char>, ValueView>,
) -> Map<Seq<char>, FieldView> {
    Map::new(
        |f: Seq<char>| m.contains_key(f) || props.contains_key(f),
        |f: Seq<char>|
            if props.contains_key(f) {
                field_of(m, f).insert(id, props[f])
            } else {
                m[f]
            },
    )
}

/// The indexes after a node's properties were taken out. A field stays indexed.
pub open spec fn index_remove(
    m: Map<Seq<char>, FieldView>,
    id: NodeId,
    props: Map<Seq<char>, ValueView>,
) -> Map<Seq<char>, FieldView> {
    m.map_entries(
        |f: Seq<char>, fv: FieldView|
            if props.contains_key(f) {
                fv.remove(id, props[f])
            } else {
                fv
            },
    )
}

/// Taking out the properties of a node that were just indexed leaves every field
/// as it was, and so every query, where the node was not indexed before.
pub proof fn law_removal_restores_queries(
    m: Map<Seq<char>, FieldView>,
    id: NodeId,
    props: Map<Seq<char>, ValueView>,
    field: Seq<char>,
)
    requires
        fields_valid(m),
        props.contains_key(field) ==> !field_of(m, field).holders(props[field]).contains(id),
    ensures
        field_of(index_remove(index_insert(m, id, props), id, props), field) == field_of(m, field),
        forall|op: ComparisonOp, v: ValueView| #[trigger]
            field_of(index_remove(index_insert(m, id, props), id, props), field).query(op, v)
                == field_of(m, field).query(op, v),
{
    if props.contains_key(field) {
        law_remove_undoes_insert(field_of(m, field), id, props[field]);
    }
}

/// Indexes of node properties by field.
pub struct PropertyIndex {
    fields: StringMap<FieldIndex>,
}

impl View for PropertyIndex {
    type V = Map<Seq<char>, FieldView>;

    closed spec fn view(&self) -> Map<Seq<char>, FieldView> {
        self.fields@
    }
}

/// Whether the buckets of every field are in order.
pub open spec fn fields_valid(m: Map<Seq<char>, FieldView>) -> bool {
    forall|f: Seq<char>| #[trigger] m.contains_key(f) ==> m[f].valid()
}

impl PropertyIndex {
    /// Whether the index is in order.
    pub open spec fn valid(&self) -> bool {
        fields_valid(self@)
    }

    /// An index without fields.
    pub fn new() -> (r: PropertyIndex)
        ensures
            r.valid(),
            r@ == Map::<Seq<char>, FieldView>::empty(),
    {
        PropertyIndex { fields: StringMap::new() }
    }

    /// Indexes all properties of a node.
    pub fn insert_node(&mut self, id: NodeId, props: &StringMap<Value>)
        requires
            old(self).valid(),
        ensures
            final(self).valid(),
            final(self)@ == index_insert(old(self)@, id, props@),
    {
        let ghost before = self@;
        let ghost entries = props.entries();
        let n: usize = props.len();
        let mut i: usize = 0;
        assert(entries.take(0) =~= Seq::empty());
        assert(self@ =~= index_insert(before, id, entries_map(entries.take(0))));
        while i < n
            invariant
                i <= n,
                n == entries.len(),
                entries == props.entries(),
                distinct_keys(entries),
                self.valid(),
                self@ == index_insert(before, id, entries_map(entries.take(i as int))),
            decreases n - i,
        {
            let ghost now = self@;
            let ghost done = entries_map(entries.take(i as int));
            let ghost key = entries[i as int].0;
            proof {
                lemma_next_entry(entries, i as int);
            }
            let field = props.key_at(i);
            let mut index = match self.fields.remove(field.as_str()) {
                Some(f) => f,
                None => FieldIndex::new(),
            };
            assert(index@ == field_of(before, key));
            index.insert(id, props.value_at(i));
            self.fields.insert(field.clone(), index);
            proof {
                let grown = entries_map(entries.take(i + 1));
                assert(self@ =~= index_insert(before, id, grown));
                assert forall|f: Seq<char>| #[trigger] self@.contains_key(f) implies self@[f].valid() by {
                    if f != key {
                        assert(now.contains_key(f));
                    }
                }
            }
            i += 1;
        }
        assert(entries.take(n as int) =~= entries);
    }

    /// Takes all properties of a node out.
    pub fn remove_node(&mut self, id: NodeId, props: &StringMap<Value>)
        requires
            old(self).valid(),
        ensures
            final(self).valid(),
            final(self)@ == index_remove(old(self)@, id, props@),
    {
        let ghost before = self@;
        let ghost entries = props.entries();
        let n: usize = props.len();
        let mut i: usize = 0;
        assert(entries.take(0) =~= Seq::empty());
        assert(self@ =~= index_remove(before, id, entries_map(entries.take(0))));
        while i < n
            invariant
                i <= n,
                n == entries.len(),
                entries == props.entries(),
                distinct_keys(entries),
                self.valid(),
                self@ == index_remove(before, id, entries_map(entries.take(i as int))),
            decreases n - i,
        {
            let ghost now = self@;
            let ghost key = entries[i as int].0;
            proof {
                lemma_next_entry(entries, i as int);
            }
            let field = props.key_at(i);
            match self.fields.remove(field.as_str()) {
                Some(f) => {
                    let mut index = f;
                    assert(now.contains_key(key));
                    index.remove(id, props.value_at(i));
                    self.fields.insert(field.clone(), index);
                },
                None => {},
            }
            proof {
                let grown = entries_map(entries.take(i + 1));
                assert(self@ =~= index_remove(before, id, grown));
                assert forall|f: Seq<char>| #[trigger] self@.contains_key(f) implies self@[f].valid() by {
                    if f != key {
                        assert(now.contains_key(f));
                    }
                }
            }
            i += 1;
        }
        assert(entries.take(n as int) =~= entries);
    }

    /// The nodes whose field compares to the value as asked, or nothing where the
    /// field is not indexed.
    pub fn query(&self, field: &str, op: &ComparisonOp, value: &Value) -> (r: Option<Vec<NodeId>>)
        requires
            self.valid(),
        ensures
            match r {
                Some(ids) => self@.contains_key(field@) && ids@ == self@[field@].query(*op, value@),
                None => !self@.contains_key(field@),
            },
    {
        match self.fields.get(field) {
            Some(f) => Some(f.query(op, value)),
            None => None,
        }
    }

    /// Whether the field is indexed.
    pub fn is_indexed(&self, field: &str) -> (r: bool)
        ensures
            r == self@.contains_key(field@),
    {
        self.fields.contains_key(field)
    }

    /// The indexed fields, each once.
    pub fn indexed_fields(&self) -> (r: Vec<String>)
        ensures
            forall|i: int, j: int| 0 <= i < j < r.len() ==> #[trigger] r[i]@ != #[trigger] r[j]@,
            forall|i: int| 0 <= i < r.len() ==> self@.contains_key(#[trigger] r[i]@),
            forall|field: Seq<char>| #[trigger]
                self@.contains_key(field) ==> exists|i: int|
                    0 <= i < r.len() && #[trigger] r[i]@ == field,
    {
        self.fields.keys()
    }

    /// The number of distinct values of a field. The count must fit in a
    /// machine word.
    pub fn field_cardinality(&self, field: &str) -> (r: usize)
        requires
            field_of(self@, field@).cardinality() <= usize::MAX,
        ensures
            r == field_of(self@, field@).cardinality(),
    {
        match self.fields.get(field) {
            None => 0,
            Some(f) => {
                let nulls: usize = if f.nulls.len() == 0 {
                    0
                } else {
                    1
                };
                f.integers.len() + f.floats.len() + f.texts.len() + f.bools.len() + nulls
            },
        }
    }
}

impl Default for PropertyIndex {
    fn default() -> (r: PropertyIndex)
        ensures
            r.valid(),
            r@ == Map::<Seq<char>, FieldView>::empty(),
    {
        PropertyIndex::new()
    }
}

/// The next entry has a key that none before it has.
proof fn lemma_next_entry<K, W>(entries: Seq<(K, W)>, i: int)
    requires
        distinct_keys(entries),
        0 <= i < entries.len(),
    ensures
        entries_map(entries.take(i + 1)) == entries_map(entries.take(i)).insert(
            entries[i].0,
            entries[i].1,
        ),
        !entries_map(entries.take(i)).contains_key(entries[i].0),
{
    assert(entries.take(i + 1).drop_last() =~= entries.take(i));
    lemma_entries_map_contains(entries.take(i), entries[i].0);
    if entries_map(entries.take(i)).contains_key(entries[i].0) {
        let j = choose|j: int|
            0 <= j < entries.take(i).len() && #[trigger] entries.take(i)[j].0 == entries[i].0;
        assert(entries[j].0 != entries[i].0);
    }
}

} // verus!
