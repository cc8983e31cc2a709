//! What comparisons of values mean, over all values.

use crate::adapters::index::bucket_map::lemma_text_order;
use crate::float::{
    lemma_round_ratio_monotone, lemma_round_units, lemma_units_monotone, lemma_units_shift,
    nearest, units, Float64, EPSILON_BITS, INFINITY_BITS, NAN_BITS, SIGN_BIT,
};
use crate::model::edge::EdgeView;
use crate::model::node::NodeView;
use crate::model::value::ValueView;
use crate::query::ast::{
    ComparisonOp, ConditionView, EdgeFilterView, LabelConditionView, NodeFilterView,
    WeightCondition,
};
use vstd::arithmetic::power2::{
    lemma2_to64, lemma2_to64_rest, lemma_pow2_adds, lemma_pow2_pos, lemma_pow2_unfold, pow2,
};
use vstd::prelude::*;

verus! {

/// The operator that says the same with the two sides exchanged.
pub open spec fn mirrored(op: ComparisonOp) -> ComparisonOp {
    match op {
        ComparisonOp::Lt => ComparisonOp::Gt,
        ComparisonOp::LtEq => ComparisonOp::GtEq,
        ComparisonOp::Gt => ComparisonOp::Lt,
        ComparisonOp::GtEq => ComparisonOp::LtEq,
        _ => op,
    }
}

/// The operator that says the opposite.
pub open spec fn opposed(op: ComparisonOp) -> ComparisonOp {
    match op {
        ComparisonOp::Eq => ComparisonOp::NotEq,
        ComparisonOp::NotEq => ComparisonOp::Eq,
        ComparisonOp::Lt => ComparisonOp::GtEq,
        ComparisonOp::LtEq => ComparisonOp::Gt,
        ComparisonOp::Gt => ComparisonOp::LtEq,
        ComparisonOp::GtEq => ComparisonOp::Lt,
    }
}

/// The order operators on numbers are those of an order: `<=` is the opposite of `>`,
/// `>=` the opposite of `<`, each is the mirror image of another, every number is at
/// most and at least itself, and less is transitive.
pub proof fn law_number_comparisons_order(a: Float64, b: Float64, c: Float64)
    requires
        !a.nan(),
        !b.nan(),
        !c.nan(),
    ensures
        ComparisonOp::LtEq.holds_floats(a, b) == !ComparisonOp::Gt.holds_floats(a, b),
        ComparisonOp::GtEq.holds_floats(a, b) == !ComparisonOp::Lt.holds_floats(a, b),
        ComparisonOp::LtEq.holds_floats(a, a),
        ComparisonOp::GtEq.holds_floats(a, a),
        !ComparisonOp::Lt.holds_floats(a, a),
        !ComparisonOp::Gt.holds_floats(a, a),
        ComparisonOp::LtEq.holds_floats(a, b) == ComparisonOp::GtEq.holds_floats(b, a),
        ComparisonOp::Lt.holds_floats(a, b) == ComparisonOp::Gt.holds_floats(b, a),
        ComparisonOp::Lt.holds_floats(a, b) ==> ComparisonOp::LtEq.holds_floats(a, b),
        ComparisonOp::Gt.holds_floats(a, b) ==> ComparisonOp::GtEq.holds_floats(a, b),
        ComparisonOp::Lt.holds_floats(a, b) && ComparisonOp::Lt.holds_floats(b, c)
            ==> ComparisonOp::Lt.holds_floats(a, c),
        ComparisonOp::LtEq.holds_floats(a, b) && ComparisonOp::LtEq.holds_floats(b, c)
            ==> ComparisonOp::LtEq.holds_floats(a, c),
{
}

/// Among finite numbers less means a smaller value, and infinity is above all of them.
pub proof fn law_less_is_smaller(a: Float64, b: Float64)
    requires
        a.finite(),
    ensures
        b.finite() ==> ComparisonOp::Lt.holds_floats(a, b) == (a.value() < b.value()),
        b.finite() ==> ComparisonOp::GtEq.holds_floats(a, b) == (a.value() >= b.value()),
        b == Float64::of_bits(INFINITY_BITS) ==> ComparisonOp::Lt.holds_floats(a, b),
        b == Float64::of_bits((SIGN_BIT + INFINITY_BITS) as u64)
            ==> ComparisonOp::Gt.holds_floats(a, b),
{
    Float64::lemma_of_bits(INFINITY_BITS);
    Float64::lemma_of_bits((SIGN_BIT + INFINITY_BITS) as u64);
    let x = a.magnitude();
    let y = b.magnitude();
    lemma_units_monotone(0, x);
    lemma_units_monotone(0, y);
    if x <= y {
        lemma_units_monotone(x, y);
    }
    if y <= x {
        lemma_units_monotone(y, x);
    }
}

proof fn lemma_opposite(b: Float64)
    requires
        b.finite(),
    ensures
        b.opposite().finite(),
        b.opposite().value() == -b.value(),
        b.opposite().magnitude() == b.magnitude(),
{
    if b.negative() {
        Float64::lemma_of_bits(b.magnitude() as u64);
    } else {
        Float64::lemma_of_bits((SIGN_BIT + b.magnitude()) as u64);
    }
}

/// How far two finite numbers are from each other, in units.
pub open spec fn distance(a: Float64, b: Float64) -> nat {
    if a.value() <= b.value() {
        (b.value() - a.value()) as nat
    } else {
        (a.value() - b.value()) as nat
    }
}

proof fn lemma_difference(a: Float64, b: Float64)
    requires
        a.finite(),
        b.finite(),
    ensures
        Float64::close(a, b) == (nearest(distance(a, b), 1) < EPSILON_BITS),
        Float64::apart(a, b) == !Float64::close(a, b),
{
    lemma_opposite(b);
    let n = a.value() - b.value();
    lemma_round_units(0);
    if n == 0 {
        Float64::lemma_of_bits(SIGN_BIT);
        Float64::lemma_of_bits(0);
    } else if n < 0 {
        Float64::lemma_of_bits((SIGN_BIT + nearest((-n) as nat, 1)) as u64);
    } else {
        Float64::lemma_of_bits(nearest(n as nat, 1) as u64);
    }
}

proof fn lemma_epsilon()
    ensures
        units(EPSILON_BITS as nat) == pow2(1022),
{
    lemma2_to64_rest();
    lemma_units_shift(EPSILON_BITS as nat);
    assert(0x3cb0_0000_0000_0000nat / 0x10_0000_0000_0000 == 971);
    assert(0x3cb0_0000_0000_0000nat % 0x10_0000_0000_0000 == 0);
    lemma_pow2_adds(52, 970);
}

/// Equality of finite numbers is reflexive and symmetric, unequal is its opposite, and
/// it depends on how near the numbers are alone: numbers with a difference of `2^-52`
/// or more are unequal, and nearer numbers than two equal ones are equal.
pub proof fn law_number_equality(a: Float64, b: Float64, c: Float64, d: Float64)
    requires
        a.finite(),
        b.finite(),
        c.finite(),
        d.finite(),
    ensures
        ComparisonOp::Eq.holds_floats(a, a),
        ComparisonOp::Eq.holds_floats(a, b) == ComparisonOp::Eq.holds_floats(b, a),
        ComparisonOp::NotEq.holds_floats(a, b) == !ComparisonOp::Eq.holds_floats(a, b),
        ComparisonOp::Eq.holds_floats(a, b) ==> distance(a, b) < pow2(1022),
        ComparisonOp::Eq.holds_floats(c, d) && distance(a, b) <= distance(c, d)
            ==> ComparisonOp::Eq.holds_floats(a, b),
        2 * distance(a, b) <= pow2(1022) ==> ComparisonOp::Eq.holds_floats(a, b),
{
    lemma_difference(a, a);
    lemma_difference(a, b);
    lemma_difference(b, a);
    lemma_difference(c, d);
    lemma_round_units(0);
    lemma_epsilon();
    lemma_round_units(EPSILON_BITS as nat);
    if distance(a, b) >= pow2(1022) {
        lemma_round_ratio_monotone(pow2(1022), distance(a, b), 1);
    }
    if distance(a, b) <= distance(c, d) {
        lemma_round_ratio_monotone(distance(a, b), distance(c, d), 1);
    }
    if 2 * distance(a, b) <= pow2(1022) {
        let half: nat = 0x3ca0_0000_0000_0000;
        assert(units(EPSILON_BITS as nat) == 2 * units(half));
        lemma_round_units(half);
        lemma_round_ratio_monotone(distance(a, b), units(half), 1);
    }
}

/// What is not a number compares with nothing, whatever the operator.
pub proof fn law_nan_compares_with_nothing(op: ComparisonOp, a: Float64, b: Float64)
    requires
        a.nan() || b.nan(),
    ensures
        !op.holds_floats(a, b),
{
    Float64::lemma_of_bits(NAN_BITS);
    if b.nan() {
        if b.negative() {
            Float64::lemma_of_bits(b.magnitude() as u64);
        } else {
            Float64::lemma_of_bits((SIGN_BIT + b.magnitude()) as u64);
        }
    }
}

/// A larger integer is not a smaller number.
pub proof fn law_integers_keep_order_as_numbers(i: i64, j: i64)
    requires
        i <= j,
    ensures
        !Float64::of_int(i as int).nan(),
        !Float64::of_int(j as int).nan(),
        ComparisonOp::LtEq.holds_floats(Float64::of_int(i as int), Float64::of_int(j as int)),
{
    let p = pow2(1074);
    lemma_pow2_pos(1074);
    assert(i * p <= j * p) by (nonlinear_arith)
        requires
            i <= j,
            p > 0,
    ;
    assert((i * p < 0) == (i < 0)) by (nonlinear_arith)
        requires
            p > 0,
    ;
    assert((j * p < 0) == (j < 0)) by (nonlinear_arith)
        requires
            p > 0,
    ;
    lemma_bits_of_int(i as int);
    lemma_bits_of_int(j as int);
    if i >= 0 {
        lemma_round_ratio_monotone((i * p) as nat, (j * p) as nat, 1);
    } else if j < 0 {
        lemma_round_ratio_monotone((-(j * p)) as nat, (-(i * p)) as nat, 1);
    }
}

/// The sign and the magnitude of an integer as a number.
pub proof fn lemma_bits_of_int(n: int)
    ensures
        n * pow2(1074) < 0 ==> {
            &&& Float64::of_int(n).negative()
            &&& Float64::of_int(n).magnitude() == nearest((-(n * pow2(1074))) as nat, 1)
        },
        n * pow2(1074) >= 0 ==> {
            &&& !Float64::of_int(n).negative()
            &&& Float64::of_int(n).magnitude() == nearest((n * pow2(1074)) as nat, 1)
        },
{
    let v = n * pow2(1074);
    if v < 0 {
        Float64::lemma_of_bits((SIGN_BIT + nearest((-v) as nat, 1)) as u64);
    } else {
        Float64::lemma_of_bits(nearest(v as nat, 1) as u64);
    }
}

/// A whole number of at most 53 bits, doubled any number of times, is a double.
proof fn lemma_doubled_exact(n: nat, k: nat) -> (bits: nat)
    requires
        n < 0x20_0000_0000_0000,
    ensures
        units(bits) == n * pow2(k),
        bits <= 0x20_0000_0000_0000 + k * 0x10_0000_0000_0000,
    decreases k,
{
    lemma2_to64();
    if k == 0 {
        assert(n * pow2(0) == n);
        n
    } else {
        let before = lemma_doubled_exact(n, (k - 1) as nat);
        let p = pow2((k - 1) as nat);
        lemma_pow2_unfold(k);
        assert(n * (2 * p) == 2 * (n * p)) by (nonlinear_arith);
        if before < 0x10_0000_0000_0000 {
            2 * before
        } else {
            before + 0x10_0000_0000_0000
        }
    }
}

/// An integer of at most 53 bits is a number of the same value.
pub proof fn law_integers_are_exact(i: i64)
    requires
        -0x20_0000_0000_0000 < i < 0x20_0000_0000_0000,
    ensures
        Float64::of_int(i as int).finite(),
        Float64::of_int(i as int).value() == i * pow2(1074),
{
    let p = pow2(1074);
    lemma_pow2_pos(1074);
    let n: nat = if i < 0 {
        (-i) as nat
    } else {
        i as nat
    };
    let bits = lemma_doubled_exact(n, 1074);
    lemma_round_units(bits);
    lemma_bits_of_int(i as int);
    assert((i * p < 0) == (i < 0)) by (nonlinear_arith)
        requires
            p > 0,
    ;
    assert(i < 0 ==> i * p == -(n * p)) by (nonlinear_arith)
        requires
            i < 0 ==> n == -i,
    ;
}

/// Every integer is a finite number.
pub proof fn law_integers_are_finite(i: i64)
    ensures
        Float64::of_int(i as int).finite(),
{
    let p = pow2(1074);
    lemma_pow2_pos(1074);
    lemma2_to64_rest();
    let top: nat = 0x43e0_0000_0000_0000;
    lemma_units_shift(top);
    assert(top / 0x10_0000_0000_0000 == 1086);
    assert(top % 0x10_0000_0000_0000 == 0);
    lemma_pow2_adds(52, 1085);
    lemma_pow2_adds(63, 1074);
    let n: nat = if i < 0 {
        (-i) as nat
    } else {
        i as nat
    };
    assert(n * p <= 0x8000_0000_0000_0000 * p) by (nonlinear_arith)
        requires
            n <= 0x8000_0000_0000_0000,
    ;
    assert(units(top) == 0x8000_0000_0000_0000 * p);
    lemma_round_ratio_monotone(n * p, units(top), 1);
    lemma_round_units(top);
    lemma_bits_of_int(i as int);
    assert((i * p < 0) == (i < 0)) by (nonlinear_arith)
        requires
            p > 0,
    ;
    assert(i < 0 ==> i * p == -(n * p)) by (nonlinear_arith)
        requires
            i < 0 ==> n == -i,
    ;
}

/// Whether two values are both texts, both integers or both truth values.
pub open spec fn ordered_alike(a: ValueView, b: ValueView) -> bool {
    ||| a is Text && b is Text
    ||| a is Integer && b is Integer
    ||| a is Boolean && b is Boolean
}

/// Among texts, integers and truth values the six operators are those of a total
/// order: each has its opposite and its mirror image, equal values are the same
/// value, and less is transitive.
pub proof fn law_values_of_a_kind_are_ordered(
    op: ComparisonOp,
    a: ValueView,
    b: ValueView,
    c: ValueView,
)
    requires
        ordered_alike(a, b),
        ordered_alike(b, c),
    ensures
        opposed(op).holds_values(a, b) == !op.holds_values(a, b),
        mirrored(op).holds_values(b, a) == op.holds_values(a, b),
        ComparisonOp::Eq.holds_values(a, b) == (a == b),
        ComparisonOp::LtEq.holds_values(a, b) == (ComparisonOp::Lt.holds_values(a, b) || a == b),
        !ComparisonOp::Lt.holds_values(a, a),
        ComparisonOp::Lt.holds_values(a, b) && ComparisonOp::Lt.holds_values(b, c)
            ==> ComparisonOp::Lt.holds_values(a, c),
{
    if a is Text {
        let x = a->Text_0;
        let y = b->Text_0;
        let z = c->Text_0;
        lemma_text_order(x, y, z);
        lemma_text_order(x, y, x);
        lemma_text_order(y, x, y);
    }
}

/// Integers are ordered by size, and false stands before true.
pub proof fn law_integers_and_truth_values(x: i64, y: i64)
    ensures
        ComparisonOp::Lt.holds_values(ValueView::Integer(x), ValueView::Integer(y)) == (x < y),
        ComparisonOp::Gt.holds_values(ValueView::Integer(x), ValueView::Integer(y)) == (x > y),
        ComparisonOp::Lt.holds_values(ValueView::Boolean(false), ValueView::Boolean(true)),
{
}

/// Texts are ordered by the first character in which they differ, and a text stands
/// before its continuations.
pub proof fn law_texts_are_ordered(
    common: Seq<char>,
    x: char,
    y: char,
    a: Seq<char>,
    b: Seq<char>,
)
    ensures
        x != y ==> ComparisonOp::Lt.holds_values(
            ValueView::Text(common + seq![x] + a),
            ValueView::Text(common + seq![y] + b),
        ) == (x < y),
        ComparisonOp::Lt.holds_values(
            ValueView::Text(common),
            ValueView::Text(common + seq![x] + a),
        ),
    decreases common.len(),
{
    let s = common + seq![x] + a;
    let t = common + seq![y] + b;
    if common.len() > 0 {
        let rest = common.drop_first();
        law_texts_are_ordered(rest, x, y, a, b);
        assert(s.drop_first() =~= rest + seq![x] + a);
        assert(t.drop_first() =~= rest + seq![y] + b);
        assert(s[0] == common[0] && t[0] == common[0]);
    } else {
        assert(s[0] == x && t[0] == y);
    }
}

/// An integer and a number compare by size, on either side.
pub proof fn law_integers_compare_with_numbers(op: ComparisonOp, i: i64, x: Float64)
    ensures
        op.holds_values(ValueView::Integer(i), ValueView::Float(x)) == mirrored(op).holds_values(
            ValueView::Float(x),
            ValueView::Integer(i),
        ),
        -0x20_0000_0000_0000 < i < 0x20_0000_0000_0000 && x.finite() ==> {
            &&& ComparisonOp::Lt.holds_values(ValueView::Integer(i), ValueView::Float(x)) == (i
                * pow2(1074) < x.value())
            &&& ComparisonOp::Gt.holds_values(ValueView::Integer(i), ValueView::Float(x)) == (i
                * pow2(1074) > x.value())
            &&& (i * pow2(1074) == x.value() ==> ComparisonOp::Eq.holds_values(
                ValueView::Integer(i),
                ValueView::Float(x),
            ))
        },
{
    let y = Float64::of_int(i as int);
    lemma_equality_symmetric(y, x);
    if -0x20_0000_0000_0000 < i < 0x20_0000_0000_0000 && x.finite() {
        law_integers_are_exact(i);
        law_less_is_smaller(y, x);
        law_less_is_smaller(x, y);
        law_number_equality(y, x, y, y);
        law_number_equality(y, y, y, x);
        lemma_pow2_pos(1022);
    }
}

proof fn lemma_equality_symmetric(a: Float64, b: Float64)
    ensures
        Float64::close(a, b) == Float64::close(b, a),
        Float64::apart(a, b) == Float64::apart(b, a),
{
    if a.nan() || b.nan() {
        law_nan_compares_with_nothing(ComparisonOp::Eq, a, b);
        law_nan_compares_with_nothing(ComparisonOp::Eq, b, a);
        law_nan_compares_with_nothing(ComparisonOp::NotEq, a, b);
        law_nan_compares_with_nothing(ComparisonOp::NotEq, b, a);
    } else if a.finite() && b.finite() {
        lemma_difference(a, b);
        lemma_difference(b, a);
    } else {
        Float64::lemma_of_bits(NAN_BITS);
        lemma_opposite_sign(a);
        lemma_opposite_sign(b);
    }
}

proof fn lemma_opposite_sign(b: Float64)
    ensures
        b.opposite().magnitude() == b.magnitude(),
        b.opposite().negative() == !b.negative(),
{
    if b.negative() {
        Float64::lemma_of_bits(b.magnitude() as u64);
    } else {
        Float64::lemma_of_bits((SIGN_BIT + b.magnitude()) as u64);
    }
}

/// Whether a value is an integer or a number.
pub open spec fn is_numeric(a: ValueView) -> bool {
    a is Integer || a is Float
}

/// A missing value equals a missing value and nothing else, and values of kinds that
/// do not compare are not related by any operator.
pub proof fn law_unlike_values_are_unrelated(op: ComparisonOp, a: ValueView, b: ValueView)
    requires
        !ordered_alike(a, b),
        !(is_numeric(a) && is_numeric(b)),
    ensures
        op.holds_values(a, b) == (op == ComparisonOp::Eq && a is Null && b is Null),
{
}

/// A condition is met only where its property is there, and no other property
/// matters.
pub proof fn law_condition_reads_its_property(
    c: ConditionView,
    props: Map<Seq<char>, ValueView>,
    other: Seq<char>,
    v: ValueView,
)
    ensures
        !c.met_by(Map::empty()),
        !c.met_by(props.remove(c.key)),
        other != c.key ==> c.met_by(props.insert(other, v)) == c.met_by(props),
        c.met_by(props.insert(c.key, v)) == c.op.holds_values(v, c.value),
{
}

/// A filter without conditions lets every node and every edge pass, and a label
/// that is asked for lets exactly the label itself pass.
pub proof fn law_filters_start_open(n: NodeView, e: EdgeView, l: Seq<char>)
    ensures
        ({
            let any = NodeFilterView {
                label: None,
                label_conditions: Seq::empty(),
                conditions: Seq::empty(),
            };
            let asked = LabelConditionView { op: ComparisonOp::Eq, value: l };
            &&& any.accepts(n)
            &&& any.and_label(asked).accepts(n) == (n.label == l)
            &&& any.and_label(asked).and_label(asked).accepts(n) == (n.label == l)
        }),
        ({
            let any = EdgeFilterView {
                label: None,
                label_conditions: Seq::empty(),
                weight: None,
                further_weights: Seq::empty(),
                conditions: Seq::empty(),
            };
            let asked = LabelConditionView { op: ComparisonOp::Eq, value: l };
            &&& any.accepts(e)
            &&& any.and_label(asked).accepts(e) == (e.label == l)
            &&& any.and_label(asked).and_label(asked).accepts(e) == (e.label == l)
        }),
{
    let asked = LabelConditionView { op: ComparisonOp::Eq, value: l };
    let c = ConditionView { key: l, op: ComparisonOp::Eq, value: ValueView::Null };
    let w = WeightCondition { op: ComparisonOp::Eq, value: e.weight };
    let nodes = NodeFilterView {
        label: None,
        label_conditions: Seq::empty(),
        conditions: Seq::empty(),
    };
    let edges = EdgeFilterView {
        label: None,
        label_conditions: Seq::empty(),
        weight: None,
        further_weights: Seq::empty(),
        conditions: Seq::empty(),
    };
    nodes.and_label(asked).law_conditions_add_up(asked, c, n);
    edges.and_label(asked).law_conditions_add_up(asked, w, c, e);
}

/// A condition on a label compares the label as a text, and a condition on a weight
/// compares the weight as a number.
pub proof fn law_labels_and_weights_compare_as_values(
    op: ComparisonOp,
    label: Seq<char>,
    l: Seq<char>,
    weight: Float64,
    w: Float64,
)
    ensures
        (LabelConditionView { op, value: l }).met_by(label) == op.holds_values(
            ValueView::Text(label),
            ValueView::Text(l),
        ),
        (WeightCondition { op, value: w }).met_by(weight) == op.holds_values(
            ValueView::Float(weight),
            ValueView::Float(w),
        ),
{
}

/// Equality of values is symmetric and holds of every value and itself, but for what is
/// not a number. Values of different kinds are never equal; those that are no numbers with
/// a point are equal only where they are the same.
pub proof fn law_equal_values(a: ValueView, b: ValueView)
    ensures
        a.equals(b) == b.equals(a),
        !(a is Float) ==> a.equals(a),
        a matches ValueView::Float(x) ==> a.equals(a) == !x.nan(),
        !(a is Float) ==> a.equals(b) == (a == b),
        a is Float && !(b is Float) ==> !a.equals(b),
        a.equals(b) && a is Float ==> {
            &&& ComparisonOp::LtEq.holds_values(a, b)
            &&& ComparisonOp::GtEq.holds_values(a, b)
        },
        a is Float && b is Float && ComparisonOp::LtEq.holds_values(a, b)
            && ComparisonOp::GtEq.holds_values(a, b) ==> a.equals(b),
{
}

/// The signs of the operators are those of arithmetic: one character for equal, less and
/// greater, with the sign of equality behind it where equal values count too, and before
/// it the mark of negation for unequal.
pub proof fn law_signs_of_operators()
    ensures
        ComparisonOp::Eq.text() == seq!['='],
        ComparisonOp::Lt.text() == seq!['<'],
        ComparisonOp::Gt.text() == seq!['>'],
        ComparisonOp::LtEq.text() == ComparisonOp::Lt.text() + ComparisonOp::Eq.text(),
        ComparisonOp::GtEq.text() == ComparisonOp::Gt.text() + ComparisonOp::Eq.text(),
        ComparisonOp::NotEq.text() == seq!['!'] + ComparisonOp::Eq.text(),
{
    reveal_strlit("=");
    reveal_strlit("<");
    reveal_strlit(">");
    reveal_strlit("<=");
    reveal_strlit(">=");
    reveal_strlit("!=");
    assert(ComparisonOp::Eq.text() =~= seq!['=']);
    assert(ComparisonOp::Lt.text() =~= seq!['<']);
    assert(ComparisonOp::Gt.text() =~= seq!['>']);
    assert(ComparisonOp::LtEq.text() =~= seq!['<'] + seq!['=']);
    assert(ComparisonOp::GtEq.text() =~= seq!['>'] + seq!['=']);
    assert(ComparisonOp::NotEq.text() =~= seq!['!'] + seq!['=']);
}

} // verus!
