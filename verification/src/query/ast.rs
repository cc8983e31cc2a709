//! The commands that queries are read into.

use crate::collections::string_map::StringMap;
use crate::float::Float64;
use crate::model::edge::{Edge, EdgeView};
use crate::model::edge_id::EdgeId;
use crate::model::node::{Node, NodeView};
use crate::model::node_id::NodeId;
use crate::model::value::{Value, ValueView};
use crate::text::{is_text_less, same_text, text_less};
use vstd::prelude::*;
use vstd::string::StringExecFns;

verus! {

/// How a value is compared.
#[derive(Clone, Copy, Debug, PartialEq, Eq, Structural)]
pub enum ComparisonOp {
    Eq,
    NotEq,
    Lt,
    LtEq,
    Gt,
    GtEq,
}

impl View for ComparisonOp {
    type V = ComparisonOp;

    open spec fn view(&self) -> ComparisonOp {
        *self
    }
}

impl ComparisonOp {
    /// What the operator says of two values of an ordered kind, given whether
    /// the first is less and whether they are equal.
    pub open spec fn holds(self, less: bool, equal: bool) -> bool {
        match self {
            ComparisonOp::Eq => equal,
            ComparisonOp::NotEq => !equal,
            ComparisonOp::Lt => less,
            ComparisonOp::LtEq => less || equal,
            ComparisonOp::Gt => !less && !equal,
            ComparisonOp::GtEq => !less,
        }
    }

    /// What the operator says of two numbers. Numbers that differ by less than
    /// `2^-52` count as equal.
    pub open spec fn holds_floats(self, a: Float64, b: Float64) -> bool {
        match self {
            ComparisonOp::Eq => Float64::close(a, b),
            ComparisonOp::NotEq => Float64::apart(a, b),
            ComparisonOp::Lt => Float64::lt(a, b),
            ComparisonOp::LtEq => Float64::lt(a, b) || Float64::same(a, b),
            ComparisonOp::Gt => Float64::lt(b, a),
            ComparisonOp::GtEq => Float64::lt(b, a) || Float64::same(a, b),
        }
    }

    /// What the operator says of two values. Integers and numbers compare as
    /// numbers; values of other different kinds are never related.
    pub open spec fn holds_values(self, a: ValueView, b: ValueView) -> bool {
        match (a, b) {
            (ValueView::Text(x), ValueView::Text(y)) => self.holds(text_less(x, y), x == y),
            (ValueView::Integer(x), ValueView::Integer(y)) => self.holds(x < y, x == y),
            (ValueView::Float(x), ValueView::Float(y)) => self.holds_floats(x, y),
            (ValueView::Integer(x), ValueView::Float(y)) => self.holds_floats(
                Float64::of_int(x as int),
                y,
            ),
            (ValueView::Float(x), ValueView::Integer(y)) => self.holds_floats(
                x,
                Float64::of_int(y as int),
            ),
            (ValueView::Boolean(x), ValueView::Boolean(y)) => self.holds(!x && y, x == y),
            _ => self == ComparisonOp::Eq && a.equals(b),
        }
    }

    /// Whether `lhs op rhs` holds.
    pub fn compare_values(&self, lhs: &Value, rhs: &Value) -> (r: bool)
        ensures
            r == self.holds_values(lhs@, rhs@),
    {
        match (lhs, rhs) {
            (Value::Text(a), Value::Text(b)) => {
                let less = is_text_less(a.as_str(), b.as_str());
                let equal = same_text(a.as_str(), b.as_str());
                self.compare_ord(less, equal)
            },
            (Value::Integer(a), Value::Integer(b)) => self.compare_ord(*a < *b, *a == *b),
            (Value::Float(a), Value::Float(b)) => self.compare_f64(*a, *b),
            (Value::Integer(a), Value::Float(b)) => self.compare_f64(Float64::from_i64(*a), *b),
            (Value::Float(a), Value::Integer(b)) => self.compare_f64(*a, Float64::from_i64(*b)),
            (Value::Boolean(a), Value::Boolean(b)) => self.compare_ord(!*a && *b, *a == *b),
            _ => *self == ComparisonOp::Eq && *lhs == *rhs,
        }
    }

    /// Whether `lhs op rhs` holds of numbers.
    pub fn compare_f64(&self, lhs: Float64, rhs: Float64) -> (r: bool)
        ensures
            r == self.holds_floats(lhs, rhs),
    {
        match self {
            ComparisonOp::Eq => lhs.is_close(rhs),
            ComparisonOp::NotEq => lhs.is_apart(rhs),
            ComparisonOp::Lt => lhs.is_less(rhs),
            ComparisonOp::LtEq => lhs.is_less(rhs) || lhs.is_same(rhs),
            ComparisonOp::Gt => rhs.is_less(lhs),
            ComparisonOp::GtEq => rhs.is_less(lhs) || lhs.is_same(rhs),
        }
    }

    fn compare_ord(&self, less: bool, equal: bool) -> (r: bool)
        ensures
            r == self.holds(less, equal),
    {
        match self {
            ComparisonOp::Eq => equal,
            ComparisonOp::NotEq => !equal,
            ComparisonOp::Lt => less,
            ComparisonOp::LtEq => less || equal,
            ComparisonOp::Gt => !less && !equal,
            ComparisonOp::GtEq => !less,
        }
    }

    /// The sign of the operator.
    pub open spec fn text(self) -> Seq<char> {
        match self {
            ComparisonOp::Eq => "="@,
            ComparisonOp::NotEq => "!="@,
            ComparisonOp::Lt => "<"@,
            ComparisonOp::LtEq => "<="@,
            ComparisonOp::Gt => ">"@,
            ComparisonOp::GtEq => ">="@,
        }
    }

    /// The sign of the operator, such as `<=`.
    pub fn display(&self) -> (r: String)
        ensures
            r@ == self.text(),
    {
        match self {
            ComparisonOp::Eq => String::from_str("="),
            ComparisonOp::NotEq => String::from_str("!="),
            ComparisonOp::Lt => String::from_str("<"),
            ComparisonOp::LtEq => String::from_str("<="),
            ComparisonOp::Gt => String::from_str(">"),
            ComparisonOp::GtEq => String::from_str(">="),
        }
    }
}

/// A condition on one property.
#[derive(Debug)]
pub struct PropertyCondition {
    /// The name of the property.
    pub key: String,
    /// How it is compared.
    pub op: ComparisonOp,
    /// What it is compared to.
    pub value: Value,
}

/// What a condition says.
pub struct ConditionView {
    pub key: Seq<char>,
    pub op: ComparisonOp,
    pub value: ValueView,
}

impl View for PropertyCondition {
    type V = ConditionView;

    open spec fn view(&self) -> ConditionView {
        ConditionView { key: self.key@, op: self.op, value: self.value@ }
    }
}

impl ConditionView {
    /// Whether properties meet the condition: the property is there and compares.
    pub open spec fn met_by(self, props: Map<Seq<char>, ValueView>) -> bool {
        props.contains_key(self.key) && self.op.holds_values(props[self.key], self.value)
    }
}

impl PropertyCondition {
    /// Whether properties meet the condition.
    pub fn matches_properties(&self, props: &StringMap<Value>) -> (r: bool)
        ensures
            r == self@.met_by(props@),
    {
        match props.get(self.key.as_str()) {
            None => false,
            Some(actual) => self.op.compare_values(actual, &self.value),
        }
    }
}

impl Clone for PropertyCondition {
    fn clone(&self) -> (r: PropertyCondition)
        ensures
            r@ == self@,
    {
        PropertyCondition { key: self.key.clone(), op: self.op, value: self.value.clone() }
    }
}

/// What conditions say.
pub open spec fn condition_views(s: Seq<PropertyCondition>) -> Seq<ConditionView> {
    s.map_values(|c: PropertyCondition| c@)
}

/// Whether properties meet all conditions.
pub open spec fn all_met(s: Seq<ConditionView>, props: Map<Seq<char>, ValueView>) -> bool {
    forall|i: int| 0 <= i < s.len() ==> (#[trigger] s[i]).met_by(props)
}

fn all_match(conditions: &Vec<PropertyCondition>, props: &StringMap<Value>) -> (r: bool)
    ensures
        r == all_met(condition_views(conditions@), props@),
{
    let ghost views = condition_views(conditions@);
    let mut i: usize = 0;
    while i < conditions.len()
        invariant
            i <= conditions.len(),
            views == condition_views(conditions@),
            forall|j: int| 0 <= j < i ==> (#[trigger] views[j]).met_by(props@),
        decreases conditions.len() - i,
    {
        assert(views[i as int] == conditions[i as int]@);
        if !conditions[i].matches_properties(props) {
            return false;
        }
        i += 1;
    }
    true
}

/// A copy of conditions.
pub fn clone_conditions(conditions: &Vec<PropertyCondition>) -> (r: Vec<PropertyCondition>)
    ensures
        condition_views(r@) == condition_views(conditions@),
{
    let mut out: Vec<PropertyCondition> = Vec::new();
    let mut i: usize = 0;
    while i < conditions.len()
        invariant
            i <= conditions.len(),
            out.len() == i,
            forall|j: int| 0 <= j < i ==> (#[trigger] out[j])@ == conditions[j]@,
        decreases conditions.len() - i,
    {
        let c = conditions[i].clone();
        out.push(c);
        i += 1;
    }
    assert(condition_views(out@) =~= condition_views(conditions@));
    out
}

/// The contents of an optional text.
pub open spec fn option_text(o: Option<String>) -> Option<Seq<char>> {
    match o {
        Some(s) => Some(s@),
        None => None,
    }
}

fn clone_label(label: &Option<String>) -> (r: Option<String>)
    ensures
        option_text(r) == option_text(*label),
{
    match label {
        Some(s) => Some(s.clone()),
        None => None,
    }
}

/// A condition on a label.
#[derive(Debug)]
pub struct LabelCondition {
    /// How the label is compared.
    pub op: ComparisonOp,
    /// What it is compared to.
    pub value: String,
}

/// What a condition on a label says.
pub struct LabelConditionView {
    pub op: ComparisonOp,
    pub value: Seq<char>,
}

impl View for LabelCondition {
    type V = LabelConditionView;

    open spec fn view(&self) -> LabelConditionView {
        LabelConditionView { op: self.op, value: self.value@ }
    }
}

impl LabelConditionView {
    /// Whether a label meets the condition.
    pub open spec fn met_by(self, label: Seq<char>) -> bool {
        self.op.holds(text_less(label, self.value), label == self.value)
    }
}

impl LabelCondition {
    /// Whether a label meets the condition.
    pub fn matches(&self, label: &str) -> (r: bool)
        ensures
            r == self@.met_by(label@),
    {
        let less = is_text_less(label, self.value.as_str());
        let equal = same_text(label, self.value.as_str());
        self.op.compare_ord(less, equal)
    }
}

impl Clone for LabelCondition {
    fn clone(&self) -> (r: LabelCondition)
        ensures
            r@ == self@,
    {
        LabelCondition { op: self.op, value: self.value.clone() }
    }
}

/// What conditions on a label say.
pub open spec fn label_views(s: Seq<LabelCondition>) -> Seq<LabelConditionView> {
    s.map_values(|c: LabelCondition| c@)
}

/// Whether a label meets all conditions.
pub open spec fn label_meets(s: Seq<LabelConditionView>, label: Seq<char>) -> bool {
    forall|i: int| 0 <= i < s.len() ==> (#[trigger] s[i]).met_by(label)
}

fn label_passes(conditions: &Vec<LabelCondition>, label: &str) -> (r: bool)
    ensures
        r == label_meets(label_views(conditions@), label@),
{
    let ghost views = label_views(conditions@);
    let mut i: usize = 0;
    while i < conditions.len()
        invariant
            i <= conditions.len(),
            views == label_views(conditions@),
            forall|j: int| 0 <= j < i ==> (#[trigger] views[j]).met_by(label@),
        decreases conditions.len() - i,
    {
        assert(views[i as int] == conditions[i as int]@);
        if !conditions[i].matches(label) {
            return false;
        }
        i += 1;
    }
    true
}

/// A copy of conditions on a label.
pub fn clone_label_conditions(conditions: &Vec<LabelCondition>) -> (r: Vec<LabelCondition>)
    ensures
        label_views(r@) == label_views(conditions@),
{
    let mut out: Vec<LabelCondition> = Vec::new();
    let mut i: usize = 0;
    while i < conditions.len()
        invariant
            i <= conditions.len(),
            out.len() == i,
            forall|j: int| 0 <= j < i ==> (#[trigger] out[j])@ == conditions[j]@,
        decreases conditions.len() - i,
    {
        let c = conditions[i].clone();
        out.push(c);
        i += 1;
    }
    assert(label_views(out@) =~= label_views(conditions@));
    out
}

/// Which nodes a query asks for: all conditions must hold.
#[derive(Debug)]
pub struct NodeFilter {
    /// The label, if one is asked for.
    pub label: Option<String>,
    /// The conditions on the label besides the one asked for.
    pub label_conditions: Vec<LabelCondition>,
    /// The conditions on properties.
    pub property_conditions: Vec<PropertyCondition>,
}

/// What a node filter says.
pub struct NodeFilterView {
    pub label: Option<Seq<char>>,
    pub label_conditions: Seq<LabelConditionView>,
    pub conditions: Seq<ConditionView>,
}

impl View for NodeFilter {
    type V = NodeFilterView;

    open spec fn view(&self) -> NodeFilterView {
        NodeFilterView {
            label: option_text(self.label),
            label_conditions: label_views(self.label_conditions@),
            conditions: condition_views(self.property_conditions@),
        }
    }
}

impl NodeFilterView {
    /// Whether a node passes.
    pub open spec fn accepts(self, n: NodeView) -> bool {
        &&& self.label matches Some(l) ==> n.label == l
        &&& label_meets(self.label_conditions, n.label)
        &&& all_met(self.conditions, n.properties)
    }
}

impl NodeFilterView {
    /// The filter with one condition on the label more. The first label that is asked
    /// for is the label of the filter.
    pub open spec fn and_label(self, c: LabelConditionView) -> NodeFilterView {
        if c.op == ComparisonOp::Eq && self.label is None {
            NodeFilterView { label: Some(c.value), ..self }
        } else {
            NodeFilterView { label_conditions: self.label_conditions.push(c), ..self }
        }
    }

    /// The filter with one condition on a property more.
    pub open spec fn and_property(self, c: ConditionView) -> NodeFilterView {
        NodeFilterView { conditions: self.conditions.push(c), ..self }
    }

    /// Conditions on nodes are joined by an implicit AND: with one more, those nodes
    /// pass that passed before and meet it.
    pub proof fn law_conditions_add_up(self, l: LabelConditionView, p: ConditionView, n: NodeView)
        ensures
            self.and_label(l).accepts(n) == (self.accepts(n) && l.met_by(n.label)),
            self.and_property(p).accepts(n) == (self.accepts(n) && p.met_by(n.properties)),
    {
        if !(l.op == ComparisonOp::Eq && self.label is None) {
            lemma_label_meets_push(self.label_conditions, l, n.label);
        }
        lemma_all_met_push(self.conditions, p, n.properties);
    }
}

proof fn lemma_label_meets_push(
    s: Seq<LabelConditionView>,
    c: LabelConditionView,
    label: Seq<char>,
)
    ensures
        label_meets(s.push(c), label) == (label_meets(s, label) && c.met_by(label)),
{
    let t = s.push(c);
    if label_meets(t, label) {
        assert forall|i: int| 0 <= i < s.len() implies (#[trigger] s[i]).met_by(label) by {
            assert(t[i] == s[i]);
        }
        assert(t[s.len() as int].met_by(label));
    }
}

proof fn lemma_all_met_push(
    s: Seq<ConditionView>,
    c: ConditionView,
    properties: Map<Seq<char>, ValueView>,
)
    ensures
        all_met(s.push(c), properties) == (all_met(s, properties) && c.met_by(properties)),
{
    let t = s.push(c);
    if all_met(t, properties) {
        assert forall|i: int| 0 <= i < s.len() implies (#[trigger] s[i]).met_by(properties) by {
            assert(t[i] == s[i]);
        }
        assert(t[s.len() as int].met_by(properties));
    }
}

proof fn lemma_push_label(s: Seq<LabelCondition>, c: LabelCondition)
    ensures
        label_views(s.push(c)) == label_views(s).push(c@),
{
    assert(label_views(s.push(c)) =~= label_views(s).push(c@));
}

impl NodeFilter {
    /// Adds a condition on the label.
    pub fn add_label_condition(&mut self, c: LabelCondition)
        ensures
            final(self)@ == old(self)@.and_label(c@),
    {
        if c.op == ComparisonOp::Eq && self.label.is_none() {
            self.label = Some(c.value);
        } else {
            proof {
                lemma_push_label(self.label_conditions@, c);
            }
            self.label_conditions.push(c);
        }
    }

    /// Whether a node passes the filter.
    pub fn matches(&self, node: &Node) -> (r: bool)
        ensures
            r == self@.accepts(node@),
    {
        match &self.label {
            Some(expected) => {
                if !same_text(node.label.as_str(), expected.as_str()) {
                    return false;
                }
            },
            None => {},
        }
        label_passes(&self.label_conditions, node.label.as_str()) && all_match(
            &self.property_conditions,
            &node.properties,
        )
    }
}

impl Default for NodeFilter {
    fn default() -> (r: NodeFilter)
        ensures
            r@ == (NodeFilterView {
                label: None,
                label_conditions: Seq::empty(),
                conditions: Seq::empty(),
            }),
            r.label is None,
            r.label_conditions@ == Seq::<LabelCondition>::empty(),
            r.property_conditions@ == Seq::<PropertyCondition>::empty(),
    {
        let r = NodeFilter {
            label: None,
            label_conditions: Vec::new(),
            property_conditions: Vec::new(),
        };
        assert(r@.label_conditions =~= Seq::empty());
        assert(r@.conditions =~= Seq::empty());
        r
    }
}

impl Clone for NodeFilter {
    fn clone(&self) -> (r: NodeFilter)
        ensures
            r@ == self@,
    {
        NodeFilter {
            label: clone_label(&self.label),
            label_conditions: clone_label_conditions(&self.label_conditions),
            property_conditions: clone_conditions(&self.property_conditions),
        }
    }
}

/// A condition on the weight of an edge.
#[derive(Clone, Copy, Debug)]
pub struct WeightCondition {
    /// How the weight is compared.
    pub op: ComparisonOp,
    /// What it is compared to.
    pub value: Float64,
}

impl WeightCondition {
    /// Whether a weight meets the condition.
    pub open spec fn met_by(self, weight: Float64) -> bool {
        self.op.holds_floats(weight, self.value)
    }

    /// Whether a weight meets the condition.
    pub fn matches(&self, actual: Float64) -> (r: bool)
        ensures
            r == self.met_by(actual),
    {
        self.op.compare_f64(actual, self.value)
    }
}

/// Whether a weight meets all conditions.
pub open spec fn weight_meets(s: Seq<WeightCondition>, weight: Float64) -> bool {
    forall|i: int| 0 <= i < s.len() ==> (#[trigger] s[i]).met_by(weight)
}

fn weight_passes(conditions: &Vec<WeightCondition>, weight: Float64) -> (r: bool)
    ensures
        r == weight_meets(conditions@, weight),
{
    let mut i: usize = 0;
    while i < conditions.len()
        invariant
            i <= conditions.len(),
            forall|j: int| 0 <= j < i ==> (#[trigger] conditions[j]).met_by(weight),
        decreases conditions.len() - i,
    {
        if !conditions[i].matches(weight) {
            assert(!conditions@[i as int].met_by(weight));
            return false;
        }
        i += 1;
    }
    true
}

fn clone_weight_conditions(conditions: &Vec<WeightCondition>) -> (r: Vec<WeightCondition>)
    ensures
        r@ == conditions@,
{
    let mut out: Vec<WeightCondition> = Vec::new();
    let mut i: usize = 0;
    while i < conditions.len()
        invariant
            i <= conditions.len(),
            out@ == conditions@.take(i as int),
        decreases conditions.len() - i,
    {
        out.push(conditions[i]);
        assert(conditions@.take(i + 1) =~= conditions@.take(i as int).push(conditions@[i as int]));
        i += 1;
    }
    assert(conditions@.take(i as int) =~= conditions@);
    out
}

/// Which edges a query asks for: all conditions must hold.
#[derive(Debug)]
pub struct EdgeFilter {
    /// The label, if one is asked for.
    pub label: Option<String>,
    /// The conditions on the label besides the one asked for.
    pub label_conditions: Vec<LabelCondition>,
    /// The first condition on the weight, if there is one.
    pub weight_condition: Option<WeightCondition>,
    /// The conditions on the weight after the first.
    pub further_weight_conditions: Vec<WeightCondition>,
    /// The conditions on properties.
    pub property_conditions: Vec<PropertyCondition>,
}

/// What an edge filter says.
pub struct EdgeFilterView {
    pub label: Option<Seq<char>>,
    pub label_conditions: Seq<LabelConditionView>,
    pub weight: Option<WeightCondition>,
    pub further_weights: Seq<WeightCondition>,
    pub conditions: Seq<ConditionView>,
}

impl View for EdgeFilter {
    type V = EdgeFilterView;

    open spec fn view(&self) -> EdgeFilterView {
        EdgeFilterView {
            label: option_text(self.label),
            label_conditions: label_views(self.label_conditions@),
            weight: self.weight_condition,
            further_weights: self.further_weight_conditions@,
            conditions: condition_views(self.property_conditions@),
        }
    }
}

impl EdgeFilterView {
    /// Whether an edge passes.
    pub open spec fn accepts(self, e: EdgeView) -> bool {
        &&& self.label matches Some(l) ==> e.label == l
        &&& label_meets(self.label_conditions, e.label)
        &&& self.weight matches Some(w) ==> w.met_by(e.weight)
        &&& weight_meets(self.further_weights, e.weight)
        &&& all_met(self.conditions, e.properties)
    }

    /// The filter with one condition on the label more. The first label that is asked
    /// for is the label of the filter.
    pub open spec fn and_label(self, c: LabelConditionView) -> EdgeFilterView {
        if c.op == ComparisonOp::Eq && self.label is None {
            EdgeFilterView { label: Some(c.value), ..self }
        } else {
            EdgeFilterView { label_conditions: self.label_conditions.push(c), ..self }
        }
    }

    /// The filter with one condition on the weight more.
    pub open spec fn and_weight(self, c: WeightCondition) -> EdgeFilterView {
        if self.weight is None {
            EdgeFilterView { weight: Some(c), ..self }
        } else {
            EdgeFilterView { further_weights: self.further_weights.push(c), ..self }
        }
    }

    /// The filter with one condition on a property more.
    pub open spec fn and_property(self, c: ConditionView) -> EdgeFilterView {
        EdgeFilterView { conditions: self.conditions.push(c), ..self }
    }

    /// Conditions on edges are joined by an implicit AND: with one more, those edges
    /// pass that passed before and meet it.
    pub proof fn law_conditions_add_up(
        self,
        l: LabelConditionView,
        w: WeightCondition,
        p: ConditionView,
        e: EdgeView,
    )
        ensures
            self.and_label(l).accepts(e) == (self.accepts(e) && l.met_by(e.label)),
            self.and_weight(w).accepts(e) == (self.accepts(e) && w.met_by(e.weight)),
            self.and_property(p).accepts(e) == (self.accepts(e) && p.met_by(e.properties)),
    {
        if !(l.op == ComparisonOp::Eq && self.label is None) {
            lemma_label_meets_push(self.label_conditions, l, e.label);
        }
        if self.weight is Some {
            let t = self.further_weights.push(w);
            if weight_meets(t, e.weight) {
                assert forall|i: int| 0 <= i < self.further_weights.len() implies (
                #[trigger] self.further_weights[i]).met_by(e.weight) by {
                    assert(t[i] == self.further_weights[i]);
                }
                assert(t[self.further_weights.len() as int].met_by(e.weight));
            }
        }
        lemma_all_met_push(self.conditions, p, e.properties);
    }
}

impl EdgeFilter {
    /// Adds a condition on the label.
    pub fn add_label_condition(&mut self, c: LabelCondition)
        ensures
            final(self)@ == old(self)@.and_label(c@),
    {
        if c.op == ComparisonOp::Eq && self.label.is_none() {
            self.label = Some(c.value);
        } else {
            proof {
                lemma_push_label(self.label_conditions@, c);
            }
            self.label_conditions.push(c);
        }
    }

    /// Adds a condition on the weight.
    pub fn add_weight_condition(&mut self, c: WeightCondition)
        ensures
            final(self)@ == old(self)@.and_weight(c),
    {
        if self.weight_condition.is_none() {
            self.weight_condition = Some(c);
        } else {
            self.further_weight_conditions.push(c);
        }
    }

    /// Whether an edge passes the filter.
    pub fn matches(&self, edge: &Edge) -> (r: bool)
        ensures
            r == self@.accepts(edge@),
    {
        match &self.label {
            Some(expected) => {
                if !same_text(edge.label.as_str(), expected.as_str()) {
                    return false;
                }
            },
            None => {},
        }
        if !label_passes(&self.label_conditions, edge.label.as_str()) {
            return false;
        }
        match &self.weight_condition {
            Some(w) => {
                if !w.matches(edge.weight) {
                    return false;
                }
            },
            None => {},
        }
        weight_passes(&self.further_weight_conditions, edge.weight) && all_match(
            &self.property_conditions,
            &edge.properties,
        )
    }
}

impl Default for EdgeFilter {
    fn default() -> (r: EdgeFilter)
        ensures
            r@ == (EdgeFilterView {
                label: None,
                label_conditions: Seq::empty(),
                weight: None,
                further_weights: Seq::empty(),
                conditions: Seq::empty(),
            }),
            r.label is None,
            r.label_conditions@ == Seq::<LabelCondition>::empty(),
            r.weight_condition is None,
            r.further_weight_conditions@ == Seq::<WeightCondition>::empty(),
            r.property_conditions@ == Seq::<PropertyCondition>::empty(),
    {
        let r = EdgeFilter {
            label: None,
            label_conditions: Vec::new(),
            weight_condition: None,
            further_weight_conditions: Vec::new(),
            property_conditions: Vec::new(),
        };
        assert(r@.label_conditions =~= Seq::empty());
        assert(r@.conditions =~= Seq::empty());
        r
    }
}

impl Clone for EdgeFilter {
    fn clone(&self) -> (r: EdgeFilter)
        ensures
            r@ == self@,
    {
        EdgeFilter {
            label: clone_label(&self.label),
            label_conditions: clone_label_conditions(&self.label_conditions),
            weight_condition: self.weight_condition,
            further_weight_conditions: clone_weight_conditions(&self.further_weight_conditions),
            property_conditions: clone_conditions(&self.property_conditions),
        }
    }
}

/// How a traversal proceeds.
#[derive(Clone, Copy, Debug, PartialEq, Eq, Structural)]
pub enum TraversalKind {
    /// Breadth first.
    Bfs,
    /// Depth first.
    Dfs,
}

/// What a query asks for, whatever language it was written in.
#[derive(Debug)]
pub enum QueryCommand {
    MatchNodes(NodeFilter),
    MatchEdges(EdgeFilter),
    GetNode(NodeId),
    GetEdge(EdgeId),
    Traverse { kind: TraversalKind, start: NodeId },
    ShortestPath { start: NodeId, goal: NodeId },
    CountNodes,
    CountEdges,
}

/// What a command says.
pub enum CommandView {
    MatchNodes(NodeFilterView),
    MatchEdges(EdgeFilterView),
    GetNode(NodeId),
    GetEdge(EdgeId),
    Traverse { kind: TraversalKind, start: NodeId },
    ShortestPath { start: NodeId, goal: NodeId },
    CountNodes,
    CountEdges,
}

impl View for QueryCommand {
    type V = CommandView;

    open spec fn view(&self) -> CommandView {
        match *self {
            QueryCommand::MatchNodes(f) => CommandView::MatchNodes(f@),
            QueryCommand::MatchEdges(f) => CommandView::MatchEdges(f@),
            QueryCommand::GetNode(id) => CommandView::GetNode(id),
            QueryCommand::GetEdge(id) => CommandView::GetEdge(id),
            QueryCommand::Traverse { kind, start } => CommandView::Traverse { kind, start },
            QueryCommand::ShortestPath { start, goal } => CommandView::ShortestPath { start, goal },
            QueryCommand::CountNodes => CommandView::CountNodes,
            QueryCommand::CountEdges => CommandView::CountEdges,
        }
    }
}

} // verus!
