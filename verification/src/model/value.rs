//! Property values.

use crate::float::Float64;
use crate::float_display::{float_text, float_to_text};
use crate::text::{i128_to_text, int_text, same_text};
use vstd::prelude::*;
use vstd::std_specs::cmp::PartialEqSpecImpl;
use vstd::std_specs::convert::FromSpecImpl;
use vstd::string::StringExecFns;

verus! {

/// The value of a property of a node or an edge.
#[derive(Debug)]
pub enum Value {
    /// No value.
    Null,
    /// A truth value.
    Boolean(bool),
    /// A 64-bit signed integer.
    Integer(i64),
    /// A double-precision number.
    Float(Float64),
    /// A text.
    Text(String),
}

/// What a property value holds.
pub enum ValueView {
    Null,
    Boolean(bool),
    Integer(i64),
    Float(Float64),
    Text(Seq<char>),
}

impl View for Value {
    type V = ValueView;

    open spec fn view(&self) -> ValueView {
        match *self {
            Value::Null => ValueView::Null,
            Value::Boolean(b) => ValueView::Boolean(b),
            Value::Integer(i) => ValueView::Integer(i),
            Value::Float(x) => ValueView::Float(x),
            Value::Text(s) => ValueView::Text(s@),
        }
    }
}

impl ValueView {
    /// Equality of values. Numbers compare by IEEE 754: NaN differs from itself
    /// and the two zeros are equal.
    pub open spec fn equals(self, other: ValueView) -> bool {
        match (self, other) {
            (ValueView::Null, ValueView::Null) => true,
            (ValueView::Boolean(a), ValueView::Boolean(b)) => a == b,
            (ValueView::Integer(a), ValueView::Integer(b)) => a == b,
            (ValueView::Float(a), ValueView::Float(b)) => Float64::same(a, b),
            (ValueView::Text(a), ValueView::Text(b)) => a == b,
            _ => false,
        }
    }
}

impl ValueView {
    /// The text of a value. A text stands in double quotes.
    pub open spec fn text(self) -> Seq<char> {
        match self {
            ValueView::Null => "null"@,
            ValueView::Boolean(b) => if b {
                "true"@
            } else {
                "false"@
            },
            ValueView::Integer(i) => int_text(i as int),
            ValueView::Float(x) => float_text(x),
            ValueView::Text(s) => "\""@ + s + "\""@,
        }
    }
}

impl Value {
    /// Whether two values are equal.
    fn equals(&self, other: &Value) -> (r: bool)
        ensures
            r == self@.equals(other@),
    {
        match (self, other) {
            (Value::Null, Value::Null) => true,
            (Value::Boolean(a), Value::Boolean(b)) => *a == *b,
            (Value::Integer(a), Value::Integer(b)) => *a == *b,
            (Value::Float(a), Value::Float(b)) => a.is_same(*b),
            (Value::Text(a), Value::Text(b)) => same_text(a.as_str(), b.as_str()),
            _ => false,
        }
    }

    /// The text of the value.
    pub fn display(&self) -> (r: String)
        ensures
            r@ == self@.text(),
    {
        match self {
            Value::Null => String::from_str("null"),
            Value::Boolean(b) => if *b {
                String::from_str("true")
            } else {
                String::from_str("false")
            },
            Value::Integer(i) => i128_to_text(*i as i128),
            Value::Float(x) => float_to_text(*x),
            Value::Text(s) => {
                let mut out = String::from_str("\"");
                out.append(s.as_str());
                out.append("\"");
                out
            },
        }
    }
}

impl Clone for Value {
    fn clone(&self) -> (r: Value)
        ensures
            r@ == self@,
    {
        match self {
            Value::Null => Value::Null,
            Value::Boolean(b) => Value::Boolean(*b),
            Value::Integer(i) => Value::Integer(*i),
            Value::Float(x) => Value::Float(*x),
            Value::Text(s) => Value::Text(s.clone()),
        }
    }
}

impl PartialEqSpecImpl for Value {
    open spec fn obeys_eq_spec() -> bool {
        true
    }

    open spec fn eq_spec(&self, other: &Value) -> bool {
        self@.equals(other@)
    }
}

impl PartialEq for Value {
    fn eq(&self, other: &Value) -> (r: bool) {
        self.equals(other)
    }
}

impl From<bool> for Value {
    fn from(b: bool) -> (r: Value) {
        Value::Boolean(b)
    }
}

impl FromSpecImpl<bool> for Value {
    open spec fn obeys_from_spec() -> bool {
        true
    }

    open spec fn from_spec(b: bool) -> Value {
        Value::Boolean(b)
    }
}

impl From<i64> for Value {
    fn from(i: i64) -> (r: Value) {
        Value::Integer(i)
    }
}

impl FromSpecImpl<i64> for Value {
    open spec fn obeys_from_spec() -> bool {
        true
    }

    open spec fn from_spec(i: i64) -> Value {
        Value::Integer(i)
    }
}

impl From<Float64> for Value {
    fn from(x: Float64) -> (r: Value) {
        Value::Float(x)
    }
}

impl FromSpecImpl<Float64> for Value {
    open spec fn obeys_from_spec() -> bool {
        true
    }

    open spec fn from_spec(x: Float64) -> Value {
        Value::Float(x)
    }
}

impl From<String> for Value {
    fn from(s: String) -> (r: Value) {
        Value::Text(s)
    }
}

impl FromSpecImpl<String> for Value {
    open spec fn obeys_from_spec() -> bool {
        true
    }

    open spec fn from_spec(s: String) -> Value {
        Value::Text(s)
    }
}

impl<'a> From<&'a str> for Value {
    fn from(s: &'a str) -> (r: Value)
        ensures
            r@ == ValueView::Text(s@),
    {
        Value::Text(String::from_str(s))
    }
}

impl<'a> FromSpecImpl<&'a str> for Value {
    open spec fn obeys_from_spec() -> bool {
        false
    }

    open spec fn from_spec(s: &'a str) -> Value {
        Value::Null
    }
}

} // verus!
