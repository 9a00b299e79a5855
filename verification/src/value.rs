//! Scalar values appearing in queries and in documents.

use vstd::prelude::*;

verus! {

/// A decoded scalar value.
///
/// A floating-point literal is kept as its source text and compared
/// textually; no other representation of it enters the library.
#[derive(Debug, Clone, PartialEq)]
pub enum Value {
    /// A string, either quoted in the source or a bare identifier.
    String(String),
    /// A signed integer.
    Integer(i128),
    /// A floating-point literal, as written.
    Float(String),
    /// A boolean keyword.
    Boolean(bool),
    /// The null keyword.
    Null,
}

/// The mathematical value of a [`Value`].
pub enum GValue {
    Str(Seq<char>),
    Int(int),
    Float(Seq<char>),
    Bool(bool),
    Null,
}

impl View for Value {
    type V = GValue;

    open spec fn view(&self) -> GValue {
        match self {
            Value::String(s) => GValue::Str(s@),
            Value::Integer(i) => GValue::Int(*i as int),
            Value::Float(t) => GValue::Float(t@),
            Value::Boolean(b) => GValue::Bool(*b),
            Value::Null => GValue::Null,
        }
    }
}

impl Value {
    /// Structural equality by tag: values of different tags are unequal,
    /// values of one tag compare their content (floats by their text).
    pub fn eq_value(&self, other: &Value) -> (r: bool)
        ensures
            r == (self@ == other@),
    {
        match (self, other) {
            (Value::String(a), Value::String(b)) => *a == *b,
            (Value::Integer(a), Value::Integer(b)) => *a == *b,
            (Value::Float(a), Value::Float(b)) => *a == *b,
            (Value::Boolean(a), Value::Boolean(b)) => *a == *b,
            (Value::Null, Value::Null) => true,
            _ => false,
        }
    }
}

} // verus!
