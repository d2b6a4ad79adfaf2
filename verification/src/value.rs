//! Logical types and value representations.
//!
//! A `RawValue` is what the (unverified) JSON front end hands the library:
//! a dynamically typed scalar, a null, or a marker for a nested structure.
//! A `Value` is a typed scalar that has been decoded against a committed
//! schema. Floating-point values are carried as their IEEE 754 bit pattern
//! (`u64`), so the verified pipeline never performs float arithmetic.

use vstd::prelude::*;

verus! {

/// The closed set of logical column types.
#[derive(Debug, Clone, Copy, PartialEq, Eq, Structural)]
pub enum LogicalType {
    Boolean,
    Integer,
    Float,
    Text,
    /// Only null values were observed for the field.
    NullOnly,
    /// No common supertype covers the observed values.
    Mixed,
}

/// A dynamically typed input value, as produced by a JSON parser.
/// A float arrives as its IEEE 754 bit pattern.
#[derive(Debug, Clone)]
pub enum RawValue {
    Null,
    Bool(bool),
    Int(i64),
    Float(u64),
    Text(String),
    /// A nested array or object; the scalar engine rejects these per row.
    Nested,
}

/// A decoded, typed scalar value.
#[derive(Debug, Clone, PartialEq)]
pub enum Value {
    Bool(bool),
    Int(i64),
    Float(u64),
    Text(String),
}

/// The mathematical model of a `Value`: strings are modelled by their
/// character sequences.
pub enum ValModel {
    Bool(bool),
    Int(int),
    Float(u64),
    Text(Seq<char>),
}

impl View for Value {
    type V = ValModel;

    open spec fn view(&self) -> ValModel {
        match self {
            Value::Bool(b) => ValModel::Bool(*b),
            Value::Int(i) => ValModel::Int(*i as int),
            Value::Float(bits) => ValModel::Float(*bits),
            Value::Text(s) => ValModel::Text(s@),
        }
    }
}

impl Value {
    /// Equality of the mathematical models: two values are equal when their
    /// tags agree and their payloads (for strings: character sequences) agree.
    pub fn model_eq(&self, other: &Value) -> (r: bool)
        ensures
            r == (self@ == other@),
    {
        let r: bool = match self {
            Value::Bool(a) => match other {
                Value::Bool(b) => *a == *b,
                _ => false,
            },
            Value::Int(a) => match other {
                Value::Int(b) => *a == *b,
                _ => false,
            },
            Value::Float(a) => match other {
                Value::Float(b) => *a == *b,
                _ => false,
            },
            Value::Text(a) => match other {
                Value::Text(b) => *a == *b,
                _ => false,
            },
        };
        r
    }

    /// An exact copy: the duplicate has the same model as the original.
    pub fn dup(&self) -> (r: Value)
        ensures
            r@ == self@,
    {
        match self {
            Value::Bool(b) => Value::Bool(*b),
            Value::Int(i) => Value::Int(*i),
            Value::Float(bits) => Value::Float(*bits),
            Value::Text(s) => Value::Text(s.clone()),
        }
    }
}

/// The model of one optional cell value.
pub open spec fn cell_model(c: Option<Value>) -> Option<ValModel> {
    match c {
        Option::Some(v) => Option::Some(v@),
        Option::None => Option::None,
    }
}

/// The model of a sequence of optional cell values.
pub open spec fn cells_model(s: Seq<Option<Value>>) -> Seq<Option<ValModel>> {
    s.map_values(|c: Option<Value>| cell_model(c))
}

/// The logical type that a single observed raw value exhibits.
pub open spec fn spec_raw_type(v: RawValue) -> LogicalType {
    match v {
        RawValue::Null => LogicalType::NullOnly,
        RawValue::Bool(_) => LogicalType::Boolean,
        RawValue::Int(_) => LogicalType::Integer,
        RawValue::Float(_) => LogicalType::Float,
        RawValue::Text(_) => LogicalType::Text,
        RawValue::Nested => LogicalType::Mixed,
    }
}

/// Executable twin of `spec_raw_type`.
pub fn raw_type(v: &RawValue) -> (t: LogicalType)
    ensures
        t == spec_raw_type(*v),
{
    match v {
        RawValue::Null => LogicalType::NullOnly,
        RawValue::Bool(_) => LogicalType::Boolean,
        RawValue::Int(_) => LogicalType::Integer,
        RawValue::Float(_) => LogicalType::Float,
        RawValue::Text(_) => LogicalType::Text,
        RawValue::Nested => LogicalType::Mixed,
    }
}

/// Whether a decoded value is a member of a column of the given logical type.
/// A `Mixed` column accepts any scalar; a `NullOnly` column accepts none
/// (its rows are all null).
pub open spec fn spec_matches_type(v: ValModel, t: LogicalType) -> bool {
    match t {
        LogicalType::Boolean => v is Bool,
        LogicalType::Integer => v is Int,
        LogicalType::Float => v is Float,
        LogicalType::Text => v is Text,
        LogicalType::NullOnly => false,
        LogicalType::Mixed => true,
    }
}

/// Executable twin of `spec_matches_type`.
pub fn matches_type(v: &Value, t: LogicalType) -> (r: bool)
    ensures
        r == spec_matches_type(v@, t),
{
    match t {
        LogicalType::Boolean => matches!(v, Value::Bool(_)),
        LogicalType::Integer => matches!(v, Value::Int(_)),
        LogicalType::Float => matches!(v, Value::Float(_)),
        LogicalType::Text => matches!(v, Value::Text(_)),
        LogicalType::NullOnly => false,
        LogicalType::Mixed => true,
    }
}

} // verus!
