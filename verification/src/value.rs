//! Values that expressions work on.

use vstd::prelude::*;

use crate::bytes::Bytes;

verus! {

/// A value.
#[derive(Debug, PartialEq, Eq)]
pub enum Value {
    /// A byte string.
    Bytes(Bytes),
    /// A regular expression, by its pattern.
    Regex(String),
    /// An integer.
    Integer(i64),
    /// A floating-point number, by the bits that encode it.
    Float(u64),
    /// A truth value.
    Boolean(bool),
    /// A point in time: seconds since the Unix epoch, and nanoseconds within the second.
    Timestamp(i64, u32),
    /// Values by name.
    Object(Vec<(String, Value)>),
    /// Values by position.
    Array(Vec<Value>),
    /// No value.
    Null,
}

/// The type of a value.
#[derive(Clone, Copy, Debug, PartialEq, Eq, Structural)]
pub enum ValueType {
    Bytes,
    Regex,
    Integer,
    Float,
    Boolean,
    Timestamp,
    Object,
    Array,
    Null,
}

/// A value is not what it has to be.
#[derive(Clone, Copy, Debug, PartialEq, Eq, Structural)]
pub enum ValueError {
    /// A value of one type was expected, and one of another type found.
    Expected { got: ValueType, expected: ValueType },
}

impl Value {
    /// The type of the value.
    pub open spec fn spec_value_type(&self) -> ValueType {
        match self {
            Value::Bytes(_) => ValueType::Bytes,
            Value::Regex(_) => ValueType::Regex,
            Value::Integer(_) => ValueType::Integer,
            Value::Float(_) => ValueType::Float,
            Value::Boolean(_) => ValueType::Boolean,
            Value::Timestamp(_, _) => ValueType::Timestamp,
            Value::Object(_) => ValueType::Object,
            Value::Array(_) => ValueType::Array,
            Value::Null => ValueType::Null,
        }
    }

    /// The type of the value.
    #[verifier::when_used_as_spec(spec_value_type)]
    pub fn value_type(&self) -> (result: ValueType)
        ensures
            result == self.spec_value_type(),
    {
        match self {
            Value::Bytes(_) => ValueType::Bytes,
            Value::Regex(_) => ValueType::Regex,
            Value::Integer(_) => ValueType::Integer,
            Value::Float(_) => ValueType::Float,
            Value::Boolean(_) => ValueType::Boolean,
            Value::Timestamp(_, _) => ValueType::Timestamp,
            Value::Object(_) => ValueType::Object,
            Value::Array(_) => ValueType::Array,
            Value::Null => ValueType::Null,
        }
    }

    /// The byte string that the value is, or an error that says what it is instead.
    pub fn try_bytes(self) -> (result: Result<Bytes, ValueError>)
        ensures
            result == match self {
                Value::Bytes(bytes) => Ok::<Bytes, ValueError>(bytes),
                _ => Err(
                    ValueError::Expected {
                        got: self.value_type(),
                        expected: ValueType::Bytes,
                    },
                ),
            },
    {
        match self {
            Value::Bytes(bytes) => Ok(bytes),
            other => Err(
                ValueError::Expected { got: other.value_type(), expected: ValueType::Bytes },
            ),
        }
    }

    /// The value is the byte string `data`.
    pub open spec fn is_bytes(self, data: Seq<u8>) -> bool {
        self matches Value::Bytes(bytes) && bytes@ == data
    }
}

/// The values are these byte strings, in this order.
pub open spec fn are_bytes(values: Seq<Value>, fields: Seq<Seq<u8>>) -> bool {
    &&& values.len() == fields.len()
    &&& forall|i: int| 0 <= i < values.len() ==> (#[trigger] values[i]).is_bytes(fields[i])
}

} // verus!
