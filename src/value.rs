use vstd::prelude::*;

verus! {

/// The kinds of value a property rule can produce.
#[derive(Clone, Copy, Debug, PartialEq, Eq, Structural)]
pub enum ValueKind {
    Number,
    Text,
    Flag,
}

/// A property value that carries its own kind tag, so that a consumer can
/// recover it only as the kind it was built with.
#[derive(Debug)]
pub enum Value {
    Number(i64),
    Text(String),
    Flag(bool),
}

/// Raised when a value is recovered as a kind other than its own.
#[derive(Clone, Copy, Debug, PartialEq, Eq, Structural)]
pub struct TypeMismatch {
    pub expected: ValueKind,
    pub actual: ValueKind,
}

/// The kind tag of a value.
pub open spec fn kind_of(v: Value) -> ValueKind {
    match v {
        Value::Number(_) => ValueKind::Number,
        Value::Text(_) => ValueKind::Text,
        Value::Flag(_) => ValueKind::Flag,
    }
}

impl Value {
    pub fn kind(&self) -> (r: ValueKind)
        ensures
            r == kind_of(*self),
    {
        match self {
            Value::Number(_) => ValueKind::Number,
            Value::Text(_) => ValueKind::Text,
            Value::Flag(_) => ValueKind::Flag,
        }
    }

    /// An equal copy of this value.
    pub fn duplicate(&self) -> (r: Value)
        ensures
            r == *self,
    {
        match self {
            Value::Number(n) => Value::Number(*n),
            Value::Text(s) => Value::Text(s.clone()),
            Value::Flag(b) => Value::Flag(*b),
        }
    }

    /// Recovers a number, or reports the kind that was found instead.
    pub fn as_number(self) -> (r: Result<i64, TypeMismatch>)
        ensures
            match self {
                Value::Number(n) => r == Ok::<i64, TypeMismatch>(n),
                _ => r == Err::<i64, TypeMismatch>(
                    TypeMismatch { expected: ValueKind::Number, actual: kind_of(self) },
                ),
            },
    {
        match self {
            Value::Number(n) => Ok(n),
            _ => Err(TypeMismatch { expected: ValueKind::Number, actual: self.kind() }),
        }
    }

    /// Recovers a text, or reports the kind that was found instead.
    pub fn as_text(self) -> (r: Result<String, TypeMismatch>)
        ensures
            match self {
                Value::Text(s) => r == Ok::<String, TypeMismatch>(s),
                _ => r == Err::<String, TypeMismatch>(
                    TypeMismatch { expected: ValueKind::Text, actual: kind_of(self) },
                ),
            },
    {
        let k = self.kind();
        match self {
            Value::Text(s) => Ok(s),
            _ => Err(TypeMismatch { expected: ValueKind::Text, actual: k }),
        }
    }

    /// Recovers a flag, or reports the kind that was found instead.
    pub fn as_flag(self) -> (r: Result<bool, TypeMismatch>)
        ensures
            match self {
                Value::Flag(b) => r == Ok::<bool, TypeMismatch>(b),
                _ => r == Err::<bool, TypeMismatch>(
                    TypeMismatch { expected: ValueKind::Flag, actual: kind_of(self) },
                ),
            },
    {
        match self {
            Value::Flag(b) => Ok(b),
            _ => Err(TypeMismatch { expected: ValueKind::Flag, actual: self.kind() }),
        }
    }
}

} // verus!
