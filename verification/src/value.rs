//! Values that may be missing (NA).
use vstd::prelude::*;

verus! {

/// A single datum of a field: either an existing value or a missing one.
#[derive(Debug, Clone, Copy, PartialEq, Eq)]
pub enum Value<T> {
    /// Missing value.
    Na,
    /// Existing value.
    Exists(T),
}

/// The value of `v` with its datum taken by reference.
pub open spec fn value_ref<'a, T>(v: &'a Value<T>) -> Value<&'a T> {
    match v {
        Value::Na => Value::Na,
        Value::Exists(x) => Value::Exists(x),
    }
}

/// The value that `v` refers to, with its datum taken out of the reference.
pub open spec fn value_deref<T>(v: Value<&T>) -> Value<T> {
    match v {
        Value::Na => Value::Na,
        Value::Exists(x) => Value::Exists(*x),
    }
}

impl<T> Value<T> {
    /// Returns a value that refers to the datum of this value.
    pub fn as_ref(&self) -> (r: Value<&T>)
        ensures
            r == value_ref(self),
    {
        match self {
            Value::Na => Value::Na,
            Value::Exists(x) => Value::Exists(x),
        }
    }

    /// Whether this value exists (is not NA).
    pub fn is_exists(&self) -> (r: bool)
        ensures
            r == (*self is Exists),
    {
        match self {
            Value::Na => false,
            Value::Exists(_) => true,
        }
    }
}

} // verus!
