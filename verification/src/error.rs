//! Errors raised by data access.
use vstd::prelude::*;

verus! {

/// Error kinds raised when accessing data.
#[derive(Debug, Clone, PartialEq, Eq)]
pub enum AgnesError {
    /// An index was outside the data it indexes.
    IndexError {
        /// The index requested.
        index: usize,
        /// The length of the indexed data.
        len: usize,
    },
    /// A field was not found.
    FieldNotFound(String),
    /// Fields of different types were combined.
    TypeMismatch(String),
    /// Fields with the same names collided.
    FieldCollision(Vec<String>),
    /// Two lengths that must agree do not.
    LengthMismatch {
        /// The length expected.
        expected: usize,
        /// The length found.
        actual: usize,
    },
}

} // verus!
