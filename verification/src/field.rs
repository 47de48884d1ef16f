//! Field storage: a vector of possibly-missing values.
use vstd::prelude::*;

use crate::access::{DataIndex, DataIndexMut};
use crate::error::AgnesError;
use crate::value::Value;

verus! {

/// Data of a single field: an ordered list of values, each of which may be missing.
#[derive(Debug, Clone)]
pub struct FieldData<T> {
    data: Vec<Value<T>>,
}

impl<T> FieldData<T> {
    /// The values held by this field, in order.
    pub closed spec fn spec_values(&self) -> Seq<Value<T>> {
        self.data@
    }

    /// Creates a field in which every value of `v` exists.
    pub fn from_vec(v: Vec<T>) -> (r: FieldData<T>)
        ensures
            r.spec_values() == v@.map_values(|x: T| Value::Exists(x)),
    {
        let mut v = v;
        let ghost orig = v@;
        let mut rev: Vec<Value<T>> = Vec::new();
        while v.len() > 0
            invariant
                v@ == orig.take(v@.len() as int),
                v@.len() <= orig.len(),
                rev@.len() + v@.len() == orig.len(),
                forall|k: int|
                    0 <= k < rev@.len() ==> #[trigger] rev@[k] == Value::Exists(
                        orig[orig.len() - 1 - k],
                    ),
            decreases v@.len(),
        {
            let x = v.pop().unwrap();
            rev.push(Value::Exists(x));
        }
        let mut data: Vec<Value<T>> = Vec::new();
        while rev.len() > 0
            invariant
                rev@.len() + data@.len() == orig.len(),
                forall|k: int|
                    0 <= k < rev@.len() ==> #[trigger] rev@[k] == Value::Exists(
                        orig[orig.len() - 1 - k],
                    ),
                forall|k: int|
                    0 <= k < data@.len() ==> #[trigger] data@[k] == Value::Exists(orig[k]),
            decreases rev@.len(),
        {
            let x = rev.pop().unwrap();
            data.push(x);
        }
        let r = FieldData { data };
        assert(r.spec_values() =~= orig.map_values(|x: T| Value::Exists(x)));
        r
    }

    /// Creates a field holding the values of `v`.
    pub fn from_field_vec(v: Vec<Value<T>>) -> (r: FieldData<T>)
        ensures
            r.spec_values() == v@,
    {
        FieldData { data: v }
    }

    /// The number of values of a field fits in a `usize`.
    pub proof fn lemma_values_len_fits(&self)
        ensures
            self.spec_values().len() <= usize::MAX,
    {
        assert(self.data.len() == self.data@.len());
    }

    /// Returns a reference to the value at position `i`.
    pub fn value_at(&self, i: usize) -> (r: &Value<T>)
        requires
            i < self.spec_values().len(),
        ensures
            *r == self.spec_values()[i as int],
    {
        &self.data[i]
    }

    /// Creates a field with no values.
    pub fn new() -> (r: FieldData<T>)
        ensures
            r.spec_values() == Seq::<Value<T>>::empty(),
    {
        FieldData { data: Vec::new() }
    }
}

impl<T: std::fmt::Debug> DataIndex for FieldData<T> {
    type DType = T;

    open spec fn values(&self) -> Seq<Value<T>> {
        self.spec_values()
    }

    fn get_datum(&self, idx: usize) -> (r: Result<Value<&T>, AgnesError>)
        ensures
            r matches Err(e) ==> e == (AgnesError::IndexError {
                index: idx,
                len: self.spec_values().len() as usize,
            }),
    {
        if idx < self.data.len() {
            Ok(self.data[idx].as_ref())
        } else {
            Err(AgnesError::IndexError { index: idx, len: self.data.len() })
        }
    }

    fn len(&self) -> (n: usize) {
        self.data.len()
    }
}

impl<T: std::fmt::Debug> DataIndexMut for FieldData<T> {
    fn push(&mut self, value: Value<T>) {
        self.data.push(value);
    }

    fn take_datum(&mut self, idx: usize) -> (r: Result<Value<T>, AgnesError>) where T: Default
        ensures
            r matches Err(e) ==> e == (AgnesError::IndexError {
                index: idx,
                len: old(self).spec_values().len() as usize,
            }),
    {
        if idx < self.data.len() {
            let mut out: Value<T> = Value::Na;
            std::mem::swap(&mut out, &mut self.data[idx]);
            Ok(out)
        } else {
            Err(AgnesError::IndexError { index: idx, len: self.data.len() })
        }
    }
}

} // verus!
