//! Traits for accessing data within fields: `DataIndex` for index-based access and
//! `DataIterator` for iterator access.
use std::cmp::Ordering;

use vstd::prelude::*;

use crate::error::AgnesError;
use crate::order::{
    at, comparator_answers, comparator_le, comparator_total, comparator_total_preorder, compare_le,
    index_le, le_values, lemma_index_le_total_preorder, total_order, value_le,
};
use crate::sort::{
    is_index_permutation, lemma_stably_sorted_is_sorted, oracle_agrees, sorted_by,
    stable_sort_indices, stably_sorted, total_preorder,
};
use crate::value::{value_deref, value_ref, Value};

verus! {

/// Provides access to the values in a data field.
pub trait DataIndex: std::fmt::Debug {
    /// The data type contained within this field.
    type DType;

    /// The values of this field, in order.
    spec fn values(&self) -> Seq<Value<Self::DType>>;

    /// Returns the data (possibly NA) at the specified index, if it exists.
    fn get_datum(&self, idx: usize) -> (r: Result<Value<&Self::DType>, AgnesError>)
        ensures
            idx < self.values().len() ==> (r matches Ok(v) && value_deref(v) == self.values()[idx
                as int]),
            idx >= self.values().len() ==> r is Err,
    ;

    /// Returns the length of this data field.
    fn len(&self) -> (n: usize)
        ensures
            n == self.values().len(),
    ;

    /// Returns whether or not this field is empty.
    fn is_empty(&self) -> (r: bool)
        ensures
            r == (self.values().len() == 0),
    {
        self.len() == 0
    }

    /// Copies the existing values in this field into a new `Vec`. Missing values are skipped, so
    /// the result is shorter than the field when the field has missing values.
    fn to_vec(&self) -> (r: Vec<Self::DType>) where Self: Sized, Self::DType: Clone
        ensures
            r@.len() == existing_values(self.values()).len(),
            forall|k: int|
                0 <= k < r@.len() ==> cloned(existing_values(self.values())[k], #[trigger] r@[k]),
    {
        let n = self.len();
        let ghost vals = self.values();
        let mut out: Vec<Self::DType> = Vec::new();
        let mut i: usize = 0;
        while i < n
            invariant
                n == vals.len(),
                vals == self.values(),
                i <= n,
                out@.len() == existing_values(vals.take(i as int)).len(),
                forall|k: int|
                    0 <= k < out@.len() ==> cloned(
                        existing_values(vals.take(i as int))[k],
                        #[trigger] out@[k],
                    ),
            decreases n - i,
        {
            proof {
                assert(vals.take(i + 1).drop_last() =~= vals.take(i as int));
            }
            match self.get_datum(i) {
                Ok(Value::Exists(x)) => {
                    let c = x.clone();
                    out.push(c);
                },
                _ => {},
            }
            i = i + 1;
        }
        proof {
            assert(vals.take(n as int) =~= vals);
        }
        out
    }

    /// Copies the values (missing or existing) in this field into a new `Vec`.
    fn to_value_vec(&self) -> (r: Vec<Value<Self::DType>>) where Self: Sized, Self::DType: Clone
        ensures
            r@.len() == self.values().len(),
            forall|k: int|
                0 <= k < r@.len() ==> value_cloned(self.values()[k], #[trigger] r@[k]),
    {
        let n = self.len();
        let ghost vals = self.values();
        let mut out: Vec<Value<Self::DType>> = Vec::new();
        let mut i: usize = 0;
        while i < n
            invariant
                n == vals.len(),
                vals == self.values(),
                i <= n,
                out@.len() == i,
                forall|k: int| 0 <= k < i ==> value_cloned(vals[k], #[trigger] out@[k]),
            decreases n - i,
        {
            match self.get_datum(i) {
                Ok(Value::Exists(x)) => {
                    let c = x.clone();
                    out.push(Value::Exists(c));
                },
                _ => {
                    out.push(Value::Na);
                },
            }
            i = i + 1;
        }
        out
    }
}

/// The existing values of `s`, in order, with the missing ones left out.
pub open spec fn existing_values<T>(s: Seq<Value<T>>) -> Seq<T>
    decreases s.len(),
{
    if s.len() == 0 {
        Seq::empty()
    } else {
        let rest = existing_values(s.drop_last());
        match s.last() {
            Value::Exists(x) => rest.push(x),
            Value::Na => rest,
        }
    }
}

/// Whether `dst` is a copy of `src`: missing stays missing and an existing datum is cloned.
pub open spec fn value_cloned<T: Clone>(src: Value<T>, dst: Value<T>) -> bool {
    match (src, dst) {
        (Value::Na, Value::Na) => true,
        (Value::Exists(x), Value::Exists(y)) => cloned(x, y),
        _ => false,
    }
}

/// Provides mutable access to the values in a data field.
pub trait DataIndexMut: DataIndex {
    /// Adds a value to the end of this field.
    fn push(&mut self, value: Value<Self::DType>)
        ensures
            final(self).values() == old(self).values().push(value),
    ;

    /// Takes the value at the specified index from this field, replacing it with an NA.
    fn take_datum(&mut self, idx: usize) -> (r: Result<Value<Self::DType>, AgnesError>) where
        Self::DType: Default,
        ensures
            idx < old(self).values().len() ==> r == Ok::<Value<Self::DType>, AgnesError>(
                old(self).values()[idx as int],
            ) && final(self).values() == old(self).values().update(idx as int, Value::Na),
            idx >= old(self).values().len() ==> r is Err && final(self).values() == old(
                self,
            ).values(),
    ;
}


/// Information about the permutation status of a field. `I` is the underlying permutation
/// representation (such as `Vec<usize>` or `&[usize]`); no permutation means the identity.
#[derive(Debug, Clone, Hash, PartialEq, Eq)]
pub struct Permutation<I> {
    perm: Option<I>,
}

impl<I> Permutation<I> {
    /// Whether this is the identity permutation (no permutation stored).
    pub closed spec fn is_identity(&self) -> bool {
        self.perm is None
    }
}

impl<I> Default for Permutation<I> {
    fn default() -> (r: Permutation<I>)
        ensures
            r.is_identity(),
    {
        Permutation { perm: None }
    }
}

/// The permutation that results from applying `new_perm` on top of `prev`: the identity
/// (`None`) is replaced by `new_perm`; an existing permutation is composed with it.
pub open spec fn composed_perm(prev: Option<Seq<usize>>, new_perm: Seq<usize>) -> Seq<usize> {
    match prev {
        Some(p) => new_perm.map_values(|i: usize| p[i as int]),
        None => new_perm,
    }
}

/// The index that `requested` maps to under `perm` (`None` being the identity).
pub open spec fn mapped_index(perm: Option<Seq<usize>>, requested: int) -> int {
    match perm {
        Some(p) => p[requested] as int,
        None => requested,
    }
}

impl Permutation<Vec<usize>> {
    /// The permutation indices, or `None` for the identity.
    pub closed spec fn owned_perm(&self) -> Option<Seq<usize>> {
        match self.perm {
            Some(p) => Some(p@),
            None => None,
        }
    }

    /// An identity permutation holds no indices.
    pub proof fn lemma_identity_owned(&self)
        ensures
            self.is_identity() <==> self.owned_perm() is None,
    {
    }

    /// Update this permutation with new values from `new_permutation`: afterwards, index `k`
    /// maps to what index `new_permutation[k]` mapped to before.
    pub fn update(&mut self, new_permutation: &[usize])
        requires
            old(self).owned_perm() matches Some(p) ==> forall|k: int|
                0 <= k < new_permutation@.len() ==> #[trigger] new_permutation@[k] < p.len(),
        ensures
            final(self).owned_perm() == Some(
                composed_perm(old(self).owned_perm(), new_permutation@),
            ),
    {
        let mut out: Vec<usize> = Vec::new();
        let n = new_permutation.len();
        match &self.perm {
            Some(prev) => {
                let mut k: usize = 0;
                while k < n
                    invariant
                        n == new_permutation@.len(),
                        k <= n,
                        forall|j: int| 0 <= j < n ==> #[trigger] new_permutation@[j] < prev@.len(),
                        out@ =~= new_permutation@.take(k as int).map_values(
                            |i: usize| prev@[i as int],
                        ),
                    decreases n - k,
                {
                    out.push(prev[new_permutation[k]]);
                    k = k + 1;
                }
            },
            None => {
                let mut k: usize = 0;
                while k < n
                    invariant
                        n == new_permutation@.len(),
                        k <= n,
                        out@ =~= new_permutation@.take(k as int),
                    decreases n - k,
                {
                    out.push(new_permutation[k]);
                    k = k + 1;
                }
            },
        }
        proof {
            assert(new_permutation@.take(n as int) =~= new_permutation@);
        }
        self.perm = Some(out);
    }

    /// Returns the re-organized index of a requested index.
    pub fn map_index(&self, requested: usize) -> (r: usize)
        requires
            self.owned_perm() matches Some(p) ==> requested < p.len(),
        ensures
            r == mapped_index(self.owned_perm(), requested as int),
    {
        match &self.perm {
            Some(perm) => perm[requested],
            None => requested,
        }
    }

    /// Returns the length of this permutation, if it exists. `None` means that no permutation
    /// exists (the full field in its original order is used).
    pub fn len(&self) -> (r: Option<usize>)
        ensures
            r is Some <==> self.owned_perm() is Some,
            r matches Some(n) ==> n == self.owned_perm().unwrap().len(),
    {
        match &self.perm {
            Some(perm) => Some(perm.len()),
            None => None,
        }
    }

    /// Returns whether or not a permutation actually exists.
    pub fn is_permuted(&self) -> (r: bool)
        ensures
            r == (self.owned_perm() is Some),
    {
        self.perm.is_some()
    }
}

impl<'b> Permutation<&'b [usize]> {
    /// The permutation indices, or `None` for the identity.
    pub closed spec fn borrowed_perm(&self) -> Option<Seq<usize>> {
        match self.perm {
            Some(p) => Some(p@),
            None => None,
        }
    }

    /// An identity permutation holds no indices.
    pub proof fn lemma_identity_borrowed(&self)
        ensures
            self.is_identity() <==> self.borrowed_perm() is None,
    {
    }

    /// Returns the re-organized index of a requested index.
    pub fn map_index(&self, requested: usize) -> (r: usize)
        requires
            self.borrowed_perm() matches Some(p) ==> requested < p.len(),
        ensures
            r == mapped_index(self.borrowed_perm(), requested as int),
    {
        match &self.perm {
            Some(perm) => perm[requested],
            None => requested,
        }
    }

    /// Returns the length of this permutation, if it exists. `None` means that no permutation
    /// exists (the full field in its original order is used).
    pub fn len(&self) -> (r: Option<usize>)
        ensures
            r is Some <==> self.borrowed_perm() is Some,
            r matches Some(n) ==> n == self.borrowed_perm().unwrap().len(),
    {
        match &self.perm {
            Some(perm) => Some(perm.len()),
            None => None,
        }
    }

    /// Returns whether or not a permutation actually exists.
    pub fn is_permuted(&self) -> (r: bool)
        ensures
            r == (self.borrowed_perm() is Some),
    {
        self.perm.is_some()
    }
}


/// The values of `values` in the order given by `perm` (`None` being the identity order).
pub open spec fn permuted_values<T>(values: Seq<Value<T>>, perm: Option<Seq<usize>>) -> Seq<
    Value<T>,
> {
    match perm {
        Some(p) => p.map_values(|i: usize| values[i as int]),
        None => values,
    }
}

/// Whether every index of `perm` is a valid index into data of length `len`.
pub open spec fn indices_in_bounds(perm: Seq<usize>, len: nat) -> bool {
    forall|k: int| 0 <= k < perm.len() ==> #[trigger] perm[k] < len
}

/// Iterator over the data in a data structure that implements `DataIndex`, optionally permuted.
pub struct DataIterator<'a, 'b, D> {
    data: &'a D,
    permutation: Permutation<&'b [usize]>,
    cur_idx: usize,
}

impl<'a, 'b, D: DataIndex> DataIterator<'a, 'b, D> {
    /// Whether every permutation index of this iterator is in range of its data.
    pub closed spec fn well_formed(&self) -> bool {
        self.permutation.borrowed_perm() matches Some(p) ==> indices_in_bounds(
            p,
            self.data.values().len(),
        )
    }

    /// The full sequence of values that this iterator yields, from its start.
    pub closed spec fn items(&self) -> Seq<Value<D::DType>> {
        permuted_values(self.data.values(), self.permutation.borrowed_perm())
    }

    /// The number of values already yielded.
    pub closed spec fn position(&self) -> nat {
        self.cur_idx as nat
    }

    /// Create a new `DataIterator` from a type that implements `DataIndex`.
    pub fn new(data: &'a D) -> (r: DataIterator<'a, 'b, D>)
        ensures
            r.well_formed(),
            r.items() == data.values(),
            r.position() == 0,
    {
        DataIterator { data, permutation: Permutation::default(), cur_idx: 0 }
    }

    /// Create a new `DataIterator` from a type that implements `DataIndex`, permuted using the
    /// slice of indices `permutation`. Fails when an index of `permutation` is out of range.
    pub fn with_permutation(data: &'a D, permutation: &'b [usize]) -> (r: Result<
        DataIterator<'a, 'b, D>,
        AgnesError,
    >)
        ensures
            r is Ok <==> indices_in_bounds(permutation@, data.values().len()),
            r matches Err(e) ==> e == (AgnesError::LengthMismatch {
                expected: data.values().len() as usize,
                actual: permutation@.len() as usize,
            }),
            r matches Ok(it) ==> it.well_formed() && it.items() == permuted_values(
                data.values(),
                Some(permutation@),
            ) && it.position() == 0,
    {
        let n = permutation.len();
        let len = data.len();
        if n > 0 {
            let mut max: usize = permutation[0];
            let mut k: usize = 1;
            while k < n
                invariant
                    n == permutation@.len(),
                    1 <= k <= n,
                    forall|j: int| 0 <= j < k ==> #[trigger] permutation@[j] <= max,
                    exists|j: int| 0 <= j < k && #[trigger] permutation@[j] == max,
                decreases n - k,
            {
                if permutation[k] > max {
                    max = permutation[k];
                }
                k = k + 1;
            }
            if max >= len {
                return Err(AgnesError::LengthMismatch { expected: len, actual: n });
            }
        }
        Ok(DataIterator { data, permutation: Permutation { perm: Some(permutation) }, cur_idx: 0 })
    }

    /// Returns an iterator applying `f` to the stored values (where they exist) of this
    /// iterator; missing values stay missing.
    pub fn map_values<B, F: Fn(&'a D::DType) -> B>(self, f: F) -> (r: ValueMap<'a, 'b, D, F>)
        requires
            self.well_formed(),
            forall|x: &'a D::DType| #[trigger] call_requires(f, (x,)),
        ensures
            r.well_formed(),
            r.items() == self.items(),
            r.position() == self.position(),
            r.mapper() == f,
    {
        ValueMap { iter: self, f }
    }

    /// Returns the next value, or `None` when every value has been yielded.
    pub fn next(&mut self) -> (r: Option<Value<&'a D::DType>>)
        requires
            old(self).well_formed(),
        ensures
            final(self).well_formed(),
            final(self).items() == old(self).items(),
            old(self).position() < old(self).items().len() ==> (r matches Some(v) && value_deref(
                v,
            ) == old(self).items()[old(self).position() as int]) && final(self).position() == old(
                self,
            ).position() + 1,
            old(self).position() >= old(self).items().len() ==> r is None && final(self).position()
                == old(self).position(),
    {
        let more = match self.permutation.len() {
            Some(n) => self.cur_idx < n,
            None => self.cur_idx < self.data.len(),
        };
        if more {
            let idx = self.permutation.map_index(self.cur_idx);
            let out = match self.data.get_datum(idx) {
                Ok(v) => v,
                Err(_) => Value::Na,
            };
            self.cur_idx = self.cur_idx + 1;
            Some(out)
        } else {
            None
        }
    }

    /// Yields every remaining value, in order, collected into a vector.
    pub fn collect_values(&mut self) -> (r: Vec<Value<&'a D::DType>>)
        requires
            old(self).well_formed(),
        ensures
            final(self).position() == (if old(self).position() < old(self).items().len() {
                old(self).items().len()
            } else {
                old(self).position()
            }),
            final(self).well_formed(),
            final(self).items() == old(self).items(),
            r@.len() == (if old(self).position() < old(self).items().len() {
                old(self).items().len() - old(self).position()
            } else {
                0
            }),
            forall|k: int|
                0 <= k < r@.len() ==> value_deref(#[trigger] r@[k]) == old(self).items()[old(
                    self,
                ).position() + k],
    {
        let ghost start = self.position();
        let ghost all = self.items();
        let mut out: Vec<Value<&'a D::DType>> = Vec::new();
        loop
            invariant_except_break
                self.well_formed(),
                self.items() == all,
                start <= self.position(),
                self.position() <= all.len() || self.position() == start,
                out@.len() == self.position() - start,
                forall|k: int|
                    0 <= k < out@.len() ==> value_deref(#[trigger] out@[k]) == all[start + k],
            ensures
                self.position() == (if start < all.len() {
                    all.len()
                } else {
                    start
                }),
                self.well_formed(),
                self.items() == all,
                out@.len() == (if start < all.len() {
                    all.len() - start
                } else {
                    0
                }),
                forall|k: int|
                    0 <= k < out@.len() ==> value_deref(#[trigger] out@[k]) == all[start + k],
            decreases all.len() - self.position(),
        {
            match self.next() {
                Some(v) => {
                    out.push(v);
                },
                None => {
                    break ;
                },
            }
        }
        out
    }
}


/// Whether `dst` is what mapping function `f` may give for `src`: missing values stay missing and
/// an existing value is mapped through `f`.
pub open spec fn value_mapped<'a, T: 'a, B, F: Fn(&'a T) -> B>(f: F, src: Value<T>, dst: Value<B>) -> bool {
    match (src, dst) {
        (Value::Na, Value::Na) => true,
        (Value::Exists(x), Value::Exists(y)) => call_ensures(f, (&x,), y),
        _ => false,
    }
}

/// Mapping iterator applying function `F` to the existing values yielded by a `DataIterator`.
pub struct ValueMap<'a, 'b, D, F> {
    iter: DataIterator<'a, 'b, D>,
    f: F,
}

impl<'a, 'b, B, D: DataIndex, F: Fn(&'a D::DType) -> B> ValueMap<'a, 'b, D, F> {
    /// The full sequence of source values, before mapping, from the start of iteration.
    pub closed spec fn items(&self) -> Seq<Value<D::DType>> {
        self.iter.items()
    }

    /// The number of values already yielded.
    pub closed spec fn position(&self) -> nat {
        self.iter.position()
    }

    /// Whether the underlying iterator is well formed.
    pub closed spec fn well_formed(&self) -> bool {
        self.iter.well_formed()
    }

    /// The mapping function.
    pub closed spec fn mapper(&self) -> F {
        self.f
    }

    /// Returns the next mapped value, or `None` when every value has been yielded.
    pub fn next(&mut self) -> (r: Option<Value<B>>)
        requires
            old(self).well_formed(),
            forall|x: &'a D::DType| #[trigger] call_requires(old(self).mapper(), (x,)),
        ensures
            final(self).well_formed(),
            final(self).items() == old(self).items(),
            final(self).mapper() == old(self).mapper(),
            old(self).position() < old(self).items().len() ==> (r matches Some(v) && value_mapped(
                old(self).mapper(),
                old(self).items()[old(self).position() as int],
                v,
            )) && final(self).position() == old(self).position() + 1,
            old(self).position() >= old(self).items().len() ==> r is None && final(self).position()
                == old(self).position(),
    {
        proof {
            assert forall|x: &'a D::DType| #[trigger] call_requires(self.f, (x,)) by {
                assert(call_requires(old(self).mapper(), (x,)));
            }
        }
        match self.iter.next() {
            Some(Value::Exists(x)) => {
                let y = (self.f)(x);
                Some(Value::Exists(y))
            },
            Some(Value::Na) => Some(Value::Na),
            None => None,
        }
    }

    /// Yields every remaining mapped value, in order, collected into a vector.
    pub fn collect_values(&mut self) -> (r: Vec<Value<B>>)
        requires
            old(self).well_formed(),
            forall|x: &'a D::DType| #[trigger] call_requires(old(self).mapper(), (x,)),
        ensures
            final(self).position() == (if old(self).position() < old(self).items().len() {
                old(self).items().len()
            } else {
                old(self).position()
            }),
            final(self).well_formed(),
            final(self).items() == old(self).items(),
            r@.len() == (if old(self).position() < old(self).items().len() {
                old(self).items().len() - old(self).position()
            } else {
                0
            }),
            forall|k: int|
                0 <= k < r@.len() ==> value_mapped(
                    old(self).mapper(),
                    old(self).items()[old(self).position() + k],
                    #[trigger] r@[k],
                ),
    {
        let ghost start = self.position();
        let ghost all = self.items();
        let ghost f = self.mapper();
        let mut out: Vec<Value<B>> = Vec::new();
        loop
            invariant_except_break
                self.well_formed(),
                self.items() == all,
                self.mapper() == f,
                forall|x: &'a D::DType| #[trigger] call_requires(f, (x,)),
                start <= self.position(),
                self.position() <= all.len() || self.position() == start,
                out@.len() == self.position() - start,
                forall|k: int|
                    0 <= k < out@.len() ==> value_mapped(f, all[start + k], #[trigger] out@[k]),
            ensures
                self.position() == (if start < all.len() {
                    all.len()
                } else {
                    start
                }),
                self.well_formed(),
                self.items() == all,
                out@.len() == (if start < all.len() {
                    all.len() - start
                } else {
                    0
                }),
                forall|k: int|
                    0 <= k < out@.len() ==> value_mapped(f, all[start + k], #[trigger] out@[k]),
            decreases all.len() - self.position(),
        {
            match self.next() {
                Some(v) => {
                    out.push(v);
                },
                None => {
                    break ;
                },
            }
        }
        out
    }
}


/// Iterator access to the values of any `DataIndex`.
pub trait DataIndexIter: DataIndex + Sized {
    /// Returns an iterator over the values in this field.
    fn iter(&self) -> (r: DataIterator<'_, '_, Self>)
        ensures
            r.well_formed(),
            r.items() == self.values(),
            r.position() == 0,
    ;

    /// Returns an iterator over the values in this field, as permuted by `permutation`, a slice
    /// of indices into this field. Fails when an index is out of range.
    fn permute<'a, 'b>(&'a self, permutation: &'b [usize]) -> (r: Result<
        DataIterator<'a, 'b, Self>,
        AgnesError,
    >)
        ensures
            r is Ok <==> indices_in_bounds(permutation@, self.values().len()),
            r matches Err(e) ==> e == (AgnesError::LengthMismatch {
                expected: self.values().len() as usize,
                actual: permutation@.len() as usize,
            }),
            r matches Ok(it) ==> it.well_formed() && it.items() == permuted_values(
                self.values(),
                Some(permutation@),
            ) && it.position() == 0,
    ;
}

impl<D: DataIndex> DataIndexIter for D {
    fn iter(&self) -> (r: DataIterator<'_, '_, Self>) {
        DataIterator::new(self)
    }

    fn permute<'a, 'b>(&'a self, permutation: &'b [usize]) -> (r: Result<
        DataIterator<'a, 'b, Self>,
        AgnesError,
    >) {
        DataIterator::with_permutation(self, permutation)
    }
}


/// Draining iterator over the data in a data structure that implements `DataIndexMut`: each value
/// is taken out of the data, leaving an NA in its place.
pub struct DrainIterator<'a, D> {
    /// The data being drained.
    pub data: &'a mut D,
    /// The number of values already taken.
    pub cur_idx: usize,
}

impl<'a, D: DataIndexMut> DrainIterator<'a, D> {
    /// The current values of the drained data.
    pub open spec fn current(&self) -> Seq<Value<D::DType>> {
        (*self.data).values()
    }

    /// The number of values already taken.
    pub open spec fn position(&self) -> nat {
        self.cur_idx as nat
    }

    /// Create a new `DrainIterator` from a type that implements `DataIndexMut`.
    pub fn new(data: &'a mut D) -> (r: DrainIterator<'a, D>)
        ensures
            r.current() == old(data).values(),
            r.position() == 0,
            *final(data) == *final(r.data),
    {
        DrainIterator { data, cur_idx: 0 }
    }

    /// Takes the next value out of the data, or returns `None` when every value has been taken.
    pub fn next(&mut self) -> (r: Option<Value<D::DType>>) where D::DType: Default
        ensures
            *final(final(self).data) == *final(old(self).data),
            old(self).position() < old(self).current().len() ==> r == Some(
                old(self).current()[old(self).position() as int],
            ) && final(self).current() == old(self).current().update(
                old(self).position() as int,
                Value::Na,
            ) && final(self).position() == old(self).position() + 1,
            old(self).position() >= old(self).current().len() ==> r is None && final(self).current()
                == old(self).current() && final(self).position() == old(self).position(),
    {
        if self.cur_idx < self.data.len() {
            let out = match self.data.take_datum(self.cur_idx) {
                Ok(v) => v,
                Err(_) => Value::Na,
            };
            self.cur_idx = self.cur_idx + 1;
            Some(out)
        } else {
            None
        }
    }

    /// Takes every remaining value out of the data, in order, collected into a vector.
    pub fn collect_values(&mut self) -> (r: Vec<Value<D::DType>>) where D::DType: Default
        ensures
            *final(final(self).data) == *final(old(self).data),
            final(self).position() == (if old(self).position() < old(self).current().len() {
                old(self).current().len()
            } else {
                old(self).position()
            }),
            r@.len() == (if old(self).position() < old(self).current().len() {
                old(self).current().len() - old(self).position()
            } else {
                0
            }),
            forall|k: int|
                0 <= k < r@.len() ==> #[trigger] r@[k] == old(self).current()[old(
                    self,
                ).position() + k],
            final(self).current().len() == old(self).current().len(),
            forall|k: int|
                0 <= k < old(self).current().len() ==> #[trigger] final(self).current()[k] == (if k
                    < old(self).position() {
                    old(self).current()[k]
                } else {
                    Value::Na
                }),
    {
        let ghost start = self.position();
        let ghost all = self.current();
        let ghost fin = *final(self.data);
        let mut out: Vec<Value<D::DType>> = Vec::new();
        loop
            invariant_except_break
                *final(self.data) == fin,
                start <= self.position(),
                self.position() <= all.len() || self.position() == start,
                out@.len() == self.position() - start,
                forall|k: int| 0 <= k < out@.len() ==> #[trigger] out@[k] == all[start + k],
                self.current().len() == all.len(),
                forall|k: int|
                    0 <= k < all.len() ==> #[trigger] self.current()[k] == (if k < start
                        || k >= self.position() {
                        all[k]
                    } else {
                        Value::Na
                    }),
            ensures
                *final(self.data) == fin,
                self.position() == (if start < all.len() {
                    all.len()
                } else {
                    start
                }),
                out@.len() == (if start < all.len() {
                    all.len() - start
                } else {
                    0
                }),
                forall|k: int| 0 <= k < out@.len() ==> #[trigger] out@[k] == all[start + k],
                self.current().len() == all.len(),
                forall|k: int|
                    0 <= k < all.len() ==> #[trigger] self.current()[k] == (if k < start {
                        all[k]
                    } else {
                        Value::Na
                    }),
            decreases all.len() - self.position(),
        {
            match self.next() {
                Some(v) => {
                    out.push(v);
                },
                None => {
                    break ;
                },
            }
        }
        out
    }
}

/// Draining access to the values of any `DataIndexMut`.
pub trait DataIndexDrain: DataIndexMut + Sized {
    /// Returns a draining iterator of the values in this field.
    fn drain(&mut self) -> (r: DrainIterator<'_, Self>)
        ensures
            *final(self) == *final(r.data),
            r.current() == old(self).values(),
            r.position() == 0,
    ;
}

impl<D: DataIndexMut> DataIndexDrain for D {
    fn drain(&mut self) -> (r: DrainIterator<'_, Self>) {
        DrainIterator::new(self)
    }
}


/// Returns the value at `idx` of `data`, or NA when `idx` is out of range.
pub(crate) fn datum_or_na<D: DataIndex>(data: &D, idx: usize) -> (r: Value<&D::DType>)
    ensures
        idx < data.values().len() ==> value_deref(r) == data.values()[idx as int],
{
    match data.get_datum(idx) {
        Ok(v) => v,
        Err(_) => Value::Na,
    }
}

/// Computes the order of the indices of `data` sorted stably by value.
fn stable_value_order<D: DataIndex>(data: &D) -> (order: Vec<usize>) where D::DType: Ord
    ensures
        is_index_permutation(order@, data.values().len()),
        total_order::<D::DType>() ==> stably_sorted(order@, index_le(data.values())),
{
    let n = data.len();
    let ghost vals = data.values();
    let le_fn = |i: usize, j: usize| -> (r: bool)
        requires
            i < n,
            j < n,
        ensures
            total_order::<D::DType>() ==> r == value_le(
                data.values()[i as int],
                data.values()[j as int],
            ),
        { le_values(datum_or_na(data, i), datum_or_na(data, j)) };
    let order = stable_sort_indices(n, le_fn, Ghost(index_le(vals)));
    proof {
        if total_order::<D::DType>() {
            lemma_index_le_total_preorder(vals);
            assert(oracle_agrees(le_fn, index_le(vals), n as nat));
        }
    }
    order
}

/// Computes the sorted permutation order of a field. This sort is stable (preserves the original
/// order of equal elements). Missing values come first.
pub trait SortOrder {
    /// Returns the stable sorted permutation order.
    fn sort_order(&self) -> Vec<usize>;
}

impl<DI: DataIndex> SortOrder for DI where DI::DType: Ord {
    fn sort_order(&self) -> (order: Vec<usize>)
        ensures
            is_index_permutation(order@, self.values().len()),
            total_order::<DI::DType>() ==> stably_sorted(order@, index_le(self.values())),
    {
        stable_value_order(self)
    }
}

/// Computes a sorted permutation order of a field. This sort is not required to be stable (the
/// order of equal elements is unspecified). Missing values come first.
pub trait SortOrderUnstable {
    /// Returns a sorted permutation order.
    fn sort_order_unstable(&self) -> Vec<usize>;
}

impl<DI: DataIndex> SortOrderUnstable for DI where DI::DType: Ord {
    fn sort_order_unstable(&self) -> (order: Vec<usize>)
        ensures
            is_index_permutation(order@, self.values().len()),
            total_order::<DI::DType>() ==> sorted_by(order@, index_le(self.values())),
    {
        let order = stable_value_order(self);
        proof {
            if total_order::<DI::DType>() {
                lemma_stably_sorted_is_sorted(order@, index_le(self.values()));
            }
        }
        order
    }
}


/// Computes the order of the indices of `data` sorted stably by comparator `compare`.
fn stable_comparator_order<D: DataIndex, F: Fn(Value<&D::DType>, Value<&D::DType>) -> Ordering>(
    data: &D,
    compare: F,
) -> (order: Vec<usize>)
    requires
        comparator_total::<D::DType, F>(&compare),
    ensures
        is_index_permutation(order@, data.values().len()),
        comparator_total_preorder(compare, data.values()) ==> stably_sorted(
            order@,
            comparator_le(compare, data.values()),
        ),
{
    let n = data.len();
    let ghost vals = data.values();
    let cref = &compare;
    let le_fn = |i: usize, j: usize| -> (r: bool)
        requires
            i < n,
            j < n,
            comparator_total::<D::DType, F>(cref),
        ensures
            exists|o: Ordering|
                #[trigger] comparator_answers(
                    cref,
                    value_ref(&at(data.values(), i)),
                    value_ref(&at(data.values(), j)),
                    o,
                ) && r == (o != Ordering::Greater),
        { compare_le(cref, datum_or_na(data, i), datum_or_na(data, j)) };
    let order = stable_sort_indices(n, le_fn, Ghost(comparator_le(compare, vals)));
    proof {
        if comparator_total_preorder(compare, vals) {
            assert(oracle_agrees(le_fn, comparator_le(compare, vals), data.values().len()));
        }
    }
    order
}

/// Whether every answer of `compare` on two values is other than `Greater` exactly when `le`
/// holds of the values.
pub open spec fn comparator_follows<T, F: Fn(Value<&T>, Value<&T>) -> Ordering>(
    compare: F,
    le: spec_fn(Value<T>, Value<T>) -> bool,
) -> bool {
    forall|a: Value<&T>, b: Value<&T>, o: Ordering|
        #[trigger] call_ensures(compare, (a, b), o) ==> ((o != Ordering::Greater) == le(
            value_deref(a),
            value_deref(b),
        ))
}

/// The order on indices into `vals` that the order `le` on their values gives.
pub open spec fn by_values<T>(le: spec_fn(Value<T>, Value<T>) -> bool, vals: Seq<Value<T>>) -> spec_fn(
    int,
    int,
) -> bool {
    |i: int, j: int| le(vals[i], vals[j])
}

/// Whether `le` holds of the values at positions `i` and `j` of `vals`.
pub open spec fn related_at<T>(
    le: spec_fn(Value<T>, Value<T>) -> bool,
    vals: Seq<Value<T>>,
    i: usize,
    j: usize,
) -> bool {
    by_values(le, vals)(i as int, j as int)
}

/// Computes the stable sorted permutation order of `data` using the comparator `compare`, where
/// `compare` answers by the order `le` on values: when it does, and `le` is a total preorder on
/// the values, the order is stably sorted by `le`.
pub fn sort_order_by_relation<D: DataIndex, F: Fn(Value<&D::DType>, Value<&D::DType>) -> Ordering>(
    data: &D,
    compare: F,
    Ghost(le): Ghost<spec_fn(Value<D::DType>, Value<D::DType>) -> bool>,
) -> (order: Vec<usize>)
    requires
        comparator_total::<D::DType, F>(&compare),
    ensures
        is_index_permutation(order@, data.values().len()),
        comparator_follows(compare, le) && total_preorder(
            by_values(le, data.values()),
            data.values().len(),
        ) ==> stably_sorted(order@, by_values(le, data.values())),
{
    let n = data.len();
    let ghost vals = data.values();
    let cref = &compare;
    let le_fn = |i: usize, j: usize| -> (r: bool)
        requires
            i < n,
            j < n,
            comparator_total::<D::DType, F>(cref),
        ensures
            exists|o: Ordering|
                #[trigger] comparator_answers(
                    cref,
                    value_ref(&at(data.values(), i)),
                    value_ref(&at(data.values(), j)),
                    o,
                ) && r == (o != Ordering::Greater),
        { compare_le(cref, datum_or_na(data, i), datum_or_na(data, j)) };
    let order = stable_sort_indices(n, le_fn, Ghost(by_values(le, vals)));
    proof {
        if comparator_follows(compare, le) {
            assert forall|i: usize, j: usize, r: bool|
                i < n && j < n && #[trigger] call_ensures(le_fn, (i, j), r) implies r == related_at(
                    le,
                    vals,
                    i,
                    j,
                ) by {
                let o = choose|o: Ordering|
                    #[trigger] comparator_answers(
                        cref,
                        value_ref(&at(vals, i)),
                        value_ref(&at(vals, j)),
                        o,
                    ) && r == (o != Ordering::Greater);
                assert(value_deref(value_ref(&at(vals, i))) == at(vals, i));
                assert(value_deref(value_ref(&at(vals, j))) == at(vals, j));
            }
            assert(oracle_agrees(le_fn, by_values(le, vals), vals.len()));
        }
    }
    order
}

/// Computes the sorted permutation order of a field using a comparator. This sort is stable
/// (preserves the original order of equal elements).
pub trait SortOrderComparator: DataIndex + Sized {
    /// Returns the stable sorted permutation order using the specified comparator.
    fn sort_order_by<F: Fn(Value<&Self::DType>, Value<&Self::DType>) -> Ordering>(
        &self,
        compare: F,
    ) -> (order: Vec<usize>)
        requires
            comparator_total::<Self::DType, F>(&compare),
        ensures
            is_index_permutation(order@, self.values().len()),
            comparator_total_preorder(compare, self.values()) ==> stably_sorted(
                order@,
                comparator_le(compare, self.values()),
            ),
    {
        stable_comparator_order(self, compare)
    }
}

impl<DI: DataIndex> SortOrderComparator for DI {
}

/// Computes a sorted permutation order of a field using a comparator. This sort is not required
/// to be stable (the order of equal elements is unspecified).
pub trait SortOrderUnstableComparator: DataIndex + Sized {
    /// Returns a sorted permutation order using the specified comparator.
    fn sort_order_unstable_by<F: Fn(Value<&Self::DType>, Value<&Self::DType>) -> Ordering>(
        &self,
        compare: F,
    ) -> (order: Vec<usize>)
        requires
            comparator_total::<Self::DType, F>(&compare),
        ensures
            is_index_permutation(order@, self.values().len()),
            comparator_total_preorder(compare, self.values()) ==> sorted_by(
                order@,
                comparator_le(compare, self.values()),
            ),
    {
        let order = stable_comparator_order(self, compare);
        proof {
            if comparator_total_preorder(compare, self.values()) {
                lemma_stably_sorted_is_sorted(order@, comparator_le(compare, self.values()));
            }
        }
        order
    }
}

impl<DI: DataIndex> SortOrderUnstableComparator for DI {
}


/// Whether `s` is strictly increasing.
pub open spec fn strictly_increasing(s: Seq<usize>) -> bool {
    forall|a: int, b: int| 0 <= a < b < s.len() ==> #[trigger] s[a] < #[trigger] s[b]
}

/// Computes the indices of the values of a field that match a predicate.
pub trait FilterPerm: DataIndex + Sized {
    /// Returns, in increasing order, the indices of this field whose values match `predicate`.
    fn filter_perm<P: Fn(Value<&Self::DType>) -> bool>(&self, predicate: P) -> (r: Vec<usize>)
        requires
            forall|v: Value<&Self::DType>| #[trigger] call_requires(predicate, (v,)),
        ensures
            strictly_increasing(r@),
            forall|k: int| 0 <= k < r@.len() ==> #[trigger] r@[k] < self.values().len(),
            forall|k: int|
                0 <= k < r@.len() ==> call_ensures(
                    predicate,
                    (value_ref(&self.values()[#[trigger] r@[k] as int]),),
                    true,
                ),
            forall|i: int|
                0 <= i < self.values().len() && !r@.contains(i as usize) ==> #[trigger] call_ensures(
                    predicate,
                    (value_ref(&self.values()[i]),),
                    false,
                ),
    {
        let n = self.len();
        let ghost vals = self.values();
        let mut out: Vec<usize> = Vec::new();
        let mut i: usize = 0;
        while i < n
            invariant
                n == vals.len(),
                vals == self.values(),
                i <= n,
                forall|v: Value<&Self::DType>| #[trigger] call_requires(predicate, (v,)),
                strictly_increasing(out@),
                forall|k: int| 0 <= k < out@.len() ==> #[trigger] out@[k] < i,
                forall|k: int|
                    0 <= k < out@.len() ==> call_ensures(
                        predicate,
                        (value_ref(&vals[#[trigger] out@[k] as int]),),
                        true,
                    ),
                forall|j: int|
                    0 <= j < i && !out@.contains(j as usize) ==> #[trigger] call_ensures(
                        predicate,
                        (value_ref(&vals[j]),),
                        false,
                    ),
            decreases n - i,
        {
            let v = datum_or_na(self, i);
            let keep = predicate(v);
            let ghost prev = out@;
            if keep {
                out.push(i);
                assert(out@[out@.len() - 1] == i);
            }
            proof {
                assert forall|j: int|
                    0 <= j < i + 1 && !out@.contains(j as usize) implies #[trigger] call_ensures(
                    predicate,
                    (value_ref(&vals[j]),),
                    false,
                ) by {
                    if j < i {
                        if prev.contains(j as usize) {
                            let k = choose|k: int| 0 <= k < prev.len() && prev[k] == j as usize;
                            assert(out@[k] == prev[k]);
                        }
                    } else if keep {
                        assert(out@.contains(i));
                    }
                }
            }
            i = i + 1;
        }
        out
    }
}

impl<DI: DataIndex> FilterPerm for DI {
}


/// Updating a permutation composes it: after `update(new_perm)`, index `k` maps to what
/// `new_perm[k]` mapped to before the update.
pub proof fn lemma_update_maps_through(prev: Option<Seq<usize>>, new_perm: Seq<usize>, k: int)
    requires
        0 <= k < new_perm.len(),
        prev matches Some(p) ==> new_perm[k] < p.len(),
    ensures
        mapped_index(Some(composed_perm(prev, new_perm)), k) == mapped_index(prev, new_perm[k] as int),
{
}

/// Copying out the existing values of a field gives at most as many values as the field holds,
/// and strictly fewer when the field has a missing value.
pub proof fn lemma_existing_values_len<T>(s: Seq<Value<T>>)
    ensures
        existing_values(s).len() <= s.len(),
        (exists|i: int| 0 <= i < s.len() && #[trigger] s[i] is Na) ==> existing_values(s).len()
            < s.len(),
    decreases s.len(),
{
    if s.len() > 0 {
        lemma_existing_values_len(s.drop_last());
        if exists|i: int| 0 <= i < s.len() && #[trigger] s[i] is Na {
            let i = choose|i: int| 0 <= i < s.len() && #[trigger] s[i] is Na;
            if i < s.len() - 1 {
                assert(s.drop_last()[i] is Na);
            }
        }
    }
}

/// In an order sorted by value, missing values come before every existing value.
pub proof fn lemma_missing_values_first<T: Ord>(vals: Seq<Value<T>>, order: Seq<usize>)
    requires
        sorted_by(order, index_le(vals)),
    ensures
        forall|a: int, b: int|
            0 <= a < b < order.len() && #[trigger] vals[order[a] as int] is Exists ==> #[trigger] vals[order[b] as int] is Exists,
{
    assert forall|a: int, b: int|
        0 <= a < b < order.len() && #[trigger] vals[order[a] as int] is Exists implies #[trigger] vals[order[b] as int] is Exists by {
        assert(index_le(vals)(order[a] as int, order[b] as int));
    }
}

} // verus!
