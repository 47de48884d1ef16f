//! The order of values: a missing value comes before every existing one, and existing values are
//! ordered by their type's `Ord`.
use std::cmp::Ordering;

use vstd::prelude::*;

use vstd::std_specs::cmp::{OrdSpec, PartialEqSpec, PartialOrdSpec};

use crate::value::{value_deref, value_ref, Value};

verus! {

/// Whether `T`'s `Ord` behaves as a total order (as it does for the integer types).
pub open spec fn total_order<T: Ord>() -> bool {
    vstd::laws_cmp::obeys_cmp::<T>()
}

/// Whether datum `x` is at most datum `y` by `T`'s `Ord`.
pub open spec fn datum_le<T: Ord>(x: T, y: T) -> bool {
    x.cmp_spec(&y) != Ordering::Greater
}

/// Whether value `a` is at most value `b`: missing values come first, existing values are compared
/// by their data.
pub open spec fn value_le<T: Ord>(a: Value<T>, b: Value<T>) -> bool {
    match (a, b) {
        (Value::Na, _) => true,
        (Value::Exists(_), Value::Na) => false,
        (Value::Exists(x), Value::Exists(y)) => datum_le(x, y),
    }
}

/// Whether values `a` and `b` are equivalent in the order: each is at most the other.
pub open spec fn value_equiv<T: Ord>(a: Value<T>, b: Value<T>) -> bool {
    value_le(a, b) && value_le(b, a)
}

/// Whether value `a` is strictly less than value `b`.
pub open spec fn value_lt<T: Ord>(a: Value<T>, b: Value<T>) -> bool {
    value_le(a, b) && !value_le(b, a)
}

/// Compares two values: returns whether `a` is at most `b`.
pub fn le_values<T: Ord>(a: Value<&T>, b: Value<&T>) -> (r: bool)
    ensures
        total_order::<T>() ==> r == value_le(value_deref(a), value_deref(b)),
{
    match (a, b) {
        (Value::Na, _) => true,
        (Value::Exists(_), Value::Na) => false,
        (Value::Exists(x), Value::Exists(y)) => {
            proof {
                reveal(vstd::laws_cmp::obeys_cmp_ord);
            }
            let o = T::cmp(x, y);
            match o {
                Ordering::Greater => false,
                _ => true,
            }
        },
    }
}

/// Under a total order on `T`, `datum_le` is reflexive, total and transitive.
pub proof fn lemma_datum_order<T: Ord>()
    requires
        total_order::<T>(),
    ensures
        forall|x: T| #[trigger] datum_le(x, x),
        forall|x: T, y: T| #[trigger] datum_le(x, y) || #[trigger] datum_le(y, x),
        forall|x: T, y: T, z: T|
            #[trigger] datum_le(x, y) && #[trigger] datum_le(y, z) ==> datum_le(x, z),
{
    reveal(vstd::laws_cmp::obeys_partial_cmp_spec_properties);
    reveal(vstd::laws_cmp::obeys_cmp_ord);
    reveal(vstd::laws_eq::obeys_eq_spec_properties);
    assert forall|x: T| #[trigger] datum_le(x, x) by {
        assert(x.partial_cmp_spec(&x) == Some(x.cmp_spec(&x)));
    }
    assert forall|x: T, y: T| #[trigger] datum_le(x, y) || #[trigger] datum_le(y, x) by {
        assert(x.partial_cmp_spec(&y) == Some(x.cmp_spec(&y)));
        assert(y.partial_cmp_spec(&x) == Some(y.cmp_spec(&x)));
    }
    assert forall|x: T, y: T, z: T|
        #[trigger] datum_le(x, y) && #[trigger] datum_le(y, z) implies datum_le(x, z) by {
        assert(x.partial_cmp_spec(&y) == Some(x.cmp_spec(&y)));
        assert(y.partial_cmp_spec(&x) == Some(y.cmp_spec(&x)));
        assert(y.partial_cmp_spec(&z) == Some(y.cmp_spec(&z)));
        assert(z.partial_cmp_spec(&y) == Some(z.cmp_spec(&y)));
        assert(x.partial_cmp_spec(&z) == Some(x.cmp_spec(&z)));
        assert(z.partial_cmp_spec(&x) == Some(z.cmp_spec(&x)));
        if x.cmp_spec(&z) == Ordering::Greater {
            if x.cmp_spec(&y) == Ordering::Less {
                assert(z.cmp_spec(&x) == Ordering::Less);
                assert(z.cmp_spec(&y) == Ordering::Less);
                assert(false);
            } else if y.cmp_spec(&z) == Ordering::Less {
                assert(z.cmp_spec(&y) == Ordering::Greater);
                assert(x.cmp_spec(&y) == Ordering::Greater);
                assert(false);
            } else {
                assert(x.eq_spec(&y));
                assert(y.eq_spec(&z));
                assert(x.eq_spec(&z));
                assert(false);
            }
        }
    }
}

/// Under a total order on `T`, `value_le` is reflexive, total and transitive.
pub proof fn lemma_value_order<T: Ord>()
    requires
        total_order::<T>(),
    ensures
        forall|a: Value<T>| #[trigger] value_le(a, a),
        forall|a: Value<T>, b: Value<T>| #[trigger] value_le(a, b) || #[trigger] value_le(b, a),
        forall|a: Value<T>, b: Value<T>, c: Value<T>|
            #[trigger] value_le(a, b) && #[trigger] value_le(b, c) ==> value_le(a, c),
{
    lemma_datum_order::<T>();
    assert forall|a: Value<T>, b: Value<T>, c: Value<T>|
        #[trigger] value_le(a, b) && #[trigger] value_le(b, c) implies value_le(a, c) by {
        match (a, b, c) {
            (Value::Exists(x), Value::Exists(y), Value::Exists(z)) => {
                assert(datum_le(x, y) && datum_le(y, z));
            },
            _ => {},
        }
    }
}


/// The order on indices into `vals` given by the order of the values they index.
pub open spec fn index_le<T: Ord>(vals: Seq<Value<T>>) -> spec_fn(int, int) -> bool {
    |i: int, j: int| value_le(vals[i], vals[j])
}

/// Under a total order on `T`, the order on indices into `vals` is a total preorder.
pub proof fn lemma_index_le_total_preorder<T: Ord>(vals: Seq<Value<T>>)
    requires
        total_order::<T>(),
    ensures
        crate::sort::total_preorder(index_le(vals), vals.len()),
{
    lemma_value_order::<T>();
    let le = index_le(vals);
    assert forall|i: int, j: int| 0 <= i < vals.len() && 0 <= j < vals.len() implies #[trigger] le(
        i,
        j,
    ) || #[trigger] le(j, i) by {
        assert(value_le(vals[i], vals[j]) || value_le(vals[j], vals[i]));
    }
    assert forall|i: int, j: int, k: int|
        0 <= i < vals.len() && 0 <= j < vals.len() && 0 <= k < vals.len() && #[trigger] le(i, j)
            && #[trigger] le(j, k) implies le(i, k) by {
        assert(value_le(vals[i], vals[j]) && value_le(vals[j], vals[k]));
    }
}


/// The element of `s` at index `i`.
pub open spec fn at<T>(s: Seq<T>, i: usize) -> T {
    s[i as int]
}

/// The order on indices into `vals` that comparator `compare` gives: `i` is at most `j` when no
/// answer of `compare` on their values is `Greater`.
pub open spec fn comparator_le<T, F: Fn(Value<&T>, Value<&T>) -> Ordering>(
    compare: F,
    vals: Seq<Value<T>>,
) -> spec_fn(int, int) -> bool {
    |i: int, j: int|
        forall|o: Ordering|
            #[trigger] call_ensures(compare, (value_ref(&vals[i]), value_ref(&vals[j])), o) ==> o
                != Ordering::Greater
}

/// Whether comparator `compare` answers deterministically on the values `vals` and orders them
/// by a total preorder.
pub open spec fn comparator_total_preorder<T, F: Fn(Value<&T>, Value<&T>) -> Ordering>(
    compare: F,
    vals: Seq<Value<T>>,
) -> bool {
    &&& forall|i: int, j: int, o1: Ordering, o2: Ordering|
        0 <= i < vals.len() && 0 <= j < vals.len() && #[trigger] call_ensures(
            compare,
            (value_ref(&vals[i]), value_ref(&vals[j])),
            o1,
        ) && #[trigger] call_ensures(compare, (value_ref(&vals[i]), value_ref(&vals[j])), o2) ==> o1
            == o2
    &&& crate::sort::total_preorder(comparator_le(compare, vals), vals.len())
}

/// Whether `compare` accepts every pair of values.
pub open spec fn comparator_total<T, F: Fn(Value<&T>, Value<&T>) -> Ordering>(compare: &F) -> bool {
    forall|a: Value<&T>, b: Value<&T>| #[trigger] call_requires(*compare, (a, b))
}

/// Whether `o` is an answer that `compare` may give on `a` and `b`.
pub open spec fn comparator_answers<T, F: Fn(Value<&T>, Value<&T>) -> Ordering>(
    compare: &F,
    a: Value<&T>,
    b: Value<&T>,
    o: Ordering,
) -> bool {
    call_ensures(*compare, (a, b), o)
}

/// Calls `compare` on two values and tells whether the first is at most the second.
pub fn compare_le<T, F: Fn(Value<&T>, Value<&T>) -> Ordering>(
    compare: &F,
    a: Value<&T>,
    b: Value<&T>,
) -> (r: bool)
    requires
        comparator_total::<T, F>(compare),
    ensures
        exists|o: Ordering| #[trigger] comparator_answers(compare, a, b, o) && r == (o != Ordering::Greater),
{
    let o = compare(a, b);
    assert(comparator_answers(compare, a, b, o));
    match o {
        Ordering::Greater => false,
        _ => true,
    }
}

} // verus!
