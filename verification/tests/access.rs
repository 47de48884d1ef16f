use std::cmp::Ordering;

use agnes::access::{
    DataIndex, DataIndexDrain, DataIndexIter, DataIndexMut, FilterPerm, Permutation, SortOrder,
    SortOrderComparator, SortOrderUnstable, SortOrderUnstableComparator,
};
use agnes::error::AgnesError;
use agnes::field::FieldData;
use agnes::value::Value;

/// Orders floating-point values, NaN first.
fn sort_f64(left: &f64, right: &f64) -> Ordering {
    left.partial_cmp(right).unwrap_or_else(|| {
        if left.is_nan() && !right.is_nan() {
            Ordering::Less
        } else {
            Ordering::Greater
        }
    })
}

/// Orders possibly-missing floating-point values: NA first, then NaN, then ascending.
fn sort_f64_values(left: Value<&f64>, right: Value<&f64>) -> Ordering {
    match (left, right) {
        (Value::Na, Value::Na) => Ordering::Equal,
        (Value::Na, Value::Exists(_)) => Ordering::Less,
        (Value::Exists(_), Value::Na) => Ordering::Greater,
        (Value::Exists(left), Value::Exists(right)) => sort_f64(left, right),
    }
}

#[test]
fn access_sort_order_no_na() {
    let field_data: FieldData<u64> = FieldData::from_vec(vec![2u64, 5, 3, 1, 8]);
    let sorted_order = field_data.sort_order();
    assert_eq!(sorted_order, vec![3, 0, 2, 1, 4]);

    let field_data: FieldData<f64> = FieldData::from_vec(vec![2.0, 5.4, 3.1, 1.1, 8.2]);
    let sorted_order = field_data.sort_order_by(sort_f64_values);
    assert_eq!(sorted_order, vec![3, 0, 2, 1, 4]);

    let field_data: FieldData<f64> =
        FieldData::from_vec(vec![2.0, ::std::f64::NAN, 3.1, 1.1, 8.2]);
    let sorted_order = field_data.sort_order_by(sort_f64_values);
    assert_eq!(sorted_order, vec![1, 3, 0, 2, 4]);

    let field_data: FieldData<f64> =
        FieldData::from_vec(vec![2.0, ::std::f64::NAN, 3.1, ::std::f64::INFINITY, 8.2]);
    let sorted_order = field_data.sort_order_by(sort_f64_values);
    assert_eq!(sorted_order, vec![1, 0, 2, 4, 3]);
}

#[test]
fn access_sort_order_na() {
    let field_data = FieldData::from_field_vec(vec![
        Value::Exists(2u64),
        Value::Exists(5),
        Value::Na,
        Value::Exists(1),
        Value::Exists(8),
    ]);
    let sorted_order = field_data.sort_order();
    assert_eq!(sorted_order, vec![2, 3, 0, 1, 4]);

    let field_data = FieldData::from_field_vec(vec![
        Value::Exists(2.1),
        Value::Exists(5.5),
        Value::Na,
        Value::Exists(1.1),
        Value::Exists(8.2930),
    ]);
    let sorted_order = field_data.sort_order_by(sort_f64_values);
    assert_eq!(sorted_order, vec![2, 3, 0, 1, 4]);

    let field_data = FieldData::from_field_vec(vec![
        Value::Exists(2.1),
        Value::Exists(::std::f64::NAN),
        Value::Na,
        Value::Exists(1.1),
        Value::Exists(8.2930),
    ]);
    let sorted_order = field_data.sort_order_by(sort_f64_values);
    assert_eq!(sorted_order, vec![2, 1, 3, 0, 4]);

    let field_data = FieldData::from_field_vec(vec![
        Value::Exists(2.1),
        Value::Exists(::std::f64::NAN),
        Value::Na,
        Value::Exists(::std::f64::INFINITY),
        Value::Exists(8.2930),
    ]);
    let sorted_order = field_data.sort_order_by(sort_f64_values);
    assert_eq!(sorted_order, vec![2, 1, 0, 4, 3]);
}

#[test]
fn convert() {
    let field_data = FieldData::from_field_vec(vec![
        Value::Exists(2u64),
        Value::Exists(5),
        Value::Na,
        Value::Exists(1),
        Value::Exists(8),
    ]);
    let mut mapped = field_data.iter().map_values(|u: &u64| *u as i64);
    let new_field_data: FieldData<i64> = FieldData::from_field_vec(mapped.collect_values());
    assert_eq!(
        new_field_data.to_value_vec(),
        vec![
            Value::Exists(2i64),
            Value::Exists(5),
            Value::Na,
            Value::Exists(1),
            Value::Exists(8),
        ]
    );
}

#[test]
fn stable_sort_keeps_order_of_equal_values() {
    let field_data = FieldData::from_field_vec(vec![
        Value::Exists(3i64),
        Value::Na,
        Value::Exists(-1),
        Value::Exists(3),
        Value::Na,
        Value::Exists(-1),
    ]);
    assert_eq!(field_data.sort_order(), vec![1, 4, 2, 5, 0, 3]);
    let unstable = field_data.sort_order_unstable();
    let keys: Vec<Value<i64>> = unstable
        .iter()
        .map(|&i| match field_data.get_datum(i).unwrap() {
            Value::Exists(x) => Value::Exists(*x),
            Value::Na => Value::Na,
        })
        .collect();
    assert_eq!(
        keys,
        vec![Value::Na, Value::Na, Value::Exists(-1), Value::Exists(-1), Value::Exists(3), Value::Exists(3)]
    );
}

#[test]
fn sort_by_reverse_comparator() {
    let field_data = FieldData::from_vec(vec![4u64, 9, 1, 9]);
    let order = field_data.sort_order_by(|a: Value<&u64>, b: Value<&u64>| match (a, b) {
        (Value::Exists(x), Value::Exists(y)) => y.cmp(x),
        (Value::Na, Value::Na) => Ordering::Equal,
        (Value::Na, _) => Ordering::Less,
        (_, Value::Na) => Ordering::Greater,
    });
    assert_eq!(order, vec![1, 3, 0, 2]);
    let unstable = field_data.sort_order_unstable_by(|a: Value<&u64>, b: Value<&u64>| match (a, b) {
        (Value::Exists(x), Value::Exists(y)) => x.cmp(y),
        _ => Ordering::Equal,
    });
    assert_eq!(unstable.len(), 4);
    assert_eq!(unstable[0], 2);
    assert_eq!(unstable[1], 0);
}

#[test]
fn get_datum_and_len() {
    let field_data = FieldData::from_field_vec(vec![Value::Exists(7u64), Value::Na]);
    assert_eq!(field_data.len(), 2);
    assert!(!field_data.is_empty());
    assert_eq!(field_data.get_datum(0), Ok(Value::Exists(&7u64)));
    assert_eq!(field_data.get_datum(1), Ok(Value::Na));
    assert_eq!(
        field_data.get_datum(2),
        Err(AgnesError::IndexError { index: 2, len: 2 })
    );
    let empty: FieldData<u64> = FieldData::new();
    assert!(empty.is_empty());
}

#[test]
fn to_vec_skips_missing_values() {
    let field_data = FieldData::from_field_vec(vec![
        Value::Exists(2u64),
        Value::Na,
        Value::Exists(4),
    ]);
    assert_eq!(field_data.to_vec(), vec![2u64, 4]);
    assert!(field_data.to_vec().len() < field_data.len());
    assert_eq!(
        field_data.to_value_vec(),
        vec![Value::Exists(2u64), Value::Na, Value::Exists(4)]
    );
}

#[test]
fn iterate_in_order_and_permuted() {
    let field_data = FieldData::from_vec(vec![10u64, 20, 30]);
    let mut it = field_data.iter();
    assert_eq!(it.next(), Some(Value::Exists(&10u64)));
    assert_eq!(it.collect_values(), vec![Value::Exists(&20u64), Value::Exists(&30)]);
    assert_eq!(it.next(), None);

    let perm = [2usize, 0, 2];
    let mut it = field_data.permute(&perm).unwrap();
    assert_eq!(
        it.collect_values(),
        vec![Value::Exists(&30u64), Value::Exists(&10), Value::Exists(&30)]
    );

    let bad = [0usize, 3];
    assert!(matches!(
        field_data.permute(&bad),
        Err(AgnesError::LengthMismatch { expected: 3, actual: 2 })
    ));
    let empty_perm: [usize; 0] = [];
    let mut it = field_data.permute(&empty_perm).unwrap();
    assert_eq!(it.next(), None);
}

#[test]
fn drain_takes_values_and_leaves_missing() {
    let mut field_data = FieldData::from_vec(vec![1u64, 2]);
    field_data.push(Value::Na);
    let taken = field_data.drain().collect_values();
    assert_eq!(taken, vec![Value::Exists(1u64), Value::Exists(2), Value::Na]);
    assert_eq!(field_data.to_value_vec(), vec![Value::Na, Value::Na, Value::Na]);

    let mut field_data = FieldData::from_vec(vec![5u64]);
    assert_eq!(field_data.take_datum(0), Ok(Value::Exists(5u64)));
    assert_eq!(field_data.take_datum(0), Ok(Value::Na));
    assert_eq!(
        field_data.take_datum(1),
        Err(AgnesError::IndexError { index: 1, len: 1 })
    );
}

#[test]
fn filter_perm_selects_matching_indices() {
    let field_data = FieldData::from_field_vec(vec![
        Value::Exists(5u64),
        Value::Na,
        Value::Exists(12),
        Value::Exists(7),
    ]);
    let perm = field_data.filter_perm(|v: Value<&u64>| match v {
        Value::Exists(x) => *x > 6,
        Value::Na => false,
    });
    assert_eq!(perm, vec![2, 3]);
}

#[test]
fn permutation_update_composes() {
    let mut perm: Permutation<Vec<usize>> = Permutation::default();
    assert!(!perm.is_permuted());
    assert_eq!(perm.len(), None);
    assert_eq!(perm.map_index(4), 4);
    perm.update(&[3, 1, 2]);
    assert!(perm.is_permuted());
    assert_eq!(perm.len(), Some(3));
    assert_eq!(perm.map_index(0), 3);
    perm.update(&[2, 0]);
    assert_eq!(perm.len(), Some(2));
    assert_eq!(perm.map_index(0), 2);
    assert_eq!(perm.map_index(1), 3);
}
