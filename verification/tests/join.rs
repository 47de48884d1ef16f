use agnes::field::FieldData;
use agnes::join::{sort_merge_join_indices, Join, JoinKind, PredResults, Predicate};
use agnes::value::Value;

fn emp_dept_ids() -> FieldData<u64> {
    FieldData::from_vec(vec![1u64, 2, 1, 1, 3, 4, 4])
}

fn sorted(mut pairs: Vec<(usize, usize)>) -> Vec<(usize, usize)> {
    pairs.sort();
    pairs
}

#[test]
fn equi_join_emp_dept_keys() {
    let emp = emp_dept_ids();
    let dept = FieldData::from_vec(vec![1u64, 2, 3, 4]);
    let pairs = sort_merge_join_indices(&emp, &dept, Predicate::Equal);
    assert_eq!(pairs.len(), 7);
    assert_eq!(
        sorted(pairs),
        vec![(0, 0), (1, 1), (2, 0), (3, 0), (4, 2), (5, 3), (6, 3)]
    );
}

#[test]
fn greater_than_join_emp_abbreviated_dept_keys() {
    let emp = emp_dept_ids();
    let dept = FieldData::from_vec(vec![1u64, 2]);
    let pairs = sort_merge_join_indices(&emp, &dept, Predicate::GreaterThan);
    assert_eq!(pairs.len(), 7);
    assert_eq!(
        sorted(pairs),
        vec![(1, 0), (4, 0), (4, 1), (5, 0), (5, 1), (6, 0), (6, 1)]
    );
}

#[test]
fn inequality_joins_match_every_satisfying_pair() {
    let left = FieldData::from_field_vec(vec![Value::Exists(3i64), Value::Na, Value::Exists(1)]);
    let right = FieldData::from_field_vec(vec![Value::Exists(1i64), Value::Exists(3), Value::Na]);
    let check = |p: Predicate, holds: &dyn Fn(Value<i64>, Value<i64>) -> bool| {
        let pairs = sorted(sort_merge_join_indices(&left, &right, p));
        let mut expected = vec![];
        let l = [Value::Exists(3i64), Value::Na, Value::Exists(1)];
        let r = [Value::Exists(1i64), Value::Exists(3), Value::Na];
        for i in 0..3 {
            for j in 0..3 {
                if holds(l[i], r[j]) {
                    expected.push((i, j));
                }
            }
        }
        assert_eq!(pairs, expected);
    };
    // missing values order before existing ones and equal each other
    let key = |v: Value<i64>| match v {
        Value::Na => (0, 0),
        Value::Exists(x) => (1, x),
    };
    check(Predicate::Equal, &|a, b| key(a) == key(b));
    check(Predicate::LessThan, &|a, b| key(a) < key(b));
    check(Predicate::LessThanEqual, &|a, b| key(a) <= key(b));
    check(Predicate::GreaterThan, &|a, b| key(a) > key(b));
    check(Predicate::GreaterThanEqual, &|a, b| key(a) >= key(b));
}

#[test]
fn join_with_empty_side_is_empty() {
    let left: FieldData<u64> = FieldData::new();
    let right = FieldData::from_vec(vec![1u64]);
    assert!(sort_merge_join_indices(&left, &right, Predicate::Equal).is_empty());
    assert!(sort_merge_join_indices(&right, &left, Predicate::LessThan).is_empty());
}

#[test]
fn join_constructors_set_predicate() {
    let j = Join::equal(JoinKind::Inner, "DeptId", "DeptId");
    assert_eq!(j.predicate, Predicate::Equal);
    assert!(matches!(j.kind, JoinKind::Inner));
    assert_eq!(Join::less_than(JoinKind::Inner, "a", "b").predicate, Predicate::LessThan);
    assert_eq!(
        Join::less_than_equal(JoinKind::Outer, "a", "b").predicate,
        Predicate::LessThanEqual
    );
    assert_eq!(Join::greater_than(JoinKind::Cross, "a", "b").predicate, Predicate::GreaterThan);
    assert_eq!(
        Join::greater_than_equal(JoinKind::Inner, "a", "b").predicate,
        Predicate::GreaterThanEqual
    );
    let j = Join::new(JoinKind::Outer, Predicate::LessThan, String::from("x"), "y");
    assert_eq!(j.predicate, Predicate::LessThan);
    assert!(matches!(j.kind, JoinKind::Outer));
}

#[test]
fn predicate_apply_outcomes() {
    let one = Value::Exists(&1u64);
    let two = Value::Exists(&2u64);
    assert_eq!(Predicate::Equal.apply(one, one), PredResults::Add);
    assert_eq!(
        Predicate::Equal.apply(one, two),
        PredResults::Advance { left: true, right: false }
    );
    assert_eq!(
        Predicate::Equal.apply(two, one),
        PredResults::Advance { left: false, right: true }
    );
    assert_eq!(Predicate::LessThan.apply(one, two), PredResults::Add);
    assert_eq!(
        Predicate::LessThan.apply(one, one),
        PredResults::Advance { left: false, right: true }
    );
    assert_eq!(Predicate::LessThanEqual.apply(one, one), PredResults::Add);
    assert_eq!(Predicate::GreaterThan.apply(two, one), PredResults::Add);
    assert_eq!(
        Predicate::GreaterThan.apply(one, one),
        PredResults::Advance { left: true, right: false }
    );
    assert_eq!(Predicate::GreaterThanEqual.apply(one, one), PredResults::Add);
    assert_eq!(Predicate::Equal.apply(Value::Na, Value::<&u64>::Na), PredResults::Add);
    assert_eq!(Predicate::LessThan.apply(Value::Na, one), PredResults::Add);
    assert!(Predicate::Equal.is_equality());
    assert!(Predicate::LessThanEqual.is_equality() && Predicate::LessThanEqual.is_less_than());
    assert!(Predicate::GreaterThanEqual.is_greater_than() && !Predicate::GreaterThan.is_equality());
    assert!(!Predicate::LessThan.is_greater_than());
}
