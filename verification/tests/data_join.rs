use std::cmp::Ordering;

use indexmap::IndexMap;

use agnes::access::{DataIndex, SortOrder, SortOrderComparator};
use agnes::error::AgnesError;
use agnes::join::{sort_merge_join, Join, JoinKind};
use agnes::field::FieldData;
use agnes::store::{DataStore, DsField, FieldType, SrcField, TypedFieldData, TypedFieldIdent, TypedValue};
use agnes::value::Value;
use agnes::view::{DataView, ViewField};

/// A floating-point number ordered by `total_cmp`, for the store's float columns.
#[derive(Debug, Clone, Copy, PartialEq)]
struct Real(f64);

impl Eq for Real {}

impl PartialOrd for Real {
    fn partial_cmp(&self, other: &Self) -> Option<Ordering> {
        Some(self.cmp(other))
    }
}

impl Ord for Real {
    fn cmp(&self, other: &Self) -> Ordering {
        self.0.total_cmp(&other.0)
    }
}

/// Orders possibly-missing floating-point values: NA first, then NaN, then ascending.
fn sort_f64_values(left: Value<&f64>, right: Value<&f64>) -> Ordering {
    match (left, right) {
        (Value::Na, Value::Na) => Ordering::Equal,
        (Value::Na, Value::Exists(_)) => Ordering::Less,
        (Value::Exists(_), Value::Na) => Ordering::Greater,
        (Value::Exists(l), Value::Exists(r)) => l.partial_cmp(r).unwrap_or_else(|| {
            if l.is_nan() && !r.is_nan() {
                Ordering::Less
            } else {
                Ordering::Greater
            }
        }),
    }
}

fn src_field(name: &str, ty: FieldType) -> SrcField {
    SrcField { ty_ident: TypedFieldIdent { ident: name.to_string(), ty }, src_index: 0 }
}

fn store(unsigned: Vec<(&str, Vec<u64>)>, text: Vec<(&str, Vec<&str>)>) -> DataStore<Real> {
    let mut ds = DataStore::empty();
    for (name, values) in unsigned {
        for v in values {
            ds.insert_value(src_field(name, FieldType::Unsigned), TypedValue::Unsigned(Value::Exists(v)));
        }
    }
    for (name, values) in text {
        for v in values {
            ds.insert_value(
                src_field(name, FieldType::Text),
                TypedValue::Text(Value::Exists(v.to_string())),
            );
        }
    }
    ds
}

fn view(ds: DataStore<Real>, id: u64) -> DataView<Real> {
    let fields: IndexMap<String, ViewField> = ds
        .fieldnames()
        .into_iter()
        .map(|name| (name.clone(), ViewField { rident: name, store_idx: 0 }))
        .collect();
    DataView { stores: vec![ds], store_ids: vec![id], fields }
}

fn emp_table() -> DataStore<Real> {
    store(
        vec![("EmpId", vec![0u64, 2, 5, 6, 8, 9, 10]), ("DeptId", vec![1u64, 2, 1, 1, 3, 4, 4])],
        vec![("EmpName", vec!["Sally", "Jamie", "Bob", "Cara", "Louis", "Louise", "Ann"])],
    )
}

fn dept_table() -> DataStore<Real> {
    store(
        vec![("DeptId", vec![1u64, 2, 3, 4])],
        vec![("DeptName", vec!["Marketing", "Sales", "Manufacturing", "R&D"])],
    )
}

fn abbreviated_dept_table() -> DataStore<Real> {
    store(vec![("DeptId", vec![1u64, 2])], vec![("DeptName", vec!["Marketing", "Sales"])])
}

fn sorted_unsigned(ds: &DataStore<Real>, name: &str) -> Vec<u64> {
    match ds.get_field_data(&name.to_string()) {
        Some(TypedFieldData::Unsigned(d)) => {
            let mut v = d.to_vec();
            v.sort();
            v
        }
        _ => panic!("no unsigned field {}", name),
    }
}

fn sorted_text(ds: &DataStore<Real>, name: &str) -> Vec<String> {
    match ds.get_field_data(&name.to_string()) {
        Some(TypedFieldData::Text(d)) => {
            let mut v = d.to_vec();
            v.sort();
            v
        }
        _ => panic!("no text field {}", name),
    }
}

fn strings(v: Vec<&str>) -> Vec<String> {
    let mut v: Vec<String> = v.iter().map(|s| s.to_string()).collect();
    v.sort();
    v
}

#[test]
fn inner_equi_join() {
    let (dv1, dv2) = (view(emp_table(), 1), view(dept_table(), 2));
    let joined = sort_merge_join(&dv1, &dv2, &Join::equal(JoinKind::Inner, "DeptId", "DeptId"))
        .expect("join failure");
    assert_eq!(joined.nrows(), 7);
    assert_eq!(joined.fields.len(), 4);
    assert_eq!(sorted_unsigned(&joined, "EmpId"), vec![0, 2, 5, 6, 8, 9, 10]);
    assert_eq!(sorted_unsigned(&joined, "DeptId"), vec![1, 1, 1, 2, 3, 4, 4]);
    assert_eq!(
        sorted_text(&joined, "EmpName"),
        strings(vec!["Sally", "Jamie", "Bob", "Louis", "Louise", "Cara", "Ann"])
    );
    assert_eq!(
        sorted_text(&joined, "DeptName"),
        strings(vec!["Marketing", "Sales", "Marketing", "Marketing", "Manufacturing", "R&D", "R&D"])
    );
}

#[test]
fn inner_nonequi_join() {
    let (dv1, dv2) = (view(emp_table(), 1), view(abbreviated_dept_table(), 2));
    let joined =
        sort_merge_join(&dv1, &dv2, &Join::greater_than(JoinKind::Inner, "DeptId", "DeptId"))
            .expect("join failure");
    assert_eq!(joined.nrows(), 7);
    assert_eq!(joined.fields.len(), 4);
}

#[test]
fn joined_rows_pair_left_and_right_values() {
    let (dv1, dv2) = (view(emp_table(), 1), view(dept_table(), 2));
    let joined = sort_merge_join(&dv1, &dv2, &Join::equal(JoinKind::Inner, "DeptId", "DeptId"))
        .expect("join failure");
    assert_eq!(joined.fieldnames(), vec!["EmpId", "DeptId", "EmpName", "DeptName"]);
    let emp = match joined.get_field_data(&"EmpName".to_string()) {
        Some(TypedFieldData::Text(d)) => d.to_vec(),
        _ => panic!("no EmpName"),
    };
    let dept = match joined.get_field_data(&"DeptName".to_string()) {
        Some(TypedFieldData::Text(d)) => d.to_vec(),
        _ => panic!("no DeptName"),
    };
    let mut rows: Vec<(String, String)> = emp.into_iter().zip(dept.into_iter()).collect();
    rows.sort();
    assert_eq!(rows[0], ("Ann".to_string(), "R&D".to_string()));
    assert_eq!(rows[1], ("Bob".to_string(), "Marketing".to_string()));
    assert_eq!(rows[5], ("Louise".to_string(), "R&D".to_string()));
    assert!(joined.is_homogeneous());
}

#[test]
fn join_errors_and_empty_keys() {
    let (dv1, dv2) = (view(emp_table(), 1), view(dept_table(), 2));
    let missing = sort_merge_join(&dv1, &dv2, &Join::equal(JoinKind::Inner, "Nope", "DeptId"));
    assert!(matches!(missing, Err(AgnesError::FieldNotFound(ref n)) if n == "Nope"));
    let missing = sort_merge_join(&dv1, &dv2, &Join::equal(JoinKind::Inner, "DeptId", "Nope"));
    assert!(matches!(missing, Err(AgnesError::FieldNotFound(ref n)) if n == "Nope"));
    let mismatch = sort_merge_join(&dv1, &dv2, &Join::equal(JoinKind::Inner, "EmpName", "DeptId"));
    assert!(matches!(mismatch, Err(AgnesError::TypeMismatch(_))));
    let collision = sort_merge_join(&dv1, &dv1, &Join::equal(JoinKind::Inner, "EmpId", "EmpId"));
    assert!(matches!(collision, Err(AgnesError::FieldCollision(_))));
    let mut empty_store: DataStore<Real> = DataStore::empty();
    empty_store.fields.push(DsField {
        ty_ident: TypedFieldIdent { ident: "DeptId".to_string(), ty: FieldType::Unsigned },
        ds_index: 0,
    });
    empty_store.field_map.push(("DeptId".to_string(), 0));
    empty_store.unsigned.push(("DeptId".to_string(), FieldData::new()));
    let joined = sort_merge_join(
        &dv1,
        &view(empty_store, 3),
        &Join::equal(JoinKind::Inner, "DeptId", "DeptId"),
    )
    .expect("join failure");
    assert_eq!(joined.fields.len(), 0);
    assert_eq!(joined.nrows(), 0);
}

#[test]
fn store_insert_and_lookup() {
    let mut ds: DataStore<Real> = DataStore::empty();
    ds.insert_value(src_field("a", FieldType::Unsigned), TypedValue::Unsigned(Value::Exists(3)));
    ds.insert_value(src_field("b", FieldType::Float), TypedValue::Float(Value::Exists(Real(1.5))));
    ds.insert_value(src_field("a", FieldType::Unsigned), TypedValue::Unsigned(Value::Na));
    assert_eq!(ds.fieldnames(), vec!["a", "b"]);
    assert_eq!(ds.fields.len(), 2);
    assert_eq!(ds.field_map, vec![("a".to_string(), 0), ("b".to_string(), 1)]);
    assert_eq!(ds.get_field_info(&"b".to_string()).map(|f| f.ds_index), Some(1));
    match ds.get_field_data(&"a".to_string()) {
        Some(TypedFieldData::Unsigned(d)) => {
            assert_eq!(d.to_value_vec(), vec![Value::Exists(3), Value::Na])
        }
        _ => panic!("no unsigned field a"),
    }
    assert!(ds.get_field_data(&"c".to_string()).is_none());
    assert!(ds.get_float_field(&"a".to_string()).is_none());
    assert_eq!(ds.nrows(), 2);
    assert!(!ds.is_homogeneous());
    ds.insert_value(src_field("b", FieldType::Float), TypedValue::Float(Value::Na));
    assert!(ds.is_homogeneous());
}

#[test]
fn join_sort_order_no_na() {
    let field_data: FieldData<u64> = FieldData::from_vec(vec![2u64, 5, 3, 1, 8]);
    assert_eq!(field_data.sort_order(), vec![3, 0, 2, 1, 4]);

    let field_data: FieldData<f64> = FieldData::from_vec(vec![2.0, 5.4, 3.1, 1.1, 8.2]);
    assert_eq!(field_data.sort_order_by(sort_f64_values), vec![3, 0, 2, 1, 4]);

    let field_data: FieldData<f64> = FieldData::from_vec(vec![2.0, f64::NAN, 3.1, 1.1, 8.2]);
    assert_eq!(field_data.sort_order_by(sort_f64_values), vec![1, 3, 0, 2, 4]);

    let field_data: FieldData<f64> =
        FieldData::from_vec(vec![2.0, f64::NAN, 3.1, f64::INFINITY, 8.2]);
    assert_eq!(field_data.sort_order_by(sort_f64_values), vec![1, 0, 2, 4, 3]);
}

#[test]
fn join_sort_order_na() {
    let field_data = FieldData::from_field_vec(vec![
        Value::Exists(2u64),
        Value::Exists(5),
        Value::Na,
        Value::Exists(1),
        Value::Exists(8),
    ]);
    assert_eq!(field_data.sort_order(), vec![2, 3, 0, 1, 4]);

    let field_data = FieldData::from_field_vec(vec![
        Value::Exists(2.1),
        Value::Exists(5.5),
        Value::Na,
        Value::Exists(1.1),
        Value::Exists(8.2930),
    ]);
    assert_eq!(field_data.sort_order_by(sort_f64_values), vec![2, 3, 0, 1, 4]);

    let field_data = FieldData::from_field_vec(vec![
        Value::Exists(2.1),
        Value::Exists(f64::NAN),
        Value::Na,
        Value::Exists(1.1),
        Value::Exists(8.2930),
    ]);
    assert_eq!(field_data.sort_order_by(sort_f64_values), vec![2, 1, 3, 0, 4]);

    let field_data = FieldData::from_field_vec(vec![
        Value::Exists(2.1),
        Value::Exists(f64::NAN),
        Value::Na,
        Value::Exists(f64::INFINITY),
        Value::Exists(8.2930),
    ]);
    assert_eq!(field_data.sort_order_by(sort_f64_values), vec![2, 1, 0, 4, 3]);
}

#[test]
fn left_outer_join_keeps_unmatched_left_rows() {
    let (dv1, dv2) = (view(emp_table(), 1), view(abbreviated_dept_table(), 2));
    let joined = sort_merge_join(&dv1, &dv2, &Join::equal(JoinKind::Outer, "DeptId", "DeptId"))
        .expect("join failure");
    assert_eq!(joined.nrows(), 7);
    assert_eq!(joined.fieldnames(), vec!["EmpId", "DeptId", "EmpName", "DeptName"]);
    let emp = match joined.get_field_data(&"EmpName".to_string()) {
        Some(TypedFieldData::Text(d)) => d.to_value_vec(),
        _ => panic!("no EmpName"),
    };
    let dept = match joined.get_field_data(&"DeptName".to_string()) {
        Some(TypedFieldData::Text(d)) => d.to_value_vec(),
        _ => panic!("no DeptName"),
    };
    // the matched rows come first, then the unmatched left rows in order
    assert_eq!(&emp[4..], &[
        Value::Exists("Louis".to_string()),
        Value::Exists("Louise".to_string()),
        Value::Exists("Ann".to_string()),
    ]);
    assert_eq!(&dept[4..], &[Value::Na, Value::Na, Value::Na]);
    let mut matched: Vec<(Value<String>, Value<String>)> =
        emp[..4].iter().cloned().zip(dept[..4].iter().cloned()).collect();
    matched.sort_by(|a, b| format!("{:?}", a).cmp(&format!("{:?}", b)));
    assert_eq!(matched, vec![
        (Value::Exists("Bob".to_string()), Value::Exists("Marketing".to_string())),
        (Value::Exists("Cara".to_string()), Value::Exists("Marketing".to_string())),
        (Value::Exists("Jamie".to_string()), Value::Exists("Sales".to_string())),
        (Value::Exists("Sally".to_string()), Value::Exists("Marketing".to_string())),
    ]);
}

#[test]
fn cross_join_pairs_every_row() {
    let (dv1, dv2) = (view(emp_table(), 1), view(dept_table(), 2));
    let joined = sort_merge_join(&dv1, &dv2, &Join::equal(JoinKind::Cross, "DeptId", "DeptId"))
        .expect("join failure");
    assert_eq!(joined.nrows(), 28);
    assert_eq!(joined.fields.len(), 4);
    let emp = match joined.get_field_data(&"EmpId".to_string()) {
        Some(TypedFieldData::Unsigned(d)) => d.to_vec(),
        _ => panic!("no EmpId"),
    };
    let dept = match joined.get_field_data(&"DeptName".to_string()) {
        Some(TypedFieldData::Text(d)) => d.to_vec(),
        _ => panic!("no DeptName"),
    };
    assert_eq!(&emp[..5], &[0, 0, 0, 0, 2]);
    assert_eq!(&dept[..5], &["Marketing", "Sales", "Manufacturing", "R&D", "Marketing"]);
}

#[test]
fn left_outer_join_with_empty_right_key_keeps_left_rows() {
    let mut empty_store: DataStore<Real> = DataStore::empty();
    empty_store.fields.push(DsField {
        ty_ident: TypedFieldIdent { ident: "DeptId".to_string(), ty: FieldType::Unsigned },
        ds_index: 0,
    });
    empty_store.field_map.push(("DeptId".to_string(), 0));
    empty_store.unsigned.push(("DeptId".to_string(), FieldData::new()));
    let joined = sort_merge_join(
        &view(emp_table(), 1),
        &view(empty_store, 3),
        &Join::equal(JoinKind::Outer, "DeptId", "DeptId"),
    )
    .expect("join failure");
    assert_eq!(joined.nrows(), 7);
    assert_eq!(joined.fieldnames(), vec!["EmpId", "DeptId", "EmpName"]);
    assert_eq!(sorted_unsigned(&joined, "EmpId"), vec![0, 2, 5, 6, 8, 9, 10]);
}

#[test]
fn text_and_boolean_key_joins() {
    let left = view(store(vec![], vec![("K", vec!["b", "a", "c"])]), 1);
    let right = view(store(vec![], vec![("R", vec!["a", "b"])]), 2);
    let lt = sort_merge_join(&left, &right, &Join::less_than(JoinKind::Inner, "K", "R")).unwrap();
    assert_eq!(lt.nrows(), 1);
    assert_eq!(sorted_text(&lt, "K"), vec!["a"]);
    assert_eq!(sorted_text(&lt, "R"), vec!["b"]);
    let gt = sort_merge_join(&left, &right, &Join::greater_than(JoinKind::Inner, "K", "R")).unwrap();
    assert_eq!(gt.nrows(), 3);
    assert_eq!(sorted_text(&gt, "K"), vec!["b", "c", "c"]);

    let mut flags: DataStore<Real> = DataStore::empty();
    for b in [true, false, true] {
        flags.insert_value(src_field("Flag", FieldType::Boolean), TypedValue::Boolean(Value::Exists(b)));
    }
    let mut other: DataStore<Real> = DataStore::empty();
    other.insert_value(src_field("Other", FieldType::Boolean), TypedValue::Boolean(Value::Exists(false)));
    let (fv, ov) = (view(flags, 3), view(other, 4));
    let eq = sort_merge_join(&fv, &ov, &Join::equal(JoinKind::Inner, "Flag", "Other")).unwrap();
    assert_eq!(eq.nrows(), 1);
    let gt = sort_merge_join(&fv, &ov, &Join::greater_than(JoinKind::Inner, "Flag", "Other")).unwrap();
    assert_eq!(gt.nrows(), 2);
}
