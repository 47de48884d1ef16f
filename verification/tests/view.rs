use indexmap::IndexMap;

use agnes::error::AgnesError;
use agnes::join::{Join, JoinKind};
use agnes::view::{compute_merged_field_list, compute_merged_stores, ViewField};

fn field(name: &str, store_idx: usize) -> (String, ViewField) {
    (name.to_string(), ViewField { rident: name.to_string(), store_idx })
}

fn map(fields: Vec<(String, ViewField)>) -> IndexMap<String, ViewField> {
    fields.into_iter().collect()
}

fn names(fields: &IndexMap<String, ViewField>) -> Vec<String> {
    fields.keys().cloned().collect()
}

fn store_indices(fields: &IndexMap<String, ViewField>) -> Vec<usize> {
    fields.values().map(|f| f.store_idx).collect()
}

#[test]
fn merged_stores_keep_left_then_new_right() {
    let (stores, mapping) = compute_merged_stores(&vec![10, 20], &vec![30, 10, 40, 30]);
    assert_eq!(stores, vec![10, 20, 30, 40]);
    assert_eq!(mapping, vec![2, 0, 3, 2]);
    let (stores, mapping) = compute_merged_stores(&vec![], &vec![5]);
    assert_eq!(stores, vec![5]);
    assert_eq!(mapping, vec![0]);
}

#[test]
fn merged_field_list_appends_new_right_fields() {
    let left = map(vec![field("a", 0), field("b", 1)]);
    let right = map(vec![field("c", 0), field("d", 1)]);
    let (fields, skip) = compute_merged_field_list(&left, &right, &vec![2, 3], None).unwrap();
    assert_eq!(names(&fields), vec!["a", "b", "c", "d"]);
    assert_eq!(store_indices(&fields), vec![0, 1, 2, 3]);
    assert_eq!(skip, None);
}

#[test]
fn merged_field_list_skips_shared_join_field() {
    let left = map(vec![field("id", 0), field("x", 0)]);
    let right = map(vec![field("id", 0), field("y", 0)]);
    let join = Join::equal(JoinKind::Inner, "id", "id");
    let (fields, skip) = compute_merged_field_list(&left, &right, &vec![1], Some(&join)).unwrap();
    assert_eq!(names(&fields), vec!["id", "x", "y"]);
    assert_eq!(store_indices(&fields), vec![0, 0, 1]);
    assert_eq!(skip, Some("id".to_string()));
}

#[test]
fn merged_field_list_reports_collisions() {
    let left = map(vec![field("id", 0), field("x", 0)]);
    let right = map(vec![field("id", 0), field("x", 0)]);
    let join = Join::equal(JoinKind::Inner, "id", "id");
    match compute_merged_field_list(&left, &right, &vec![1], Some(&join)) {
        Err(AgnesError::FieldCollision(coll)) => assert_eq!(coll, vec!["id", "x"]),
        other => panic!("expected a collision, got {:?}", other),
    }
    let other_join = Join::equal(JoinKind::Inner, "x", "id");
    match compute_merged_field_list(&left, &map(vec![field("id", 0)]), &vec![1], Some(&other_join)) {
        Err(AgnesError::FieldCollision(coll)) => assert_eq!(coll, vec!["id"]),
        other => panic!("expected a collision, got {:?}", other),
    }
}
