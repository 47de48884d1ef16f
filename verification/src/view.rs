//! Combining the stores and the field lists of two data views, as a join of the views does.
use indexmap::IndexMap;
use vstd::prelude::*;

use crate::access::{DataIndex, DataIndexMut};
use crate::error::AgnesError;
use crate::fieldmap::{field_entries, fields_get_index, fields_insert, fields_len, fields_new};
use crate::field::FieldData;
use crate::join::Join;
use crate::store::{
    column_len, typed_data_values, ColumnValues, DataStore, OwnedColumn, TypedFieldData,
};
use crate::value::Value;

verus! {

/// A field of a data view: the name of the field within its store, and the index of that store
/// among the view's stores.
#[derive(Debug, Clone)]
pub struct ViewField {
    /// Name of the field within its store.
    pub rident: String,
    /// Index of the store holding the field.
    pub store_idx: usize,
}

/// The stores of a combined view: those of `acc`, followed by each store of `right` that is not
/// already among them, once, in `right`'s order.
pub open spec fn merged_stores(acc: Seq<u64>, right: Seq<u64>) -> Seq<u64>
    decreases right.len(),
{
    if right.len() == 0 {
        acc
    } else {
        let prev = merged_stores(acc, right.drop_last());
        if prev.contains(right.last()) {
            prev
        } else {
            prev.push(right.last())
        }
    }
}

/// Whether `idx` is the first position of `id` in `stores`.
pub open spec fn first_position(stores: Seq<u64>, id: u64, idx: int) -> bool {
    &&& 0 <= idx < stores.len()
    &&& stores[idx] == id
    &&& forall|p: int| 0 <= p < idx ==> stores[p] != id
}

proof fn lemma_merged_stores_prefix(acc: Seq<u64>, right: Seq<u64>)
    ensures
        merged_stores(acc, right).len() >= acc.len(),
        merged_stores(acc, right).subrange(0, acc.len() as int) == acc,
        forall|k: int| 0 <= k < right.len() ==> merged_stores(acc, right).contains(#[trigger] right[k]),
    decreases right.len(),
{
    if right.len() > 0 {
        lemma_merged_stores_prefix(acc, right.drop_last());
        let prev = merged_stores(acc, right.drop_last());
        assert forall|k: int| 0 <= k < right.len() implies merged_stores(acc, right).contains(
            #[trigger] right[k],
        ) by {
            if k < right.len() - 1 {
                assert(right.drop_last()[k] == right[k]);
                assert(prev.contains(right[k]));
                let p = choose|p: int| 0 <= p < prev.len() && prev[p] == right[k];
                if !prev.contains(right.last()) {
                    assert(prev.push(right.last())[p] == right[k]);
                }
            } else if !prev.contains(right.last()) {
                assert(prev.push(right.last())[prev.len() as int] == right[k]);
            }
        }
        assert(merged_stores(acc, right).subrange(0, acc.len() as int) =~= acc);
    } else {
        assert(acc.subrange(0, acc.len() as int) =~= acc);
    }
}

/// Combines the stores of two views, each store given by an identity: the left stores come first,
/// then every right store not already among them, once, in the right view's order. Also returns,
/// for each right store, its (first) position among the combined stores.
pub fn compute_merged_stores(left: &Vec<u64>, right: &Vec<u64>) -> (r: (Vec<u64>, Vec<usize>))
    ensures
        r.0@ == merged_stores(left@, right@),
        r.1@.len() == right@.len(),
        forall|k: int| 0 <= k < right@.len() ==> first_position(r.0@, right@[k], #[trigger] r.1@[k] as int),
{
    let mut new_stores: Vec<u64> = Vec::new();
    let mut i: usize = 0;
    while i < left.len()
        invariant
            i <= left@.len(),
            new_stores@ == left@.take(i as int),
        decreases left@.len() - i,
    {
        new_stores.push(left[i]);
        i = i + 1;
        assert(new_stores@ =~= left@.take(i as int));
    }
    assert(left@.take(left@.len() as int) =~= left@);
    let mut right_store_indices: Vec<usize> = Vec::new();
    let mut k: usize = 0;
    while k < right.len()
        invariant
            k <= right@.len(),
            new_stores@ == merged_stores(left@, right@.take(k as int)),
            right_store_indices@.len() == k,
            forall|m: int|
                0 <= m < k ==> first_position(new_stores@, right@[m], #[trigger] right_store_indices@[m] as int),
        decreases right@.len() - k,
    {
        let id = right[k];
        assert(right@.take(k + 1).drop_last() =~= right@.take(k as int));
        assert(right@.take(k + 1).last() == id);
        let mut p: usize = 0;
        let mut found = false;
        while p < new_stores.len()
            invariant_except_break
                !found,
            invariant
                p <= new_stores@.len(),
                forall|q: int| 0 <= q < p ==> new_stores@[q] != id,
            ensures
                p <= new_stores@.len(),
                forall|q: int| 0 <= q < p ==> new_stores@[q] != id,
                found ==> p < new_stores@.len() && new_stores@[p as int] == id,
                !found ==> p == new_stores@.len(),
            decreases new_stores@.len() - p,
        {
            if new_stores[p] == id {
                found = true;
                break;
            }
            p = p + 1;
        }
        let ghost before = new_stores@;
        if found {
            assert(before[p as int] == id);
            assert(before.contains(id));
            right_store_indices.push(p);
        } else {
            assert(!before.contains(id)) by {
                if before.contains(id) {
                    let q = choose|q: int| 0 <= q < before.len() && before[q] == id;
                    assert(new_stores@[q] != id);
                }
            }
            right_store_indices.push(new_stores.len());
            new_stores.push(id);
        }
        proof {
            assert forall|m: int| 0 <= m < k + 1 implies first_position(
                new_stores@,
                right@[m],
                #[trigger] right_store_indices@[m] as int,
            ) by {
                if m < k {
                    let idx = right_store_indices@[m] as int;
                    assert(first_position(before, right@[m], idx));
                    assert(new_stores@[idx] == before[idx]);
                    assert forall|q: int| 0 <= q < idx implies new_stores@[q] != right@[m] by {
                        assert(new_stores@[q] == before[q]);
                    }
                }
            }
        }
        k = k + 1;
    }
    assert(right@.take(right@.len() as int) =~= right@);
    (new_stores, right_store_indices)
}

/// Whether some field of `fields` is named `name`.
pub open spec fn has_name(fields: Seq<(String, ViewField)>, name: Seq<char>) -> bool {
    exists|i: int| 0 <= i < fields.len() && (#[trigger] fields[i]).0@ == name
}

/// The fields of `right` whose names are not among `left`'s, in order, with their store indices
/// mapped through `mapping`.
pub open spec fn added_fields(
    left: Seq<(String, ViewField)>,
    right: Seq<(String, ViewField)>,
    mapping: Seq<usize>,
) -> Seq<(String, ViewField)>
    decreases right.len(),
{
    if right.len() == 0 {
        Seq::empty()
    } else {
        let prev = added_fields(left, right.drop_last(), mapping);
        let (name, field) = right.last();
        if has_name(left, name@) {
            prev
        } else {
            prev.push(
                (name, ViewField { rident: field.rident, store_idx: mapping[field.store_idx as int] }),
            )
        }
    }
}

/// The names of the fields of `right` that are also among `left`'s, in order.
pub open spec fn collisions(left: Seq<(String, ViewField)>, right: Seq<(String, ViewField)>) -> Seq<
    String,
>
    decreases right.len(),
{
    if right.len() == 0 {
        Seq::empty()
    } else {
        let prev = collisions(left, right.drop_last());
        if has_name(left, right.last().0@) {
            prev.push(right.last().0)
        } else {
            prev
        }
    }
}

/// Whether the only collision is the join field, named alike on both sides.
pub open spec fn only_join_field_collides(coll: Seq<String>, join: Option<&Join>) -> bool {
    match join {
        Some(j) => coll.len() == 1 && j.left_field@ == j.right_field@ && coll[0]@ == j.left_field@,
        None => false,
    }
}

/// Whether the names of `fields` are pairwise distinct.
pub open spec fn distinct_names(fields: Seq<(String, ViewField)>) -> bool {
    forall|i: int, j: int|
        0 <= i < fields.len() && 0 <= j < fields.len() && i != j ==> (#[trigger] fields[i]).0@ != (
        #[trigger] fields[j]).0@
}

/// Whether one of the first `k` fields of `fields` is named `name`.
pub open spec fn exists_source(name: Seq<char>, fields: Seq<(String, ViewField)>, k: int) -> bool {
    exists|m: int| 0 <= m < k && name == (#[trigger] fields[m]).0@
}

/// Returns whether some field of `fields` is named `name`.
fn contains_name(fields: &IndexMap<String, ViewField>, name: &String) -> (r: bool)
    ensures
        r == has_name(field_entries(*fields), name@),
{
    let ghost f = field_entries(*fields);
    let n = fields_len(fields);
    let mut i: usize = 0;
    while i < n
        invariant
            f == field_entries(*fields),
            n == f.len(),
            i <= n,
            forall|k: int| 0 <= k < i ==> (#[trigger] f[k]).0@ != name@,
        decreases n - i,
    {
        let (key, _) = fields_get_index(fields, i).unwrap();
        if *key == *name {
            assert(f[i as int].0@ == name@);
            return true;
        }
        i = i + 1;
    }
    false
}

/// Combines the field lists of two views: `left`'s fields in order, then the fields of `right`
/// whose names are new, with their store indices mapped through `right_store_mapping`. Right
/// fields whose names are already in `left` collide: that is an error, unless a join is given,
/// the only collision is its join field, and both sides join on a field of that name; then the
/// right join field is left out and its name is returned.
pub fn compute_merged_field_list(
    left: &IndexMap<String, ViewField>,
    right: &IndexMap<String, ViewField>,
    right_store_mapping: &Vec<usize>,
    join: Option<&Join>,
) -> (r: Result<(IndexMap<String, ViewField>, Option<String>), AgnesError>)
    requires
        distinct_names(field_entries(*left)),
        distinct_names(field_entries(*right)),
        forall|k: int|
            0 <= k < field_entries(*right).len() ==> (#[trigger] field_entries(*right)[k]).1.store_idx
                < right_store_mapping@.len(),
    ensures
        ({
            let lf = field_entries(*left);
            let rf = field_entries(*right);
            let added = added_fields(lf, rf, right_store_mapping@);
            let coll = collisions(lf, rf);
            &&& only_join_field_collides(coll, join) ==> (r matches Ok(p) && field_entries(p.0) == lf
                + added && p.1 == Some(join.unwrap().right_field))
            &&& !only_join_field_collides(coll, join) && coll.len() == 0 ==> (r matches Ok(p)
                && field_entries(p.0) == lf + added && p.1 is None)
            &&& !only_join_field_collides(coll, join) && coll.len() != 0 ==> (r matches Err(
                AgnesError::FieldCollision(v),
            ) && v@ == coll)
        }),
{
    let ghost lf = field_entries(*left);
    let ghost rf = field_entries(*right);
    let mut new_fields = fields_new();
    let nl = fields_len(left);
    let mut i: usize = 0;
    while i < nl
        invariant
            lf == field_entries(*left),
            nl == lf.len(),
            distinct_names(lf),
            i <= nl,
            field_entries(new_fields) == lf.take(i as int),
        decreases nl - i,
    {
        let (name, field) = fields_get_index(left, i).unwrap();
        proof {
            assert forall|e: int| 0 <= e < field_entries(new_fields).len() implies (
            #[trigger] field_entries(new_fields)[e]).0@ != name@ by {
                assert(field_entries(new_fields)[e] == lf[e]);
                assert(lf[e].0@ != lf[i as int].0@);
            }
        }
        fields_insert(
            &mut new_fields,
            name.clone(),
            ViewField { rident: field.rident.clone(), store_idx: field.store_idx },
        );
        i = i + 1;
        assert(field_entries(new_fields) =~= lf.take(i as int));
    }
    assert(lf.take(lf.len() as int) =~= lf);
    let mut field_coll: Vec<String> = Vec::new();
    let nr = fields_len(right);
    let mut k: usize = 0;
    while k < nr
        invariant
            lf == field_entries(*left),
            rf == field_entries(*right),
            nr == rf.len(),
            distinct_names(rf),
            k <= nr,
            forall|m: int| 0 <= m < rf.len() ==> (#[trigger] rf[m]).1.store_idx < right_store_mapping@.len(),
            field_entries(new_fields) == lf + added_fields(lf, rf.take(k as int), right_store_mapping@),
            forall|e: int|
                lf.len() <= e < field_entries(new_fields).len() ==> #[trigger] exists_source(
                    field_entries(new_fields)[e].0@,
                    rf,
                    k as int,
                ),
            field_coll@ == collisions(lf, rf.take(k as int)),
        decreases nr - k,
    {
        assert(rf.take(k + 1).drop_last() =~= rf.take(k as int));
        assert(rf.take(k + 1).last() == rf[k as int]);
        let (name, field) = fields_get_index(right, k).unwrap();
        if contains_name(left, name) {
            field_coll.push(name.clone());
            proof {
                assert forall|e: int|
                    lf.len() <= e < field_entries(new_fields).len() implies #[trigger] exists_source(
                        field_entries(new_fields)[e].0@,
                        rf,
                        k + 1,
                    ) by {
                    assert(exists_source(field_entries(new_fields)[e].0@, rf, k as int));
                    let m = choose|m: int|
                        0 <= m < k && field_entries(new_fields)[e].0@ == (#[trigger] rf[m]).0@;
                    assert(rf[m] == rf[m]);
                }
            }
        } else {
            let ghost before = field_entries(new_fields);
            proof {
                assert forall|e: int| 0 <= e < before.len() implies (#[trigger] before[e]).0@
                    != name@ by {
                    if e < lf.len() {
                        assert(before[e] == lf[e]);
                    } else {
                        assert(exists_source(before[e].0@, rf, k as int));
                        let m = choose|m: int| 0 <= m < k && before[e].0@ == (#[trigger] rf[m]).0@;
                        assert(rf[m].0@ != rf[k as int].0@);
                    }
                }
            }
            fields_insert(
                &mut new_fields,
                name.clone(),
                ViewField { rident: field.rident.clone(), store_idx: right_store_mapping[field.store_idx] },
            );
            proof {
                assert(field_entries(new_fields) =~= lf + added_fields(
                    lf,
                    rf.take(k + 1),
                    right_store_mapping@,
                ));
                assert forall|e: int|
                    lf.len() <= e < field_entries(new_fields).len() implies #[trigger] exists_source(
                        field_entries(new_fields)[e].0@,
                        rf,
                        k + 1,
                    ) by {
                    if e < before.len() {
                        assert(field_entries(new_fields)[e] == before[e]);
                        assert(exists_source(before[e].0@, rf, k as int));
                        let m = choose|m: int| 0 <= m < k && before[e].0@ == (#[trigger] rf[m]).0@;
                        assert(field_entries(new_fields)[e].0@ == rf[m].0@);
                    } else {
                        assert(field_entries(new_fields)[e].0@ == rf[k as int].0@);
                    }
                }
            }
        }
        k = k + 1;
    }
    assert(rf.take(rf.len() as int) =~= rf);
    if let Some(j) = join {
        if field_coll.len() == 1 && j.left_field == j.right_field && field_coll[0] == j.left_field {
            return Ok((new_fields, Some(j.right_field.clone())));
        }
    }
    if field_coll.len() == 0 {
        Ok((new_fields, None))
    } else {
        Err(AgnesError::FieldCollision(field_coll))
    }
}

/// The values of `col` at the positions `idx`, in order, with a missing value where a position
/// is absent.
pub open spec fn pick<T>(col: Seq<Value<T>>, idx: Seq<Option<usize>>) -> Seq<Value<T>> {
    idx.map_values(
        |o: Option<usize>|
            match o {
                Some(i) => col[i as int],
                None => Value::Na,
            },
    )
}

/// The values of a column at the positions `idx`, in order (see `pick`).
pub open spec fn pick_column<F>(c: ColumnValues<F>, idx: Seq<Option<usize>>) -> ColumnValues<F> {
    match c {
        ColumnValues::Unsigned(v) => ColumnValues::Unsigned(pick(v, idx)),
        ColumnValues::Signed(v) => ColumnValues::Signed(pick(v, idx)),
        ColumnValues::Text(v) => ColumnValues::Text(pick(v, idx)),
        ColumnValues::Boolean(v) => ColumnValues::Boolean(pick(v, idx)),
        ColumnValues::Float(v) => ColumnValues::Float(pick(v, idx)),
    }
}

/// Whether every position present in `idx` is below `n`.
pub open spec fn positions_below(idx: Seq<Option<usize>>, n: nat) -> bool {
    forall|k: int| 0 <= k < idx.len() ==> (#[trigger] idx[k] matches Some(i) ==> i < n)
}

/// Returns the values of `col` at the positions `idx`.
fn gather_copy<T: Copy + std::fmt::Debug>(col: &FieldData<T>, idx: &Vec<Option<usize>>) -> (r: FieldData<T>)
    requires
        positions_below(idx@, col.spec_values().len()),
    ensures
        r.spec_values() == pick(col.spec_values(), idx@),
{
    let mut out: FieldData<T> = FieldData::new();
    let mut i: usize = 0;
    while i < idx.len()
        invariant
            i <= idx@.len(),
            positions_below(idx@, col.spec_values().len()),
            out.spec_values() == pick(col.spec_values(), idx@.take(i as int)),
        decreases idx@.len() - i,
    {
        let v: Value<T> = match idx[i] {
            Some(j) => *col.value_at(j),
            None => Value::Na,
        };
        out.push(v);
        proof {
            assert(pick(col.spec_values(), idx@.take(i + 1)) =~= pick(col.spec_values(), idx@.take(i as int)).push(v));
        }
        i = i + 1;
    }
    proof {
        assert(idx@.take(idx@.len() as int) =~= idx@);
    }
    out
}

/// Returns the text values of `col` at the positions `idx`.
fn gather_text(col: &FieldData<String>, idx: &Vec<Option<usize>>) -> (r: FieldData<String>)
    requires
        positions_below(idx@, col.spec_values().len()),
    ensures
        r.spec_values() == pick(col.spec_values(), idx@),
{
    let mut out: FieldData<String> = FieldData::new();
    let mut i: usize = 0;
    while i < idx.len()
        invariant
            i <= idx@.len(),
            positions_below(idx@, col.spec_values().len()),
            out.spec_values() == pick(col.spec_values(), idx@.take(i as int)),
        decreases idx@.len() - i,
    {
        let v: Value<String> = match idx[i] {
            Some(j) => match col.value_at(j) {
                Value::Na => Value::Na,
                Value::Exists(t) => Value::Exists(t.clone()),
            },
            None => Value::Na,
        };
        out.push(v);
        proof {
            assert(pick(col.spec_values(), idx@.take(i + 1)) =~= pick(col.spec_values(), idx@.take(i as int)).push(v));
        }
        i = i + 1;
    }
    proof {
        assert(idx@.take(idx@.len() as int) =~= idx@);
    }
    out
}

/// Returns the values of the column `d` at the positions `idx`, as an owned column.
pub(crate) fn gather<F: Copy + std::fmt::Debug>(d: TypedFieldData<F>, idx: &Vec<Option<usize>>) -> (r: OwnedColumn<F>)
    requires
        positions_below(idx@, column_len(typed_data_values(d))),
    ensures
        crate::store::owned_values(r) == pick_column(typed_data_values(d), idx@),
        column_len(crate::store::owned_values(r)) == idx@.len(),
{
    match d {
        TypedFieldData::Unsigned(c) => OwnedColumn::Unsigned(gather_copy(c, idx)),
        TypedFieldData::Signed(c) => OwnedColumn::Signed(gather_copy(c, idx)),
        TypedFieldData::Text(c) => OwnedColumn::Text(gather_text(c, idx)),
        TypedFieldData::Boolean(c) => OwnedColumn::Boolean(gather_copy(c, idx)),
        TypedFieldData::Float(c) => OwnedColumn::Float(gather_copy(c, idx)),
    }
}

/// A view onto data stores: a list of named fields, each found in one of the stores.
#[derive(Debug)]
pub struct DataView<F> {
    /// The stores the view's data lives in.
    pub stores: Vec<DataStore<F>>,
    /// An identity for each store, shared by views onto the same store.
    pub store_ids: Vec<u64>,
    /// The view's fields, by name, in order.
    pub fields: IndexMap<String, ViewField>,
}

impl<F: std::fmt::Debug> DataView<F> {
    /// The fields of the view, by name, in order.
    pub open spec fn fields_seq(&self) -> Seq<(String, ViewField)> {
        field_entries(self.fields)
    }

    /// Well-formedness: each store has an identity, the stores are well formed, each field names
    /// a column of its store, and the field names are distinct.
    pub open spec fn wf(&self) -> bool {
        &&& self.store_ids@.len() == self.stores@.len()
        &&& forall|s: int| 0 <= s < self.stores@.len() ==> (#[trigger] self.stores@[s]).wf()
        &&& forall|k: int|
            0 <= k < self.fields_seq().len() ==> (#[trigger] self.fields_seq()[k]).1.store_idx
                < self.stores@.len() && self.stores@[self.fields_seq()[k].1.store_idx as int].spec_column(
                self.fields_seq()[k].1.rident@,
            ) is Some
        &&& distinct_names(self.fields_seq())
    }

    /// The values of the field at position `k`.
    pub open spec fn field_column(&self, k: int) -> ColumnValues<F> {
        self.stores@[self.fields_seq()[k].1.store_idx as int].spec_column(self.fields_seq()[k].1.rident@).unwrap()
    }

    /// Whether every field of the view holds at least as many values as the field named `name`,
    /// where there is one.
    pub open spec fn covers(&self, name: Seq<char>) -> bool {
        match self.view_field_index(name) {
            Some(a) => forall|k: int|
                0 <= k < self.fields_seq().len() ==> column_len(#[trigger] self.field_column(k))
                    >= column_len(self.field_column(a)),
            None => true,
        }
    }

    /// The position of the field named `name`, if any.
    pub open spec fn view_field_index(&self, name: Seq<char>) -> Option<int> {
        if has_name(self.fields_seq(), name) {
            Some(choose|i: int| 0 <= i < self.fields_seq().len() && (#[trigger] self.fields_seq()[i]).0@ == name)
        } else {
            None
        }
    }

    /// Returns the data of the field at position `k`.
    pub fn viewfield_data(&self, k: usize) -> (r: TypedFieldData<F>)
        requires
            self.wf(),
            k < self.fields_seq().len(),
        ensures
            typed_data_values(r) == self.field_column(k as int),
    {
        let (_, f) = fields_get_index(&self.fields, k).unwrap();
        let store = &self.stores[f.store_idx];
        assert(store.wf());
        store.get_field_data(&f.rident).unwrap()
    }

    /// Returns the position of the field named `name`, if any.
    fn find_view_field(&self, name: &String) -> (r: Option<usize>)
        requires
            self.wf(),
        ensures
            r matches Some(k) ==> self.view_field_index(name@) == Some(k as int),
            r is None ==> self.view_field_index(name@) is None,
    {
        let n = fields_len(&self.fields);
        let mut i: usize = 0;
        while i < n
            invariant
                self.wf(),
                n == self.fields_seq().len(),
                i <= self.fields_seq().len(),
                forall|k: int| 0 <= k < i ==> (#[trigger] self.fields_seq()[k]).0@ != name@,
            decreases self.fields_seq().len() - i,
        {
            let (key, _) = fields_get_index(&self.fields, i).unwrap();
            if *key == *name {
                proof {
                    assert(self.fields_seq()[i as int].0@ == name@);
                    let c = self.view_field_index(name@).unwrap();
                    assert(self.fields_seq()[c].0@ == name@);
                    if c != i as int {
                        assert(self.fields_seq()[c].0@ != self.fields_seq()[i as int].0@);
                    }
                }
                return Some(i);
            }
            i = i + 1;
        }
        None
    }

    /// Gets the data of the field named `name`; `None` when the view has no such field.
    pub fn get_field_data(&self, name: &String) -> (r: Option<TypedFieldData<F>>)
        requires
            self.wf(),
        ensures
            self.view_field_index(name@) is None ==> r is None,
            self.view_field_index(name@) matches Some(k) ==> r matches Some(d) && typed_data_values(d)
                == self.field_column(k),
    {
        match self.find_view_field(name) {
            Some(k) => Some(self.viewfield_data(k)),
            None => None,
        }
    }
}

} // verus!
