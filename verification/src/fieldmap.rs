//! The ordered map from field names to view fields that a data view holds: `indexmap`'s
//! `IndexMap`, behind trusted declarations.
use indexmap::IndexMap;
use vstd::prelude::*;

use crate::view::ViewField;

verus! {

/// `indexmap::IndexMap`: a hash map whose entries keep their insertion order.
#[verifier::external_type_specification]
#[verifier::external_body]
#[verifier::reject_recursive_types(K)]
#[verifier::reject_recursive_types(V)]
#[verifier::reject_recursive_types(S)]
pub struct ExIndexMap<K, V, S>(IndexMap<K, V, S>);

/// The entries of the map `m`, in its order.
pub uninterp spec fn field_entries(m: IndexMap<String, ViewField>) -> Seq<(String, ViewField)>;

/// `IndexMap::new`: creates a map with no entries.
#[verifier::external_body]
pub(crate) fn fields_new() -> (m: IndexMap<String, ViewField>)
    ensures
        field_entries(m) == Seq::<(String, ViewField)>::empty(),
{
    IndexMap::new()
}

/// `IndexMap::len`: the number of entries of `m`.
#[verifier::external_body]
pub(crate) fn fields_len(m: &IndexMap<String, ViewField>) -> (n: usize)
    ensures
        n == field_entries(*m).len(),
{
    m.len()
}

/// `IndexMap::get_index`: the entry at position `i` of `m`, in its order, if there is one.
#[verifier::external_body]
pub(crate) fn fields_get_index(m: &IndexMap<String, ViewField>, i: usize) -> (r: Option<(&String, &ViewField)>)
    ensures
        i < field_entries(*m).len() ==> r == Some(
            (&field_entries(*m)[i as int].0, &field_entries(*m)[i as int].1),
        ),
        i >= field_entries(*m).len() ==> r is None,
{
    m.get_index(i)
}

/// `IndexMap::insert`: where an entry's key equals `key`, its value becomes `value` and it keeps
/// its key and place; otherwise the entry is added last. Returns the value replaced, if any.
#[verifier::external_body]
pub(crate) fn fields_insert(m: &mut IndexMap<String, ViewField>, key: String, value: ViewField) -> (r: Option<ViewField>)
    ensures
        (exists|i: int| 0 <= i < field_entries(*old(m)).len() && (#[trigger] field_entries(*old(m))[i]).0@ == key@) ==> exists|i: int|
            0 <= i < field_entries(*old(m)).len() && field_entries(*old(m))[i].0@ == key@
                && field_entries(*final(m)) == field_entries(*old(m)).update(
                i,
                (field_entries(*old(m))[i].0, value),
            ) && r == Some(field_entries(*old(m))[i].1),
        !(exists|i: int| 0 <= i < field_entries(*old(m)).len() && (#[trigger] field_entries(*old(m))[i]).0@ == key@) ==> field_entries(*final(m))
            == field_entries(*old(m)).push((key, value)) && r is None,
{
    m.insert(key, value)
}

} // verus!
