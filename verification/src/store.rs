//! Row bookkeeping of a data store: whether its columns all have the same length, and its number
//! of rows. A store groups its columns by data type; each group is given here by the lengths of
//! its columns.
use vstd::prelude::*;

use crate::access::{DataIndex, DataIndexMut};
use crate::field::FieldData;
use crate::value::Value;

verus! {

/// The length shared by the columns of a group: that of its first column, or 0 for no columns.
pub open spec fn common_len(lens: Seq<usize>) -> usize {
    if lens.len() == 0 {
        0
    } else {
        lens[0]
    }
}

/// Whether all the columns of a group have the same length.
pub open spec fn same_len(lens: Seq<usize>) -> bool {
    forall|k: int| 0 <= k < lens.len() ==> #[trigger] lens[k] == common_len(lens)
}

/// Whether every column of every group has one and the same length (a group without columns
/// puts no constraint).
pub open spec fn one_length(groups: Seq<Seq<usize>>) -> bool {
    forall|g1: int, k1: int, g2: int, k2: int|
        0 <= g1 < groups.len() && 0 <= k1 < groups[g1].len() && 0 <= g2 < groups.len() && 0 <= k2
            < groups[g2].len() ==> #[trigger] groups[g1][k1] == #[trigger] groups[g2][k2]
}

/// The greatest column length of a group, or 0 for no columns.
pub open spec fn max_of(lens: Seq<usize>) -> usize
    decreases lens.len(),
{
    if lens.len() == 0 {
        0
    } else {
        let rest = max_of(lens.drop_last());
        if lens.last() > rest {
            lens.last()
        } else {
            rest
        }
    }
}

/// Returns the greatest column length of a group, or 0 for no columns.
pub fn max_len(lens: &Vec<usize>) -> (r: usize)
    ensures
        r == max_of(lens@),
        forall|k: int| 0 <= k < lens@.len() ==> #[trigger] lens@[k] <= r,
        r == 0 || lens@.contains(r),
{
    let mut acc: usize = 0;
    let mut i: usize = 0;
    while i < lens.len()
        invariant
            i <= lens@.len(),
            acc == max_of(lens@.take(i as int)),
            forall|k: int| 0 <= k < i ==> #[trigger] lens@[k] <= acc,
            acc == 0 || lens@.contains(acc),
        decreases lens@.len() - i,
    {
        proof {
            assert(lens@.take(i + 1).drop_last() =~= lens@.take(i as int));
        }
        if lens[i] > acc {
            acc = lens[i];
        }
        i = i + 1;
    }
    proof {
        assert(lens@.take(lens@.len() as int) =~= lens@);
    }
    acc
}

/// Returns the length shared by all columns of a group (0 for no columns), or `None` when two
/// columns differ in length.
pub fn is_hm_homogeneous(lens: &Vec<usize>) -> (r: Option<usize>)
    ensures
        r == (if same_len(lens@) {
            Some(common_len(lens@))
        } else {
            None
        }),
{
    let mut all_same_len = true;
    let mut target_len: usize = 0;
    let mut first = true;
    let mut i: usize = 0;
    while i < lens.len()
        invariant
            i <= lens@.len(),
            first == (i == 0),
            !first ==> target_len == common_len(lens@),
            first ==> target_len == 0,
            all_same_len == (forall|k: int| 0 <= k < i ==> #[trigger] lens@[k] == target_len),
        decreases lens@.len() - i,
    {
        if first {
            target_len = lens[i];
            first = false;
        }
        all_same_len = all_same_len && lens[i] == target_len;
        i = i + 1;
    }
    if all_same_len {
        Some(target_len)
    } else {
        None
    }
}

/// Whether a store whose column groups have the lengths `groups` is homogeneous: all its columns,
/// whatever their type, have the same length.
pub fn store_is_homogeneous(groups: &Vec<Vec<usize>>) -> (r: bool)
    ensures
        r == one_length(groups@.map_values(|g: Vec<usize>| g@)),
{
    let ghost gs = groups@.map_values(|g: Vec<usize>| g@);
    let mut target: Option<usize> = None;
    let mut i: usize = 0;
    while i < groups.len()
        invariant
            i <= groups@.len(),
            gs == groups@.map_values(|g: Vec<usize>| g@),
            target is None ==> forall|g: int| 0 <= g < i ==> #[trigger] gs[g].len() == 0,
            target matches Some(t) ==> exists|g: int, k: int|
                0 <= g < i && 0 <= k < gs[g].len() && #[trigger] gs[g][k] == t,
            target matches Some(t) ==> forall|g: int, k: int|
                0 <= g < i && 0 <= k < gs[g].len() ==> #[trigger] gs[g][k] == t,
        decreases groups@.len() - i,
    {
        let group = &groups[i];
        assert(gs[i as int] == group@);
        if group.len() > 0 {
            match is_hm_homogeneous(group) {
                None => {
                    proof {
                        let k = choose|k: int| 0 <= k < gs[i as int].len() && #[trigger] gs[i as int][k]
                            != common_len(gs[i as int]);
                        assert(gs[i as int][k] != gs[i as int][0]);
                    }
                    return false;
                },
                Some(x) => {
                    match target {
                        None => {
                            target = Some(x);
                            assert(gs[i as int][0] == x);
                        },
                        Some(t) => {
                            if t != x {
                                proof {
                                    assert(gs[i as int][0] == x);
                                    let (g, k) = choose|g: int, k: int|
                                        0 <= g < i && 0 <= k < gs[g].len() && #[trigger] gs[g][k]
                                            == t;
                                    assert(gs[g][k] != gs[i as int][0]);
                                }
                                return false;
                            }
                        },
                    }
                },
            }
        }
        i = i + 1;
    }
    true
}

/// Returns the number of rows of a store whose column groups have the lengths `groups`: the
/// greatest column length, or 0 when there are no columns.
pub fn store_nrows(groups: &Vec<Vec<usize>>) -> (r: usize)
    ensures
        forall|g: int, k: int|
            0 <= g < groups@.len() && 0 <= k < groups@[g]@.len() ==> #[trigger] groups@[g]@[k] <= r,
        r == 0 || exists|g: int| 0 <= g < groups@.len() && #[trigger] groups@[g]@.contains(r),
{
    let mut acc: usize = 0;
    let mut i: usize = 0;
    while i < groups.len()
        invariant
            i <= groups@.len(),
            forall|g: int, k: int|
                0 <= g < i && 0 <= k < groups@[g]@.len() ==> #[trigger] groups@[g]@[k] <= acc,
            acc == 0 || exists|g: int| 0 <= g < i && #[trigger] groups@[g]@.contains(acc),
        decreases groups@.len() - i,
    {
        let m = max_len(&groups[i]);
        if m > acc {
            acc = m;
        }
        i = i + 1;
    }
    acc
}

} // verus!

verus! {

/// Data type of a field.
#[derive(Debug, Clone, Copy, PartialEq, Eq)]
pub enum FieldType {
    /// Unsigned integers.
    Unsigned,
    /// Signed integers.
    Signed,
    /// Text.
    Text,
    /// Booleans.
    Boolean,
    /// Floating-point numbers.
    Float,
}

/// A field name together with its type.
#[derive(Debug)]
pub struct TypedFieldIdent {
    /// Field name.
    pub ident: String,
    /// Field type.
    pub ty: FieldType,
}

/// A field as described by a data source.
#[derive(Debug)]
pub struct SrcField {
    /// Typed identifier of the field.
    pub ty_ident: TypedFieldIdent,
    /// Position of the field in the source.
    pub src_index: usize,
}

/// A field as held by a data store.
#[derive(Debug)]
pub struct DsField {
    /// Typed identifier of the field.
    pub ty_ident: TypedFieldIdent,
    /// Position of the field in the store.
    pub ds_index: usize,
}

/// A single value of one of the store's data types; `F` is the floating-point type.
#[derive(Debug)]
pub enum TypedValue<F> {
    /// Unsigned integer value.
    Unsigned(Value<u64>),
    /// Signed integer value.
    Signed(Value<i64>),
    /// Text value.
    Text(Value<String>),
    /// Boolean value.
    Boolean(Value<bool>),
    /// Floating-point value.
    Float(Value<F>),
}

/// Reference to the data of one field of a store, by type.
#[derive(Debug)]
pub enum TypedFieldData<'a, F> {
    /// Unsigned integer data.
    Unsigned(&'a FieldData<u64>),
    /// Signed integer data.
    Signed(&'a FieldData<i64>),
    /// Text data.
    Text(&'a FieldData<String>),
    /// Boolean data.
    Boolean(&'a FieldData<bool>),
    /// Floating-point data.
    Float(&'a FieldData<F>),
}

/// The type of a typed value.
pub open spec fn value_type<F>(v: TypedValue<F>) -> FieldType {
    match v {
        TypedValue::Unsigned(_) => FieldType::Unsigned,
        TypedValue::Signed(_) => FieldType::Signed,
        TypedValue::Text(_) => FieldType::Text,
        TypedValue::Boolean(_) => FieldType::Boolean,
        TypedValue::Float(_) => FieldType::Float,
    }
}

/// The position of the column named `name` in `cols`, if any.
pub open spec fn column_index<T>(cols: Seq<(String, FieldData<T>)>, name: Seq<char>) -> Option<int> {
    if exists|i: int| 0 <= i < cols.len() && (#[trigger] cols[i]).0@ == name {
        Some(choose|i: int| 0 <= i < cols.len() && (#[trigger] cols[i]).0@ == name)
    } else {
        None
    }
}

/// Whether the names of `cols` are pairwise distinct.
pub open spec fn distinct_columns<T>(cols: Seq<(String, FieldData<T>)>) -> bool {
    forall|i: int, j: int|
        0 <= i < cols.len() && 0 <= j < cols.len() && i != j ==> (#[trigger] cols[i]).0@ != (
        #[trigger] cols[j]).0@
}

/// The columns `cols` once `v` is added to the column named `name`: pushed onto it when it
/// exists, otherwise as a new column of one value at the end.
pub open spec fn columns_with<T>(cols: Seq<(String, FieldData<T>)>, name: String, v: Value<T>) -> Seq<
    Seq<Value<T>>,
> {
    match column_index(cols, name@) {
        Some(i) => cols.map_values(|c: (String, FieldData<T>)| c.1.spec_values()).update(
            i,
            cols[i].1.spec_values().push(v),
        ),
        None => cols.map_values(|c: (String, FieldData<T>)| c.1.spec_values()).push(seq![v]),
    }
}

/// The names of the columns `cols`.
pub open spec fn column_names<T>(cols: Seq<(String, FieldData<T>)>) -> Seq<Seq<char>> {
    cols.map_values(|c: (String, FieldData<T>)| c.0@)
}

/// Returns the position of the column named `name` in `cols`, if any.
fn find_column<T>(cols: &Vec<(String, FieldData<T>)>, name: &String) -> (r: Option<usize>)
    requires
        distinct_columns(cols@),
    ensures
        r matches Some(i) ==> column_index(cols@, name@) == Some(i as int),
        r is None ==> column_index(cols@, name@) is None,
{
    let mut i: usize = 0;
    while i < cols.len()
        invariant
            i <= cols@.len(),
            distinct_columns(cols@),
            forall|k: int| 0 <= k < i ==> (#[trigger] cols@[k]).0@ != name@,
        decreases cols@.len() - i,
    {
        if cols[i].0 == *name {
            proof {
                assert(cols@[i as int].0@ == name@);
            }
            return Some(i);
        }
        i = i + 1;
    }
    None
}

/// Adds `v` to the column named `name`, creating the column when it does not exist.
fn insert_column_value<T: std::fmt::Debug>(
    cols: &mut Vec<(String, FieldData<T>)>,
    name: &String,
    v: Value<T>,
)
    requires
        distinct_columns(old(cols)@),
    ensures
        distinct_columns(final(cols)@),
        column_names(final(cols)@) == (if column_index(old(cols)@, name@) is Some {
            column_names(old(cols)@)
        } else {
            column_names(old(cols)@).push(name@)
        }),
        final(cols)@.map_values(|c: (String, FieldData<T>)| c.1.spec_values()) == columns_with(
            old(cols)@,
            *name,
            v,
        ),
{
    match find_column(cols, name) {
        Some(i) => {
            let ghost before = cols@;
            let mut col = (String::new(), FieldData::new());
            std::mem::swap(&mut col, &mut cols[i]);
            col.1.push(v);
            std::mem::swap(&mut col, &mut cols[i]);
            proof {
                assert forall|a: int, b: int|
                    0 <= a < cols@.len() && 0 <= b < cols@.len() && a != b implies (
                    #[trigger] cols@[a]).0@ != (#[trigger] cols@[b]).0@ by {
                    assert(before[a].0@ != before[b].0@);
                }
                assert(column_names(cols@) =~= column_names(before));
                assert(cols@.map_values(|c: (String, FieldData<T>)| c.1.spec_values()) =~= columns_with(
                    before,
                    *name,
                    v,
                ));
            }
        },
        None => {
            let ghost before = cols@;
            let mut fresh: FieldData<T> = FieldData::new();
            fresh.push(v);
            cols.push((name.clone(), fresh));
            proof {
                assert forall|a: int, b: int|
                    0 <= a < cols@.len() && 0 <= b < cols@.len() && a != b implies (
                    #[trigger] cols@[a]).0@ != (#[trigger] cols@[b]).0@ by {
                    if a < before.len() && b < before.len() {
                        assert(before[a].0@ != before[b].0@);
                    } else if a < before.len() {
                        assert(cols@[a] == before[a]);
                    } else {
                        assert(cols@[b] == before[b]);
                    }
                }
                assert(column_names(cols@) =~= column_names(before).push(name@));
                assert(cols@.map_values(|c: (String, FieldData<T>)| c.1.spec_values()) =~= columns_with(
                    before,
                    *name,
                    v,
                ));
            }
        },
    }
}


/// The names of `fields`, in order.
pub open spec fn field_names(fields: Seq<DsField>) -> Seq<Seq<char>> {
    fields.map_values(|f: DsField| f.ty_ident.ident@)
}

/// The column lengths of `cols`, in order.
pub open spec fn lengths_of<T>(cols: Seq<(String, FieldData<T>)>) -> Seq<usize> {
    cols.map_values(|c: (String, FieldData<T>)| c.1.spec_values().len() as usize)
}

/// `new` is `old` once `v` is added to the column named `name` (see `columns_with`), with its
/// column names still distinct.
pub open spec fn column_grown<T>(
    old: Seq<(String, FieldData<T>)>,
    new: Seq<(String, FieldData<T>)>,
    name: String,
    v: Value<T>,
) -> bool {
    &&& distinct_columns(new)
    &&& column_names(new) == (if column_index(old, name@) is Some {
        column_names(old)
    } else {
        column_names(old).push(name@)
    })
    &&& new.map_values(|c: (String, FieldData<T>)| c.1.spec_values()) == columns_with(old, name, v)
}

/// Returns the lengths of the columns of `cols`.
fn column_lengths<T: std::fmt::Debug>(cols: &Vec<(String, FieldData<T>)>) -> (r: Vec<usize>)
    ensures
        r@ == lengths_of(cols@),
{
    let mut r: Vec<usize> = Vec::new();
    let mut i: usize = 0;
    while i < cols.len()
        invariant
            i <= cols@.len(),
            r@ == lengths_of(cols@.take(i as int)),
        decreases cols@.len() - i,
    {
        let n = cols[i].1.len();
        r.push(n);
        proof {
            assert(cols@.take(i + 1) =~= cols@.take(i as int).push(cols@[i as int]));
        }
        i = i + 1;
    }
    proof {
        assert(cols@.take(cols@.len() as int) =~= cols@);
    }
    r
}

/// Data storage underlying a data frame: a list of fields, and for each data type the columns
/// of that type, by field name. `F` is the floating-point type.
#[derive(Debug)]
pub struct DataStore<F> {
    /// The fields of the store; the field at position `k` has `ds_index` `k`.
    pub fields: Vec<DsField>,
    /// Field names with their position in `fields`.
    pub field_map: Vec<(String, usize)>,
    /// Unsigned integer columns.
    pub unsigned: Vec<(String, FieldData<u64>)>,
    /// Signed integer columns.
    pub signed: Vec<(String, FieldData<i64>)>,
    /// Text columns.
    pub text: Vec<(String, FieldData<String>)>,
    /// Boolean columns.
    pub boolean: Vec<(String, FieldData<bool>)>,
    /// Floating-point columns.
    pub float: Vec<(String, FieldData<F>)>,
}

impl<F: std::fmt::Debug> DataStore<F> {
    /// Well-formedness: `field_map` indexes `fields`, field names are distinct, and so are the
    /// column names of each type.
    pub open spec fn wf(&self) -> bool {
        &&& self.field_map@.len() == self.fields@.len()
        &&& forall|k: int|
            0 <= k < self.fields@.len() ==> (#[trigger] self.fields@[k]).ds_index == k
                && self.field_map@[k].0@ == self.fields@[k].ty_ident.ident@ && self.field_map@[k].1
                == k
        &&& forall|i: int, j: int|
            0 <= i < self.fields@.len() && 0 <= j < self.fields@.len() && i != j ==> (
            #[trigger] self.fields@[i]).ty_ident.ident@ != (#[trigger] self.fields@[j]).ty_ident.ident@
        &&& distinct_columns(self.unsigned@)
        &&& distinct_columns(self.signed@)
        &&& distinct_columns(self.text@)
        &&& distinct_columns(self.boolean@)
        &&& distinct_columns(self.float@)
    }

    /// The position in `fields` of the field named `name`, if any.
    pub open spec fn field_index(&self, name: Seq<char>) -> Option<int> {
        if exists|k: int| 0 <= k < self.fields@.len() && (#[trigger] self.fields@[k]).ty_ident.ident@ == name {
            Some(choose|k: int| 0 <= k < self.fields@.len() && (#[trigger] self.fields@[k]).ty_ident.ident@ == name)
        } else {
            None
        }
    }

    /// The column lengths of the store, grouped by type.
    pub open spec fn length_groups(&self) -> Seq<Seq<usize>> {
        seq![
            lengths_of(self.unsigned@),
            lengths_of(self.signed@),
            lengths_of(self.text@),
            lengths_of(self.boolean@),
            lengths_of(self.float@),
        ]
    }

    /// The number of columns of the store, of all types.
    pub open spec fn column_count(&self) -> nat {
        self.unsigned@.len() + self.signed@.len() + self.text@.len() + self.boolean@.len()
            + self.float@.len()
    }

    /// Whether every column of the store, whatever its type, holds `n` values.
    pub open spec fn all_columns_len(&self, n: nat) -> bool {
        forall|g: int, k: int|
            0 <= g < self.length_groups().len() && 0 <= k < self.length_groups()[g].len()
                ==> #[trigger] self.length_groups()[g][k] == n
    }

    /// Returns whether the store is well formed (see `wf`).
    pub fn is_well_formed(&self) -> (r: bool)
        ensures
            r == self.wf(),
    {
        if self.field_map.len() != self.fields.len() {
            return false;
        }
        let mut k: usize = 0;
        while k < self.fields.len()
            invariant
                self.field_map@.len() == self.fields@.len(),
                k <= self.fields@.len(),
                forall|j: int|
                    0 <= j < k ==> (#[trigger] self.fields@[j]).ds_index == j
                        && self.field_map@[j].0@ == self.fields@[j].ty_ident.ident@
                        && self.field_map@[j].1 == j,
                forall|a: int, b: int|
                    0 <= a < k && 0 <= b < self.fields@.len() && a != b ==> (
                    #[trigger] self.fields@[a]).ty_ident.ident@ != (
                    #[trigger] self.fields@[b]).ty_ident.ident@,
            decreases self.fields@.len() - k,
        {
            if self.fields[k].ds_index != k || self.field_map[k].1 != k
                || !(self.field_map[k].0 == self.fields[k].ty_ident.ident) {
                return false;
            }
            let mut j: usize = 0;
            while j < self.fields.len()
                invariant
                    k < self.fields@.len(),
                    j <= self.fields@.len(),
                    forall|b: int|
                        0 <= b < j && b != k ==> self.fields@[k as int].ty_ident.ident@ != (
                        #[trigger] self.fields@[b]).ty_ident.ident@,
                decreases self.fields@.len() - j,
            {
                if j != k && self.fields[k].ty_ident.ident == self.fields[j].ty_ident.ident {
                    return false;
                }
                j = j + 1;
            }
            k = k + 1;
        }
        columns_distinct(&self.unsigned) && columns_distinct(&self.signed) && columns_distinct(
            &self.text,
        ) && columns_distinct(&self.boolean) && columns_distinct(&self.float)
    }

    /// Generates an empty data store.
    pub fn empty() -> (r: DataStore<F>)
        ensures
            r.wf(),
            r.fields@.len() == 0,
            r.unsigned@.len() == 0,
            r.signed@.len() == 0,
            r.text@.len() == 0,
            r.boolean@.len() == 0,
            r.float@.len() == 0,
    {
        DataStore {
            fields: Vec::new(),
            field_map: Vec::new(),
            unsigned: Vec::new(),
            signed: Vec::new(),
            text: Vec::new(),
            boolean: Vec::new(),
            float: Vec::new(),
        }
    }

    /// Returns the position in `fields` of the field named `name`, if any.
    fn find_field(&self, name: &String) -> (r: Option<usize>)
        requires
            self.wf(),
        ensures
            r matches Some(k) ==> self.field_index(name@) == Some(k as int),
            r is None ==> self.field_index(name@) is None,
    {
        let mut i: usize = 0;
        while i < self.field_map.len()
            invariant
                self.wf(),
                i <= self.fields@.len(),
                forall|k: int| 0 <= k < i ==> (#[trigger] self.fields@[k]).ty_ident.ident@ != name@,
            decreases self.fields@.len() - i,
        {
            if self.field_map[i].0 == *name {
                let k = self.field_map[i].1;
                proof {
                    assert(self.fields@[i as int].ty_ident.ident@ == name@);
                    let c = choose|c: int|
                        0 <= c < self.fields@.len() && (#[trigger] self.fields@[c]).ty_ident.ident@
                            == name@;
                    assert(c == i);
                }
                return Some(k);
            }
            assert(self.fields@[i as int].ty_ident.ident@ != name@);
            i = i + 1;
        }
        None
    }

    /// Registers `field` under its name at the end of `fields`, unless a field of that name is
    /// already registered.
    pub fn add_field(&mut self, field: SrcField)
        requires
            old(self).wf(),
        ensures
            final(self).wf(),
            final(self).unsigned@ == old(self).unsigned@,
            final(self).signed@ == old(self).signed@,
            final(self).text@ == old(self).text@,
            final(self).boolean@ == old(self).boolean@,
            final(self).float@ == old(self).float@,
            old(self).field_index(field.ty_ident.ident@) is Some ==> final(self).fields@ == old(
                self,
            ).fields@ && final(self).field_map@ == old(self).field_map@,
            old(self).field_index(field.ty_ident.ident@) is None ==> final(self).fields@ == old(
                self,
            ).fields@.push(DsField { ty_ident: field.ty_ident, ds_index: old(self).fields@.len() as usize })
                && final(self).field_map@ == old(self).field_map@.push(
                (field.ty_ident.ident, old(self).fields@.len() as usize),
            ),
    {
        match self.find_field(&field.ty_ident.ident) {
            Some(_) => {},
            None => {
                let ghost before = *self;
                let index = self.fields.len();
                let ident = field.ty_ident.ident.clone();
                self.fields.push(DsField { ty_ident: field.ty_ident, ds_index: index });
                self.field_map.push((ident, index));
                proof {
                    assert forall|i: int, j: int|
                        0 <= i < self.fields@.len() && 0 <= j < self.fields@.len() && i != j implies (
                        #[trigger] self.fields@[i]).ty_ident.ident@ != (
                        #[trigger] self.fields@[j]).ty_ident.ident@ by {
                        if i < before.fields@.len() && j < before.fields@.len() {
                            assert(before.fields@[i].ty_ident.ident@ != before.fields@[j].ty_ident.ident@);
                        } else if i < before.fields@.len() {
                            assert(self.fields@[i] == before.fields@[i]);
                        } else {
                            assert(self.fields@[j] == before.fields@[j]);
                        }
                    }
                    assert forall|k: int| 0 <= k < self.fields@.len() implies (
                        #[trigger] self.fields@[k]).ds_index == k && self.field_map@[k].0@
                        == self.fields@[k].ty_ident.ident@ && self.field_map@[k].1 == k by {
                        if k < before.fields@.len() {
                            assert(before.fields@[k].ds_index == k);
                        }
                    }
                }
            },
        }
    }
}

/// Once a column grows by a value under a registered name, all its column names that were
/// registered still are.
proof fn lemma_grown_registered<F: std::fmt::Debug, T>(
    ds: DataStore<F>,
    old: Seq<(String, FieldData<T>)>,
    new: Seq<(String, FieldData<T>)>,
    name: String,
    v: Value<T>,
)
    requires
        column_grown(old, new, name, v),
        forall|c: int| 0 <= c < old.len() ==> ds.field_index((#[trigger] old[c]).0@) is Some,
        ds.field_index(name@) is Some,
    ensures
        forall|c: int| 0 <= c < new.len() ==> ds.field_index((#[trigger] new[c]).0@) is Some,
{
    assert forall|c: int| 0 <= c < new.len() implies ds.field_index((#[trigger] new[c]).0@) is Some by {
        assert(column_names(new).len() == new.len());
        assert(column_names(old).len() == old.len());
        assert(column_names(new)[c] == new[c].0@);
        if c < old.len() {
            assert(column_names(old)[c] == old[c].0@);
            assert(ds.field_index(old[c].0@) is Some);
        } else {
            assert(column_index(old, name@) is None);
            assert(column_names(new)[c] == name@);
        }
    }
}

/// Returns whether the names of `cols` are pairwise distinct.
fn columns_distinct<T>(cols: &Vec<(String, FieldData<T>)>) -> (r: bool)
    ensures
        r == distinct_columns(cols@),
{
    let mut i: usize = 0;
    while i < cols.len()
        invariant
            i <= cols@.len(),
            forall|a: int, b: int|
                0 <= a < i && 0 <= b < cols@.len() && a != b ==> (#[trigger] cols@[a]).0@ != (
                #[trigger] cols@[b]).0@,
        decreases cols@.len() - i,
    {
        let mut j: usize = 0;
        while j < cols.len()
            invariant
                i < cols@.len(),
                j <= cols@.len(),
                forall|a: int, b: int|
                    0 <= a < i && 0 <= b < cols@.len() && a != b ==> (#[trigger] cols@[a]).0@ != (
                    #[trigger] cols@[b]).0@,
                forall|b: int| 0 <= b < j && b != i ==> cols@[i as int].0@ != (#[trigger] cols@[b]).0@,
            decreases cols@.len() - j,
        {
            if j != i && cols[i].0 == cols[j].0 {
                return false;
            }
            j = j + 1;
        }
        i = i + 1;
    }
    true
}

/// Whether `new` is `old` once `value` is inserted for `field`: the field is registered at the
/// end of the fields unless one of its name is there already, and the value is added to the
/// column of that name among the columns of the value's type (see `column_grown`); the columns
/// of the other types are unchanged.
pub open spec fn value_inserted<F: std::fmt::Debug>(
    old: DataStore<F>,
    new: DataStore<F>,
    field: SrcField,
    value: TypedValue<F>,
) -> bool {
    let name = field.ty_ident.ident;
    &&& old.field_index(name@) is Some ==> new.fields@ == old.fields@ && new.field_map@ == old.field_map@
    &&& old.field_index(name@) is None ==> new.fields@ == old.fields@.push(
        DsField { ty_ident: field.ty_ident, ds_index: old.fields@.len() as usize },
    ) && new.field_map@ == old.field_map@.push((name, old.fields@.len() as usize))
    &&& match value {
        TypedValue::Unsigned(v) => column_grown(old.unsigned@, new.unsigned@, name, v),
        _ => new.unsigned@ == old.unsigned@,
    }
    &&& match value {
        TypedValue::Signed(v) => column_grown(old.signed@, new.signed@, name, v),
        _ => new.signed@ == old.signed@,
    }
    &&& match value {
        TypedValue::Text(v) => column_grown(old.text@, new.text@, name, v),
        _ => new.text@ == old.text@,
    }
    &&& match value {
        TypedValue::Boolean(v) => column_grown(old.boolean@, new.boolean@, name, v),
        _ => new.boolean@ == old.boolean@,
    }
    &&& match value {
        TypedValue::Float(v) => column_grown(old.float@, new.float@, name, v),
        _ => new.float@ == old.float@,
    }
}

impl<F: std::fmt::Debug> DataStore<F> {
    /// Inserts `value` for `field`: registers the field (see `add_field`), then adds the value
    /// to the column of that name among the columns of the value's type, creating the column
    /// when it does not exist yet. The columns of the other types are unchanged.
    pub fn insert_value(&mut self, field: SrcField, value: TypedValue<F>)
        requires
            old(self).wf(),
        ensures
            final(self).wf(),
            value_inserted(*old(self), *final(self), field, value),
            old(self).columns_registered() ==> final(self).columns_registered(),
    {
        let ghost before = *self;
        let ghost value0 = value;
        let ident = field.ty_ident.ident.clone();
        self.add_field(field);
        proof {
            let k = self.fields@.len() - 1;
            assert forall|n: Seq<char>| #[trigger] before.field_index(n) is Some implies self.field_index(n) is Some by {
                let i = before.field_index(n).unwrap();
                assert(before.fields@[i].ty_ident.ident@ == n);
                assert(self.fields@[i] == before.fields@[i]);
            }
            if before.field_index(ident@) is None {
                assert(self.fields@[k].ty_ident.ident@ == ident@);
            }
            assert(self.field_index(ident@) is Some);
        }
        match value {
            TypedValue::Unsigned(v) => insert_column_value(&mut self.unsigned, &ident, v),
            TypedValue::Signed(v) => insert_column_value(&mut self.signed, &ident, v),
            TypedValue::Text(v) => insert_column_value(&mut self.text, &ident, v),
            TypedValue::Boolean(v) => insert_column_value(&mut self.boolean, &ident, v),
            TypedValue::Float(v) => insert_column_value(&mut self.float, &ident, v),
        }
        proof {
            if before.columns_registered() {
                match value0 {
                    TypedValue::Unsigned(v) => lemma_grown_registered(*self, before.unsigned@, self.unsigned@, ident, v),
                    TypedValue::Signed(v) => lemma_grown_registered(*self, before.signed@, self.signed@, ident, v),
                    TypedValue::Text(v) => lemma_grown_registered(*self, before.text@, self.text@, ident, v),
                    TypedValue::Boolean(v) => lemma_grown_registered(*self, before.boolean@, self.boolean@, ident, v),
                    TypedValue::Float(v) => lemma_grown_registered(*self, before.float@, self.float@, ident, v),
                }
            }
        }
    }

    /// Retrieves the unsigned integer column named `ident`.
    pub fn get_unsigned_field(&self, ident: &String) -> (r: Option<&FieldData<u64>>)
        requires
            self.wf(),
        ensures
            r matches Some(d) ==> (column_index(self.unsigned@, ident@) matches Some(c) && *d
                == self.unsigned@[c].1),
            r is None ==> column_index(self.unsigned@, ident@) is None,
    {
        match find_column(&self.unsigned, ident) {
            Some(c) => Some(&self.unsigned[c].1),
            None => None,
        }
    }

    /// Retrieves the signed integer column named `ident`.
    pub fn get_signed_field(&self, ident: &String) -> (r: Option<&FieldData<i64>>)
        requires
            self.wf(),
        ensures
            r matches Some(d) ==> (column_index(self.signed@, ident@) matches Some(c) && *d
                == self.signed@[c].1),
            r is None ==> column_index(self.signed@, ident@) is None,
    {
        match find_column(&self.signed, ident) {
            Some(c) => Some(&self.signed[c].1),
            None => None,
        }
    }

    /// Retrieves the text column named `ident`.
    pub fn get_text_field(&self, ident: &String) -> (r: Option<&FieldData<String>>)
        requires
            self.wf(),
        ensures
            r matches Some(d) ==> (column_index(self.text@, ident@) matches Some(c) && *d
                == self.text@[c].1),
            r is None ==> column_index(self.text@, ident@) is None,
    {
        match find_column(&self.text, ident) {
            Some(c) => Some(&self.text[c].1),
            None => None,
        }
    }

    /// Retrieves the boolean column named `ident`.
    pub fn get_boolean_field(&self, ident: &String) -> (r: Option<&FieldData<bool>>)
        requires
            self.wf(),
        ensures
            r matches Some(d) ==> (column_index(self.boolean@, ident@) matches Some(c) && *d
                == self.boolean@[c].1),
            r is None ==> column_index(self.boolean@, ident@) is None,
    {
        match find_column(&self.boolean, ident) {
            Some(c) => Some(&self.boolean[c].1),
            None => None,
        }
    }

    /// Retrieves the floating-point column named `ident`.
    pub fn get_float_field(&self, ident: &String) -> (r: Option<&FieldData<F>>)
        requires
            self.wf(),
        ensures
            r matches Some(d) ==> (column_index(self.float@, ident@) matches Some(c) && *d
                == self.float@[c].1),
            r is None ==> column_index(self.float@, ident@) is None,
    {
        match find_column(&self.float, ident) {
            Some(c) => Some(&self.float[c].1),
            None => None,
        }
    }

    /// Gets all the data of the field named `ident`, as the variant of its registered type.
    /// Returns `None` when no such field is registered, or when the columns of its type hold
    /// none of that name.
    pub fn get_field_data(&self, ident: &String) -> (r: Option<TypedFieldData<F>>)
        requires
            self.wf(),
        ensures
            r matches Some(d) ==> self.spec_column(ident@) == Some(typed_data_values(d)),
            r is None <==> self.spec_column(ident@) is None,
            self.field_index(ident@) is None ==> r is None,
            self.field_index(ident@) matches Some(k) ==> match self.fields@[k].ty_ident.ty {
                FieldType::Unsigned => match column_index(self.unsigned@, ident@) {
                    Some(c) => r matches Some(TypedFieldData::Unsigned(d)) && *d == self.unsigned@[c].1,
                    None => r is None,
                },
                FieldType::Signed => match column_index(self.signed@, ident@) {
                    Some(c) => r matches Some(TypedFieldData::Signed(d)) && *d == self.signed@[c].1,
                    None => r is None,
                },
                FieldType::Text => match column_index(self.text@, ident@) {
                    Some(c) => r matches Some(TypedFieldData::Text(d)) && *d == self.text@[c].1,
                    None => r is None,
                },
                FieldType::Boolean => match column_index(self.boolean@, ident@) {
                    Some(c) => r matches Some(TypedFieldData::Boolean(d)) && *d == self.boolean@[c].1,
                    None => r is None,
                },
                FieldType::Float => match column_index(self.float@, ident@) {
                    Some(c) => r matches Some(TypedFieldData::Float(d)) && *d == self.float@[c].1,
                    None => r is None,
                },
            },
    {
        match self.find_field(ident) {
            None => None,
            Some(k) => match self.fields[k].ty_ident.ty {
                FieldType::Unsigned => match self.get_unsigned_field(ident) {
                    Some(d) => Some(TypedFieldData::Unsigned(d)),
                    None => None,
                },
                FieldType::Signed => match self.get_signed_field(ident) {
                    Some(d) => Some(TypedFieldData::Signed(d)),
                    None => None,
                },
                FieldType::Text => match self.get_text_field(ident) {
                    Some(d) => Some(TypedFieldData::Text(d)),
                    None => None,
                },
                FieldType::Boolean => match self.get_boolean_field(ident) {
                    Some(d) => Some(TypedFieldData::Boolean(d)),
                    None => None,
                },
                FieldType::Float => match self.get_float_field(ident) {
                    Some(d) => Some(TypedFieldData::Float(d)),
                    None => None,
                },
            },
        }
    }

    /// Gets the field information of the field named `ident`.
    pub fn get_field_info(&self, ident: &String) -> (r: Option<&DsField>)
        requires
            self.wf(),
        ensures
            self.field_index(ident@) matches Some(k) ==> r matches Some(f) && *f == self.fields@[k],
            self.field_index(ident@) is None ==> r is None,
    {
        match self.find_field(ident) {
            Some(k) => Some(&self.fields[k]),
            None => None,
        }
    }

    /// Gets the field information of every field of the store, in order.
    pub fn fields(&self) -> (r: Vec<&DsField>)
        ensures
            r@.len() == self.fields@.len(),
            forall|k: int| 0 <= k < r@.len() ==> *(#[trigger] r@[k]) == self.fields@[k],
    {
        let mut r: Vec<&DsField> = Vec::new();
        let mut i: usize = 0;
        while i < self.fields.len()
            invariant
                i <= self.fields@.len(),
                r@.len() == i,
                forall|k: int| 0 <= k < i ==> *(#[trigger] r@[k]) == self.fields@[k],
            decreases self.fields@.len() - i,
        {
            r.push(&self.fields[i]);
            i = i + 1;
        }
        r
    }

    /// Gets the names of the fields of the store, in order.
    pub fn fieldnames(&self) -> (r: Vec<String>)
        ensures
            r@.map_values(|s: String| s@) == field_names(self.fields@),
    {
        let mut r: Vec<String> = Vec::new();
        let mut i: usize = 0;
        while i < self.fields.len()
            invariant
                i <= self.fields@.len(),
                r@.map_values(|s: String| s@) == field_names(self.fields@.take(i as int)),
            decreases self.fields@.len() - i,
        {
            let ghost prev = r@;
            let name = self.fields[i].ty_ident.ident.clone();
            r.push(name);
            proof {
                assert(self.fields@.take(i + 1) =~= self.fields@.take(i as int).push(self.fields@[i as int]));
                assert(r@.map_values(|s: String| s@) =~= prev.map_values(|s: String| s@).push(
                    self.fields@[i as int].ty_ident.ident@,
                ));
                assert(r@.map_values(|s: String| s@) =~= field_names(self.fields@.take(i + 1)));
            }
            i = i + 1;
        }
        proof {
            assert(self.fields@.take(self.fields@.len() as int) =~= self.fields@);
        }
        r
    }

    /// Returns the column lengths of the store, grouped by type.
    fn lengths(&self) -> (r: Vec<Vec<usize>>)
        ensures
            r@.map_values(|g: Vec<usize>| g@) == self.length_groups(),
    {
        let mut r: Vec<Vec<usize>> = Vec::new();
        r.push(column_lengths(&self.unsigned));
        r.push(column_lengths(&self.signed));
        r.push(column_lengths(&self.text));
        r.push(column_lengths(&self.boolean));
        r.push(column_lengths(&self.float));
        proof {
            assert(r@.map_values(|g: Vec<usize>| g@) =~= self.length_groups());
        }
        r
    }

    /// Checks whether the store is homogeneous: all its columns, whatever their type, have the
    /// same length.
    pub fn is_homogeneous(&self) -> (r: bool)
        ensures
            r == one_length(self.length_groups()),
    {
        let groups = self.lengths();
        store_is_homogeneous(&groups)
    }

    /// Returns the number of rows of the store: the greatest column length, or 0 when the store
    /// has no columns.
    pub fn nrows(&self) -> (r: usize)
        ensures
            forall|g: int, k: int|
                0 <= g < self.length_groups().len() && 0 <= k < self.length_groups()[g].len()
                    ==> #[trigger] self.length_groups()[g][k] <= r,
            r == 0 || exists|g: int|
                0 <= g < self.length_groups().len() && #[trigger] self.length_groups()[g].contains(r),
            forall|n: nat| #[trigger] self.all_columns_len(n) && self.column_count() > 0 ==> r == n,
    {
        let groups = self.lengths();
        let r = store_nrows(&groups);
        proof {
            assert forall|n: nat| #[trigger] self.all_columns_len(n) && self.column_count() > 0
                implies r == n by {
                let lg = self.length_groups();
                let g = if self.unsigned@.len() > 0 {
                    0int
                } else if self.signed@.len() > 0 {
                    1int
                } else if self.text@.len() > 0 {
                    2int
                } else if self.boolean@.len() > 0 {
                    3int
                } else {
                    4int
                };
                assert(lg[g].len() > 0);
                assert(groups@[g]@ == lg[g]);
                assert(lg[g][0] == n);
                assert(groups@[g]@[0] <= r);
                if r != 0 {
                    let g2 = choose|g2: int| 0 <= g2 < groups@.len() && #[trigger] groups@[g2]@.contains(r);
                    assert(groups@[g2]@ == lg[g2]);
                    let k = choose|k: int| 0 <= k < lg[g2].len() && lg[g2][k] == r;
                    assert(lg[g2][k] == n);
                }
            }
            assert forall|g: int, k: int|
                0 <= g < self.length_groups().len() && 0 <= k < self.length_groups()[g].len()
                    implies #[trigger] self.length_groups()[g][k] <= r by {
                assert(groups@[g]@ == self.length_groups()[g]);
                assert(groups@[g]@[k] <= r);
            }
            if r != 0 {
                let g = choose|g: int| 0 <= g < groups@.len() && #[trigger] groups@[g]@.contains(r);
                assert(groups@[g]@ == self.length_groups()[g]);
            }
        }
        r
    }
}


/// The values of one column, by type.
pub enum ColumnValues<F> {
    /// Unsigned integer values.
    Unsigned(Seq<Value<u64>>),
    /// Signed integer values.
    Signed(Seq<Value<i64>>),
    /// Text values.
    Text(Seq<Value<String>>),
    /// Boolean values.
    Boolean(Seq<Value<bool>>),
    /// Floating-point values.
    Float(Seq<Value<F>>),
}

/// The type of a column.
pub open spec fn column_type<F>(c: ColumnValues<F>) -> FieldType {
    match c {
        ColumnValues::Unsigned(_) => FieldType::Unsigned,
        ColumnValues::Signed(_) => FieldType::Signed,
        ColumnValues::Text(_) => FieldType::Text,
        ColumnValues::Boolean(_) => FieldType::Boolean,
        ColumnValues::Float(_) => FieldType::Float,
    }
}

/// The number of values of a column.
pub open spec fn column_len<F>(c: ColumnValues<F>) -> nat {
    match c {
        ColumnValues::Unsigned(v) => v.len(),
        ColumnValues::Signed(v) => v.len(),
        ColumnValues::Text(v) => v.len(),
        ColumnValues::Boolean(v) => v.len(),
        ColumnValues::Float(v) => v.len(),
    }
}

/// The values that a reference to a typed column refers to.
pub open spec fn typed_data_values<F>(d: TypedFieldData<F>) -> ColumnValues<F> {
    match d {
        TypedFieldData::Unsigned(c) => ColumnValues::Unsigned(c.spec_values()),
        TypedFieldData::Signed(c) => ColumnValues::Signed(c.spec_values()),
        TypedFieldData::Text(c) => ColumnValues::Text(c.spec_values()),
        TypedFieldData::Boolean(c) => ColumnValues::Boolean(c.spec_values()),
        TypedFieldData::Float(c) => ColumnValues::Float(c.spec_values()),
    }
}

/// The values of the column named `name` in `cols`, if any.
pub open spec fn column_values<T>(cols: Seq<(String, FieldData<T>)>, name: Seq<char>) -> Option<
    Seq<Value<T>>,
> {
    match column_index(cols, name) {
        Some(c) => Some(cols[c].1.spec_values()),
        None => None,
    }
}

/// Pushing a column named `name` that `cols` lacks makes it found at the end, and leaves every
/// other name where it was.
proof fn lemma_column_index_push<T>(
    cols: Seq<(String, FieldData<T>)>,
    col: (String, FieldData<T>),
    name: Seq<char>,
)
    requires
        distinct_columns(cols.push(col)),
    ensures
        col.0@ == name ==> column_index(cols.push(col), name) == Some(cols.len() as int),
        col.0@ != name ==> column_index(cols.push(col), name) == column_index(cols, name),
{
    let s = cols.push(col);
    if col.0@ == name {
        assert(s[cols.len() as int].0@ == name);
        let c = choose|c: int| 0 <= c < s.len() && (#[trigger] s[c]).0@ == name;
        if c != cols.len() {
            assert(s[c].0@ != s[cols.len() as int].0@);
        }
    } else {
        if exists|i: int| 0 <= i < cols.len() && (#[trigger] cols[i]).0@ == name {
            let i = column_index(cols, name).unwrap();
            assert(cols[i].0@ == name);
            assert(s[i] == cols[i]);
            let c = column_index(s, name).unwrap();
            assert(s[c].0@ == name);
            if c != i {
                assert(s[c].0@ != s[i].0@);
            }
        } else {
            assert forall|c: int| 0 <= c < s.len() implies (#[trigger] s[c]).0@ != name by {
                if c < cols.len() {
                    assert(s[c] == cols[c]);
                }
            }
            assert(column_index(s, name) is None);
        }
    }
}

/// The columns `cols` with `col` added at the end.
fn push_column<T>(cols: &mut Vec<(String, FieldData<T>)>, col: (String, FieldData<T>))
    requires
        distinct_columns(old(cols)@),
        column_index(old(cols)@, col.0@) is None,
    ensures
        final(cols)@ == old(cols)@.push(col),
        distinct_columns(final(cols)@),
{
    let ghost before = cols@;
    let ghost name = col.0@;
    cols.push(col);
    proof {
        assert forall|a: int, b: int|
            0 <= a < cols@.len() && 0 <= b < cols@.len() && a != b implies (
            #[trigger] cols@[a]).0@ != (#[trigger] cols@[b]).0@ by {
            if a < before.len() && b < before.len() {
                assert(before[a].0@ != before[b].0@);
            } else if a < before.len() {
                assert(cols@[a] == before[a]);
                assert(before[a].0@ != name);
            } else {
                assert(cols@[b] == before[b]);
                assert(before[b].0@ != name);
            }
        }
    }
}

/// A column of owned values, by type.
pub enum OwnedColumn<F> {
    /// Unsigned integer column.
    Unsigned(FieldData<u64>),
    /// Signed integer column.
    Signed(FieldData<i64>),
    /// Text column.
    Text(FieldData<String>),
    /// Boolean column.
    Boolean(FieldData<bool>),
    /// Floating-point column.
    Float(FieldData<F>),
}

/// The values of an owned column.
pub open spec fn owned_values<F>(c: OwnedColumn<F>) -> ColumnValues<F> {
    match c {
        OwnedColumn::Unsigned(d) => ColumnValues::Unsigned(d.spec_values()),
        OwnedColumn::Signed(d) => ColumnValues::Signed(d.spec_values()),
        OwnedColumn::Text(d) => ColumnValues::Text(d.spec_values()),
        OwnedColumn::Boolean(d) => ColumnValues::Boolean(d.spec_values()),
        OwnedColumn::Float(d) => ColumnValues::Float(d.spec_values()),
    }
}

impl<F: std::fmt::Debug> DataStore<F> {
    /// The values of the field named `name`: its column among those of its registered type.
    pub open spec fn spec_column(&self, name: Seq<char>) -> Option<ColumnValues<F>> {
        match self.field_index(name) {
            None => None,
            Some(k) => match self.fields@[k].ty_ident.ty {
                FieldType::Unsigned => match column_values(self.unsigned@, name) {
                    Some(v) => Some(ColumnValues::Unsigned(v)),
                    None => None,
                },
                FieldType::Signed => match column_values(self.signed@, name) {
                    Some(v) => Some(ColumnValues::Signed(v)),
                    None => None,
                },
                FieldType::Text => match column_values(self.text@, name) {
                    Some(v) => Some(ColumnValues::Text(v)),
                    None => None,
                },
                FieldType::Boolean => match column_values(self.boolean@, name) {
                    Some(v) => Some(ColumnValues::Boolean(v)),
                    None => None,
                },
                FieldType::Float => match column_values(self.float@, name) {
                    Some(v) => Some(ColumnValues::Float(v)),
                    None => None,
                },
            },
        }
    }

    /// Whether every column name of the store is the name of one of its fields.
    pub open spec fn columns_registered(&self) -> bool {
        &&& forall|c: int| 0 <= c < self.unsigned@.len() ==> self.field_index((#[trigger] self.unsigned@[c]).0@) is Some
        &&& forall|c: int| 0 <= c < self.signed@.len() ==> self.field_index((#[trigger] self.signed@[c]).0@) is Some
        &&& forall|c: int| 0 <= c < self.text@.len() ==> self.field_index((#[trigger] self.text@[c]).0@) is Some
        &&& forall|c: int| 0 <= c < self.boolean@.len() ==> self.field_index((#[trigger] self.boolean@[c]).0@) is Some
        &&& forall|c: int| 0 <= c < self.float@.len() ==> self.field_index((#[trigger] self.float@[c]).0@) is Some
    }

    /// Adds a field named `name` holding the column `col`, of the column's type, to a store
    /// that has no field of that name.
    pub fn append_column(&mut self, name: String, col: OwnedColumn<F>)
        requires
            old(self).wf(),
            old(self).columns_registered(),
            old(self).field_index(name@) is None,
        ensures
            final(self).wf(),
            final(self).columns_registered(),
            field_names(final(self).fields@) == field_names(old(self).fields@).push(name@),
            final(self).spec_column(name@) == Some(owned_values(col)),
            forall|n: Seq<char>|
                n != name@ ==> #[trigger] final(self).spec_column(n) == old(self).spec_column(n),
            final(self).column_count() == old(self).column_count() + 1,
            forall|n: nat|
                #[trigger] old(self).all_columns_len(n) && column_len(owned_values(col)) == n
                    ==> final(self).all_columns_len(n),
    {
        let ghost before = *self;
        let ghost vals = owned_values(col);
        let ty = match &col {
            OwnedColumn::Unsigned(_) => FieldType::Unsigned,
            OwnedColumn::Signed(_) => FieldType::Signed,
            OwnedColumn::Text(_) => FieldType::Text,
            OwnedColumn::Boolean(_) => FieldType::Boolean,
            OwnedColumn::Float(_) => FieldType::Float,
        };
        proof {
            assert forall|c: int| 0 <= c < before.unsigned@.len() implies (#[trigger] before.unsigned@[c]).0@ != name@ by {}
            assert forall|c: int| 0 <= c < before.signed@.len() implies (#[trigger] before.signed@[c]).0@ != name@ by {}
            assert forall|c: int| 0 <= c < before.text@.len() implies (#[trigger] before.text@[c]).0@ != name@ by {}
            assert forall|c: int| 0 <= c < before.boolean@.len() implies (#[trigger] before.boolean@[c]).0@ != name@ by {}
            assert forall|c: int| 0 <= c < before.float@.len() implies (#[trigger] before.float@[c]).0@ != name@ by {}
        }
        let field = SrcField { ty_ident: TypedFieldIdent { ident: name.clone(), ty }, src_index: 0 };
        self.add_field(field);
        match col {
            OwnedColumn::Unsigned(d) => {
                push_column(&mut self.unsigned, (name, d));
            },
            OwnedColumn::Signed(d) => {
                push_column(&mut self.signed, (name, d));
            },
            OwnedColumn::Text(d) => {
                push_column(&mut self.text, (name, d));
            },
            OwnedColumn::Boolean(d) => {
                push_column(&mut self.boolean, (name, d));
            },
            OwnedColumn::Float(d) => {
                push_column(&mut self.float, (name, d));
            },
        }
        proof {
            match vals {
                ColumnValues::Unsigned(_) => {
                    assert(self.unsigned@ == before.unsigned@.push(self.unsigned@.last()));
                    self.unsigned@.last().1.lemma_values_len_fits();
                    assert(lengths_of(self.unsigned@) =~= lengths_of(before.unsigned@).push(
                        self.unsigned@.last().1.spec_values().len() as usize,
                    ));
                },
                ColumnValues::Signed(_) => {
                    assert(self.signed@ == before.signed@.push(self.signed@.last()));
                    self.signed@.last().1.lemma_values_len_fits();
                    assert(lengths_of(self.signed@) =~= lengths_of(before.signed@).push(
                        self.signed@.last().1.spec_values().len() as usize,
                    ));
                },
                ColumnValues::Text(_) => {
                    assert(self.text@ == before.text@.push(self.text@.last()));
                    self.text@.last().1.lemma_values_len_fits();
                    assert(lengths_of(self.text@) =~= lengths_of(before.text@).push(
                        self.text@.last().1.spec_values().len() as usize,
                    ));
                },
                ColumnValues::Boolean(_) => {
                    assert(self.boolean@ == before.boolean@.push(self.boolean@.last()));
                    self.boolean@.last().1.lemma_values_len_fits();
                    assert(lengths_of(self.boolean@) =~= lengths_of(before.boolean@).push(
                        self.boolean@.last().1.spec_values().len() as usize,
                    ));
                },
                ColumnValues::Float(_) => {
                    assert(self.float@ == before.float@.push(self.float@.last()));
                    self.float@.last().1.lemma_values_len_fits();
                    assert(lengths_of(self.float@) =~= lengths_of(before.float@).push(
                        self.float@.last().1.spec_values().len() as usize,
                    ));
                },
            }
            assert forall|n: nat|
                #[trigger] before.all_columns_len(n) && column_len(vals) == n implies self.all_columns_len(
                    n,
                ) by {
                assert forall|g: int, k: int|
                    0 <= g < self.length_groups().len() && 0 <= k < self.length_groups()[g].len()
                        implies #[trigger] self.length_groups()[g][k] == n by {
                    if k < before.length_groups()[g].len() {
                        assert(self.length_groups()[g][k] == before.length_groups()[g][k]);
                    }
                }
            }
            let k = before.fields@.len() as int;
            assert(self.fields@[k].ty_ident.ident@ == name@);
            assert(self.field_index(name@) == Some(k)) by {
                let c = choose|c: int| 0 <= c < self.fields@.len() && (#[trigger] self.fields@[c]).ty_ident.ident@ == name@;
                if c != k {
                    assert(self.fields@[c].ty_ident.ident@ != self.fields@[k].ty_ident.ident@);
                }
            }
            assert(field_names(self.fields@) =~= field_names(before.fields@).push(name@));
            assert forall|n: Seq<char>| n != name@ implies #[trigger] self.field_index(n) == before.field_index(n) by {
                if exists|i: int| 0 <= i < before.fields@.len() && (#[trigger] before.fields@[i]).ty_ident.ident@ == n {
                    let i = choose|i: int| 0 <= i < before.fields@.len() && (#[trigger] before.fields@[i]).ty_ident.ident@ == n;
                    assert(self.fields@[i] == before.fields@[i]);
                    let c = choose|c: int| 0 <= c < self.fields@.len() && (#[trigger] self.fields@[c]).ty_ident.ident@ == n;
                    if c != i {
                        assert(self.fields@[c].ty_ident.ident@ != self.fields@[i].ty_ident.ident@);
                    }
                } else {
                    assert forall|c: int| 0 <= c < self.fields@.len() implies (#[trigger] self.fields@[c]).ty_ident.ident@ != n by {
                        if c < before.fields@.len() {
                            assert(self.fields@[c] == before.fields@[c]);
                        }
                    }
                }
            }
            assert forall|n: Seq<char>| n != name@ implies #[trigger] self.spec_column(n) == before.spec_column(n) by {
                assert(self.field_index(n) == before.field_index(n));
                if let Some(k2) = before.field_index(n) {
                    assert(self.fields@[k2] == before.fields@[k2]);
                }
                match vals {
                    ColumnValues::Unsigned(_) => {
                        lemma_column_index_push(before.unsigned@, self.unsigned@.last(), n);
                        assert(self.unsigned@ == before.unsigned@.push(self.unsigned@.last()));
                    },
                    ColumnValues::Signed(_) => {
                        lemma_column_index_push(before.signed@, self.signed@.last(), n);
                        assert(self.signed@ == before.signed@.push(self.signed@.last()));
                    },
                    ColumnValues::Text(_) => {
                        lemma_column_index_push(before.text@, self.text@.last(), n);
                        assert(self.text@ == before.text@.push(self.text@.last()));
                    },
                    ColumnValues::Boolean(_) => {
                        lemma_column_index_push(before.boolean@, self.boolean@.last(), n);
                        assert(self.boolean@ == before.boolean@.push(self.boolean@.last()));
                    },
                    ColumnValues::Float(_) => {
                        lemma_column_index_push(before.float@, self.float@.last(), n);
                        assert(self.float@ == before.float@.push(self.float@.last()));
                    },
                }
            }
        }
    }
}


/// Growing a column by a value under `name` appends the value to the column of that name, or
/// makes a column of that value alone, and leaves the other columns' values as they were.
proof fn lemma_grown_values<T>(
    old: Seq<(String, FieldData<T>)>,
    new: Seq<(String, FieldData<T>)>,
    name: String,
    v: Value<T>,
)
    requires
        distinct_columns(old),
        column_grown(old, new, name, v),
    ensures
        column_values(new, name@) == Some(
            match column_values(old, name@) {
                Some(s) => s.push(v),
                None => seq![v],
            },
        ),
        forall|n: Seq<char>| n != name@ ==> #[trigger] column_values(new, n) == column_values(old, n),
{
    let vm = new.map_values(|c: (String, FieldData<T>)| c.1.spec_values());
    assert(column_names(new).len() == new.len());
    assert(column_names(old).len() == old.len());
    assert forall|i: int| 0 <= i < new.len() implies (#[trigger] new[i]).1.spec_values() == vm[i]
        && new[i].0@ == column_names(new)[i] by {}
    assert forall|i: int| 0 <= i < old.len() implies (#[trigger] old[i]).0@ == column_names(old)[i] by {}
    match column_index(old, name@) {
        Some(c) => {
            assert(old[c].0@ == name@);
            assert(new[c].0@ == name@);
            let c2 = column_index(new, name@).unwrap();
            assert(new[c2].0@ == name@);
            if c2 != c {
                assert(new[c2].0@ != new[c].0@);
            }
            assert forall|n: Seq<char>| n != name@ implies #[trigger] column_values(new, n)
                == column_values(old, n) by {
                if column_index(old, n) is Some {
                    let i = column_index(old, n).unwrap();
                    assert(old[i].0@ == n);
                    assert(new[i].0@ == n);
                    let j = column_index(new, n).unwrap();
                    assert(new[j].0@ == n);
                    if j != i {
                        assert(new[j].0@ != new[i].0@);
                    }
                    assert(i != c);
                    assert(vm[i] == old[i].1.spec_values());
                } else {
                    assert forall|j: int| 0 <= j < new.len() implies (#[trigger] new[j]).0@ != n by {
                        assert(new[j].0@ == old[j].0@);
                    }
                }
            }
        },
        None => {
            let m = old.len() as int;
            assert(new[m].0@ == name@);
            let c2 = column_index(new, name@).unwrap();
            assert(new[c2].0@ == name@);
            if c2 != m {
                assert(new[c2].0@ != new[m].0@);
            }
            assert(vm[m] == seq![v]);
            assert forall|n: Seq<char>| n != name@ implies #[trigger] column_values(new, n)
                == column_values(old, n) by {
                if column_index(old, n) is Some {
                    let i = column_index(old, n).unwrap();
                    assert(old[i].0@ == n);
                    assert(new[i].0@ == n);
                    let j = column_index(new, n).unwrap();
                    assert(new[j].0@ == n);
                    if j != i {
                        assert(new[j].0@ != new[i].0@);
                    }
                    assert(vm[i] == old[i].1.spec_values());
                } else {
                    assert forall|j: int| 0 <= j < new.len() implies (#[trigger] new[j]).0@ != n by {
                        if j < m {
                            assert(new[j].0@ == old[j].0@);
                        }
                    }
                }
            }
        },
    }
}


/// The column `c` with the value `v` appended, or a column of `v` alone where `c` is absent or
/// of another type.
pub open spec fn appended<F>(c: Option<ColumnValues<F>>, v: TypedValue<F>) -> ColumnValues<F> {
    match v {
        TypedValue::Unsigned(x) => ColumnValues::Unsigned(
            match c {
                Some(ColumnValues::Unsigned(s)) => s.push(x),
                _ => seq![x],
            },
        ),
        TypedValue::Signed(x) => ColumnValues::Signed(
            match c {
                Some(ColumnValues::Signed(s)) => s.push(x),
                _ => seq![x],
            },
        ),
        TypedValue::Text(x) => ColumnValues::Text(
            match c {
                Some(ColumnValues::Text(s)) => s.push(x),
                _ => seq![x],
            },
        ),
        TypedValue::Boolean(x) => ColumnValues::Boolean(
            match c {
                Some(ColumnValues::Boolean(s)) => s.push(x),
                _ => seq![x],
            },
        ),
        TypedValue::Float(x) => ColumnValues::Float(
            match c {
                Some(ColumnValues::Float(s)) => s.push(x),
                _ => seq![x],
            },
        ),
    }
}

/// The type under which `field` is registered in `ds` once it is inserted: the type of the field
/// of that name already there, otherwise its own.
pub open spec fn registered_type<F: std::fmt::Debug>(ds: DataStore<F>, field: SrcField) -> FieldType {
    match ds.field_index(field.ty_ident.ident@) {
        Some(k) => ds.fields@[k].ty_ident.ty,
        None => field.ty_ident.ty,
    }
}

/// What a read gives back of a write: once a value is inserted for a field whose registered type
/// is the value's type, the field's data is its former data with the value appended (the value
/// alone where the field had no data), and the data of every other field is unchanged.
pub proof fn lemma_insert_then_read<F: std::fmt::Debug>(
    old: DataStore<F>,
    new: DataStore<F>,
    field: SrcField,
    value: TypedValue<F>,
)
    requires
        old.wf(),
        old.columns_registered(),
        new.wf(),
        value_inserted(old, new, field, value),
        registered_type(old, field) == value_type(value),
    ensures
        new.spec_column(field.ty_ident.ident@) == Some(
            appended(old.spec_column(field.ty_ident.ident@), value),
        ),
        forall|n: Seq<char>|
            n != field.ty_ident.ident@ ==> #[trigger] new.spec_column(n) == old.spec_column(n),
{
    let name = field.ty_ident.ident;
    match value {
        TypedValue::Unsigned(v) => lemma_grown_values(old.unsigned@, new.unsigned@, name, v),
        TypedValue::Signed(v) => lemma_grown_values(old.signed@, new.signed@, name, v),
        TypedValue::Text(v) => lemma_grown_values(old.text@, new.text@, name, v),
        TypedValue::Boolean(v) => lemma_grown_values(old.boolean@, new.boolean@, name, v),
        TypedValue::Float(v) => lemma_grown_values(old.float@, new.float@, name, v),
    }
    // the field indices: unchanged for other names; the name is found under its registered type
    assert forall|n: Seq<char>| n != name@ implies #[trigger] new.field_index(n) == old.field_index(n)
        by {
        if old.field_index(n) is Some {
            let i = old.field_index(n).unwrap();
            assert(old.fields@[i].ty_ident.ident@ == n);
            assert(new.fields@[i] == old.fields@[i]);
            let j = new.field_index(n).unwrap();
            assert(new.fields@[j].ty_ident.ident@ == n);
            if j != i {
                assert(new.fields@[j].ty_ident.ident@ != new.fields@[i].ty_ident.ident@);
            }
        } else {
            assert forall|j: int| 0 <= j < new.fields@.len() implies (
            #[trigger] new.fields@[j]).ty_ident.ident@ != n by {
                if j < old.fields@.len() {
                    assert(new.fields@[j] == old.fields@[j]);
                }
            }
        }
    }
    let k = match old.field_index(name@) {
        Some(k) => k,
        None => old.fields@.len() as int,
    };
    assert(new.fields@[k].ty_ident.ident@ == name@);
    assert(new.fields@[k].ty_ident.ty == value_type(value));
    let k2 = new.field_index(name@).unwrap();
    assert(new.fields@[k2].ty_ident.ident@ == name@);
    if k2 != k {
        assert(new.fields@[k2].ty_ident.ident@ != new.fields@[k].ty_ident.ident@);
    }
    if old.field_index(name@) is None {
        assert(column_values(old.unsigned@, name@) is None);
        assert(column_values(old.signed@, name@) is None);
        assert(column_values(old.text@, name@) is None);
        assert(column_values(old.boolean@, name@) is None);
        assert(column_values(old.float@, name@) is None);
    }
    assert forall|n: Seq<char>| n != name@ implies #[trigger] new.spec_column(n) == old.spec_column(n)
        by {
        assert(new.field_index(n) == old.field_index(n));
        if old.field_index(n) is Some {
            let i = old.field_index(n).unwrap();
            assert(new.fields@[i] == old.fields@[i]);
        }
    }
}

} // verus!
