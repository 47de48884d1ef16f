# agnes (verified core)

Data-management primitives for typed fields with missing (NA) values, written in Verus.

- `value`: `Value<T>`, a datum that exists or is missing.
- `field`: `FieldData<T>`, the storage of one field.
- `access`: `DataIndex` / `DataIndexMut` access traits, the permutable `DataIterator`, `ValueMap`,
  the draining `DrainIterator`, `Permutation`, stable and unstable sort orders (by value or by a
  comparator), and `FilterPerm`.
- `order`: the order of values (missing values first) and its laws.
- `sort`: the stable merge sort of index orders that the sort orders use.
- `join`: join descriptions, the predicate comparison, the sort-merge join of two keyed fields,
  and the join of two data views into a new data store (inner, left outer and cross joins).
- `parse`: reading text and boolean values from their text form; blank text is a missing value.
- `store`: the data store: its fields, its typed columns by field name, insertion and lookup,
  homogeneity and number of rows. The floating-point column type is a type parameter.
- `fieldmap`: the ordered field map of a data view, `indexmap`'s `IndexMap`, behind trusted
  declarations of the calls used.
- `view`: data views over stores, and the merging of the stores and field lists of two views.

`app/` holds the parts that handle floating-point data: float comparators, the float type that
the stores' floating-point columns hold, and the parsing of unparsed input values (forgiving
numeric parsers) before they are handed to the store.
