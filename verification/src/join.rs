//! Join descriptions and the sort-merge join of two keyed fields.
use vstd::prelude::*;
use vstd::std_specs::convert::IntoSpec;
use vstd::string::StrSliceExecFns;

use crate::access::{datum_or_na, indices_in_bounds, DataIndex, DataIndexMut, SortOrder};
use crate::order::{
    index_le, le_values, lemma_value_order, total_order, value_equiv, value_le, value_lt,
};
use crate::sort::{lemma_index_permutation_covers, lemma_stably_sorted_is_sorted, sorted_by};
use crate::error::AgnesError;
use crate::fieldmap::{fields_get_index, fields_len};
use crate::field::FieldData;
use crate::store::{
    column_len, column_type, field_names, typed_data_values, ColumnValues, DataStore,
    TypedFieldData,
};
use crate::value::{value_deref, Value};
use crate::view::{
    collisions, compute_merged_field_list, compute_merged_stores, gather, only_join_field_collides,
    pick_column, positions_below, DataView, ViewField,
};

verus! {

/// Join information used to describe the type of join being used.
#[derive(Debug, Clone)]
pub struct Join {
    /// Join kind: Inner, Outer, or Cross
    pub kind: JoinKind,
    /// Join predicate: equijoin, inequality join
    pub predicate: Predicate,
    /// Name of the field joined on in the left data
    pub left_field: String,
    /// Name of the field joined on in the right data
    pub right_field: String,
}

impl Join {
    /// Create a new `Join` over the specified fields.
    pub fn new<L: Into<String>, R: Into<String>>(
        kind: JoinKind,
        predicate: Predicate,
        left_field: L,
        right_field: R,
    ) -> (r: Join)
        ensures
            r.kind == kind,
            r.predicate == predicate,
            call_ensures(<L as Into<String>>::into, (left_field,), r.left_field),
            call_ensures(<R as Into<String>>::into, (right_field,), r.right_field),
            L::obeys_into_spec() ==> r.left_field == left_field.into_spec(),
            R::obeys_into_spec() ==> r.right_field == right_field.into_spec(),
    {
        Join { kind, predicate, left_field: left_field.into(), right_field: right_field.into() }
    }

    /// Helper function to create a new `Join` with an 'Equal' predicate.
    pub fn equal<L: Into<String>, R: Into<String>>(kind: JoinKind, left_field: L, right_field: R) -> (r:
        Join)
        ensures
            r.kind == kind,
            r.predicate == Predicate::Equal,
            call_ensures(<L as Into<String>>::into, (left_field,), r.left_field),
            call_ensures(<R as Into<String>>::into, (right_field,), r.right_field),
            L::obeys_into_spec() ==> r.left_field == left_field.into_spec(),
            R::obeys_into_spec() ==> r.right_field == right_field.into_spec(),
    {
        Join {
            kind,
            predicate: Predicate::Equal,
            left_field: left_field.into(),
            right_field: right_field.into(),
        }
    }

    /// Helper function to create a new `Join` with a 'Less Than' predicate.
    pub fn less_than<L: Into<String>, R: Into<String>>(
        kind: JoinKind,
        left_field: L,
        right_field: R,
    ) -> (r: Join)
        ensures
            r.kind == kind,
            r.predicate == Predicate::LessThan,
            call_ensures(<L as Into<String>>::into, (left_field,), r.left_field),
            call_ensures(<R as Into<String>>::into, (right_field,), r.right_field),
            L::obeys_into_spec() ==> r.left_field == left_field.into_spec(),
            R::obeys_into_spec() ==> r.right_field == right_field.into_spec(),
    {
        Join {
            kind,
            predicate: Predicate::LessThan,
            left_field: left_field.into(),
            right_field: right_field.into(),
        }
    }

    /// Helper function to create a new `Join` with a 'Less Than or Equal' predicate.
    pub fn less_than_equal<L: Into<String>, R: Into<String>>(
        kind: JoinKind,
        left_field: L,
        right_field: R,
    ) -> (r: Join)
        ensures
            r.kind == kind,
            r.predicate == Predicate::LessThanEqual,
            call_ensures(<L as Into<String>>::into, (left_field,), r.left_field),
            call_ensures(<R as Into<String>>::into, (right_field,), r.right_field),
            L::obeys_into_spec() ==> r.left_field == left_field.into_spec(),
            R::obeys_into_spec() ==> r.right_field == right_field.into_spec(),
    {
        Join {
            kind,
            predicate: Predicate::LessThanEqual,
            left_field: left_field.into(),
            right_field: right_field.into(),
        }
    }

    /// Helper function to create a new `Join` with a 'Greater Than' predicate.
    pub fn greater_than<L: Into<String>, R: Into<String>>(
        kind: JoinKind,
        left_field: L,
        right_field: R,
    ) -> (r: Join)
        ensures
            r.kind == kind,
            r.predicate == Predicate::GreaterThan,
            call_ensures(<L as Into<String>>::into, (left_field,), r.left_field),
            call_ensures(<R as Into<String>>::into, (right_field,), r.right_field),
            L::obeys_into_spec() ==> r.left_field == left_field.into_spec(),
            R::obeys_into_spec() ==> r.right_field == right_field.into_spec(),
    {
        Join {
            kind,
            predicate: Predicate::GreaterThan,
            left_field: left_field.into(),
            right_field: right_field.into(),
        }
    }

    /// Helper function to create a new `Join` with a 'Greater Than or Equal' predicate.
    pub fn greater_than_equal<L: Into<String>, R: Into<String>>(
        kind: JoinKind,
        left_field: L,
        right_field: R,
    ) -> (r: Join)
        ensures
            r.kind == kind,
            r.predicate == Predicate::GreaterThanEqual,
            call_ensures(<L as Into<String>>::into, (left_field,), r.left_field),
            call_ensures(<R as Into<String>>::into, (right_field,), r.right_field),
            L::obeys_into_spec() ==> r.left_field == left_field.into_spec(),
            R::obeys_into_spec() ==> r.right_field == right_field.into_spec(),
    {
        Join {
            kind,
            predicate: Predicate::GreaterThanEqual,
            left_field: left_field.into(),
            right_field: right_field.into(),
        }
    }
}

/// The kind of join
#[derive(Debug, Clone, Copy)]
pub enum JoinKind {
    /// Inner Join
    Inner,
    /// Left Outer Join (simply reverse order of call to join() for right outer join)
    Outer,
    /// Cross Join (cartesian product)
    Cross,
}

/// Join predicate (comparison operator between two sides of the join)
#[derive(Debug, Clone, Copy, PartialEq)]
pub enum Predicate {
    /// Comparison 'left == right'
    Equal,
    /// Comparison 'left < right'
    LessThan,
    /// Comparison 'left <= right'
    LessThanEqual,
    /// Comparison 'left > right'
    GreaterThan,
    /// Comparison 'left >= right'
    GreaterThanEqual,
}

/// Whether the comparison of `predicate` holds between values `left` and `right`.
pub open spec fn pred_holds<T: Ord>(predicate: Predicate, left: Value<T>, right: Value<T>) -> bool {
    match predicate {
        Predicate::Equal => value_equiv(left, right),
        Predicate::LessThan => value_lt(left, right),
        Predicate::LessThanEqual => value_le(left, right),
        Predicate::GreaterThan => value_lt(right, left),
        Predicate::GreaterThanEqual => value_le(right, left),
    }
}

/// The outcome of comparing the current left and right keys during a merge.
#[derive(Debug, Copy, Clone, PartialEq)]
pub enum PredResults {
    /// The keys match: add the matching records.
    Add,
    /// The keys do not match: advance the left side, the right side, or both.
    Advance {
        /// Advance the left side.
        left: bool,
        /// Advance the right side.
        right: bool,
    },
}

/// The outcome that comparing `left` and `right` under `predicate` gives.
pub open spec fn apply_result<T: Ord>(predicate: Predicate, left: Value<T>, right: Value<T>) -> PredResults {
    if pred_holds(predicate, left, right) {
        PredResults::Add
    } else {
        match predicate {
            Predicate::Equal => if value_lt(left, right) {
                PredResults::Advance { left: true, right: false }
            } else {
                PredResults::Advance { left: false, right: true }
            },
            Predicate::LessThan | Predicate::LessThanEqual => PredResults::Advance {
                left: false,
                right: true,
            },
            Predicate::GreaterThan | Predicate::GreaterThanEqual => PredResults::Advance {
                left: true,
                right: false,
            },
        }
    }
}

impl Predicate {
    /// Whether this predicate admits equal keys ('==', '<=' or '>=').
    pub fn is_equality(&self) -> (r: bool)
        ensures
            r == (*self is Equal || *self is GreaterThanEqual || *self is LessThanEqual),
    {
        match self {
            Predicate::Equal | Predicate::GreaterThanEqual | Predicate::LessThanEqual => true,
            _ => false,
        }
    }

    /// Whether this predicate is a greater-than comparison ('>' or '>=').
    pub fn is_greater_than(&self) -> (r: bool)
        ensures
            r == (*self is GreaterThan || *self is GreaterThanEqual),
    {
        match self {
            Predicate::GreaterThan | Predicate::GreaterThanEqual => true,
            _ => false,
        }
    }

    /// Whether this predicate is a less-than comparison ('<' or '<=').
    pub fn is_less_than(&self) -> (r: bool)
        ensures
            r == (*self is LessThan || *self is LessThanEqual),
    {
        match self {
            Predicate::LessThan | Predicate::LessThanEqual => true,
            _ => false,
        }
    }

    /// Compares the left and right keys: `Add` when the predicate holds, otherwise which side a
    /// merge over ascending keys advances.
    pub fn apply<T: Ord>(&self, left: Value<&T>, right: Value<&T>) -> (r: PredResults)
        ensures
            total_order::<T>() ==> r == apply_result(*self, value_deref(left), value_deref(right)),
            r matches PredResults::Advance { left: l, right: rt } ==> match *self {
                Predicate::Equal => l != rt,
                Predicate::LessThan | Predicate::LessThanEqual => !l && rt,
                Predicate::GreaterThan | Predicate::GreaterThanEqual => l && !rt,
            },
    {
        let le_lr = le_values(left, right);
        let le_rl = le_values(right, left);
        match self {
            Predicate::Equal => {
                if le_lr && le_rl {
                    PredResults::Add
                } else if le_lr {
                    PredResults::Advance { left: true, right: false }
                } else {
                    PredResults::Advance { left: false, right: true }
                }
            },
            Predicate::LessThan => {
                if le_lr && !le_rl {
                    PredResults::Add
                } else {
                    PredResults::Advance { left: false, right: true }
                }
            },
            Predicate::LessThanEqual => {
                if le_lr {
                    PredResults::Add
                } else {
                    PredResults::Advance { left: false, right: true }
                }
            },
            Predicate::GreaterThan => {
                if le_rl && !le_lr {
                    PredResults::Add
                } else {
                    PredResults::Advance { left: true, right: false }
                }
            },
            Predicate::GreaterThanEqual => {
                if le_rl {
                    PredResults::Add
                } else {
                    PredResults::Advance { left: true, right: false }
                }
            },
        }
    }
}


/// The index pairs that the position pairs `pos` stand for, through the orders `lp` and `rp`.
pub open spec fn index_pairs(pos: Seq<(int, int)>, lp: Seq<usize>, rp: Seq<usize>) -> Seq<
    (usize, usize),
> {
    pos.map_values(|p: (int, int)| (lp[p.0], rp[p.1]))
}

/// Whether position pair `p` lies in the rectangle `[li, lend) x [ri, rend)`.
pub open spec fn in_rect(p: (int, int), li: int, lend: int, ri: int, rend: int) -> bool {
    li <= p.0 < lend && ri <= p.1 < rend
}

/// Appends the pairs `(left_perm[a], right_perm[b])` for `a` in `li..lend` and `b` in `ri..rend`.
/// Returns the position pairs `(a, b)` appended, in order.
fn push_cross(
    merged: &mut Vec<(usize, usize)>,
    left_perm: &Vec<usize>,
    right_perm: &Vec<usize>,
    li: usize,
    lend: usize,
    ri: usize,
    rend: usize,
) -> (batch: Ghost<Seq<(int, int)>>)
    requires
        li <= lend <= left_perm@.len(),
        ri <= rend <= right_perm@.len(),
    ensures
        final(merged)@ == old(merged)@ + index_pairs(batch@, left_perm@, right_perm@),
        batch@.no_duplicates(),
        forall|k: int|
            0 <= k < batch@.len() ==> in_rect(
                #[trigger] batch@[k],
                li as int,
                lend as int,
                ri as int,
                rend as int,
            ),
        forall|a: int, b: int|
            li <= a < lend && ri <= b < rend ==> #[trigger] batch@.contains((a, b)),
{
    let ghost lp = left_perm@;
    let ghost rp = right_perm@;
    let ghost start = merged@;
    let ghost mut batch: Seq<(int, int)> = Seq::empty();
    let mut a = li;
    while a < lend
        invariant
            li <= a <= lend <= lp.len(),
            ri <= rend <= rp.len(),
            lp == left_perm@,
            rp == right_perm@,
            merged@ == start + index_pairs(batch, lp, rp),
            batch.no_duplicates(),
            forall|k: int|
                0 <= k < batch.len() ==> in_rect(#[trigger] batch[k], li as int, a as int, ri as int, rend as int),
            forall|x: int, y: int| li <= x < a && ri <= y < rend ==> #[trigger] batch.contains((x, y)),
        decreases lend - a,
    {
        let mut b = ri;
        while b < rend
            invariant
                li <= a < lend <= lp.len(),
                ri <= b <= rend <= rp.len(),
                lp == left_perm@,
                rp == right_perm@,
                merged@ == start + index_pairs(batch, lp, rp),
                batch.no_duplicates(),
                forall|k: int|
                    0 <= k < batch.len() ==> in_rect(#[trigger] batch[k], li as int, a as int, ri as int, rend as int)
                        || in_rect(batch[k], a as int, a + 1, ri as int, b as int),
                forall|x: int, y: int|
                    (li <= x < a && ri <= y < rend) || (x == a && ri <= y < b) ==> #[trigger] batch.contains((x, y)),
            decreases rend - b,
        {
            let ghost old_batch = batch;
            merged.push((left_perm[a], right_perm[b]));
            proof {
                batch = batch.push((a as int, b as int));
                assert(index_pairs(batch, lp, rp) =~= index_pairs(old_batch, lp, rp).push(
                    (lp[a as int], rp[b as int]),
                ));
                assert(merged@ =~= start + index_pairs(batch, lp, rp));
                assert forall|x: int, y: int|
                    (li <= x < a && ri <= y < rend) || (x == a && ri <= y < b + 1) implies #[trigger] batch.contains((x, y)) by {
                    if x == a && y == b {
                        assert(batch[batch.len() - 1] == (x, y));
                    } else {
                        assert(old_batch.contains((x, y)));
                        let k = choose|k: int| 0 <= k < old_batch.len() && old_batch[k] == (x, y);
                        assert(batch[k] == (x, y));
                    }
                }
                assert forall|i: int, j: int|
                    0 <= i < batch.len() && 0 <= j < batch.len() && i != j implies batch[i] != batch[j] by {
                    if i < old_batch.len() && j < old_batch.len() {
                        assert(old_batch[i] != old_batch[j]);
                    } else if i < old_batch.len() {
                        assert(in_rect(old_batch[i], li as int, a as int, ri as int, rend as int)
                            || in_rect(old_batch[i], a as int, a + 1, ri as int, b as int));
                    } else if j < old_batch.len() {
                        assert(in_rect(old_batch[j], li as int, a as int, ri as int, rend as int)
                            || in_rect(old_batch[j], a as int, a + 1, ri as int, b as int));
                    }
                }
            }
            b = b + 1;
        }
        a = a + 1;
    }
    Ghost(batch)
}


/// The key at position `a` of the order `perm` over values `vals`.
pub open spec fn key_at<T>(vals: Seq<Value<T>>, perm: Seq<usize>, a: int) -> Value<T> {
    vals[perm[a] as int]
}

/// Whether `perm` orders `vals` ascending by value.
pub open spec fn ascending<T: Ord>(vals: Seq<Value<T>>, perm: Seq<usize>) -> bool {
    forall|a: int, b: int|
        0 <= a < b < perm.len() ==> value_le(#[trigger] key_at(vals, perm, a), #[trigger] key_at(vals, perm, b))
}

proof fn lemma_ascending_le<T: Ord>(vals: Seq<Value<T>>, perm: Seq<usize>, a: int, b: int)
    requires
        total_order::<T>(),
        ascending(vals, perm),
        0 <= a <= b < perm.len(),
    ensures
        value_le(key_at(vals, perm, a), key_at(vals, perm, b)),
{
    lemma_value_order::<T>();
    if a < b {
        assert(value_le(key_at(vals, perm, a), key_at(vals, perm, b)));
    } else {
        assert(value_le(key_at(vals, perm, a), key_at(vals, perm, a)));
    }
}

/// Whether position pair `(a, b)` has been dealt with once the merge reaches `(li, ri)`.
pub open spec fn merge_done(p: (int, int), li: int, ri: int) -> bool {
    p.0 < li || p.1 < ri
}

/// Whether the predicate holds between the keys at positions `p` of the two orders.
pub open spec fn pos_matches<T: Ord>(
    predicate: Predicate,
    lv: Seq<Value<T>>,
    lp: Seq<usize>,
    rv: Seq<Value<T>>,
    rp: Seq<usize>,
    p: (int, int),
) -> bool {
    pred_holds(predicate, key_at(lv, lp, p.0), key_at(rv, rp, p.1))
}


/// The facts the merge keeps about the position pairs `pos` emitted so far, when it has reached
/// positions `li` and `ri` of the left and right orders.
pub open spec fn merge_state<T: Ord>(
    predicate: Predicate,
    lv: Seq<Value<T>>,
    lp: Seq<usize>,
    rv: Seq<Value<T>>,
    rp: Seq<usize>,
    pos: Seq<(int, int)>,
    li: int,
    ri: int,
) -> bool {
    &&& forall|k: int|
        0 <= k < pos.len() ==> pos_matches(predicate, lv, lp, rv, rp, #[trigger] pos[k])
    &&& forall|a: int, b: int|
        0 <= a < lp.len() && 0 <= b < rp.len() && merge_done((a, b), li, ri) && pos_matches(
            predicate,
            lv,
            lp,
            rv,
            rp,
            (a, b),
        ) ==> #[trigger] pos.contains((a, b))
}

/// The shape facts the merge keeps about the emitted position pairs, whatever the order says.
pub open spec fn merge_shape(pos: Seq<(int, int)>, ln: int, rn: int, li: int, ri: int) -> bool {
    &&& pos.no_duplicates()
    &&& forall|k: int|
        0 <= k < pos.len() ==> 0 <= (#[trigger] pos[k]).0 < ln && 0 <= pos[k].1 < rn && merge_done(
            pos[k],
            li,
            ri,
        )
}

proof fn lemma_append_shape(
    pos: Seq<(int, int)>,
    batch: Seq<(int, int)>,
    ln: int,
    rn: int,
    li: int,
    ri: int,
    li2: int,
    ri2: int,
    lend: int,
    rend: int,
)
    requires
        merge_shape(pos, ln, rn, li, ri),
        li <= li2,
        ri <= ri2,
        0 <= li <= lend <= ln,
        0 <= ri <= rend <= rn,
        batch.no_duplicates(),
        forall|k: int| 0 <= k < batch.len() ==> in_rect(#[trigger] batch[k], li, lend, ri, rend),
        forall|k: int| 0 <= k < batch.len() ==> merge_done(#[trigger] batch[k], li2, ri2),
    ensures
        merge_shape(pos + batch, ln, rn, li2, ri2),
{
    let all = pos + batch;
    assert forall|i: int, j: int| 0 <= i < all.len() && 0 <= j < all.len() && i != j implies all[i] != all[j] by {
        if i < pos.len() && j < pos.len() {
        } else if i < pos.len() {
            assert(in_rect(batch[j - pos.len()], li, lend, ri, rend));
            assert(merge_done(pos[i], li, ri));
        } else if j < pos.len() {
            assert(in_rect(batch[i - pos.len()], li, lend, ri, rend));
            assert(merge_done(pos[j], li, ri));
        } else {
            assert(batch[i - pos.len()] != batch[j - pos.len()]);
        }
    }
    assert forall|k: int| 0 <= k < all.len() implies 0 <= (#[trigger] all[k]).0 < ln && 0 <= all[k].1 < rn
        && merge_done(all[k], li2, ri2) by {
        if k >= pos.len() {
            assert(in_rect(batch[k - pos.len()], li, lend, ri, rend));
            assert(merge_done(batch[k - pos.len()], li2, ri2));
        } else {
            assert(merge_done(pos[k], li, ri));
        }
    }
}


/// Whether `[start, end)` is the run of positions whose keys are equivalent to the key at `start`,
/// extended as far as it goes.
pub open spec fn equal_run<T: Ord>(vals: Seq<Value<T>>, perm: Seq<usize>, start: int, end: int) -> bool {
    &&& start < end <= perm.len()
    &&& forall|x: int|
        start <= x < end ==> value_equiv(#[trigger] key_at(vals, perm, x), key_at(vals, perm, start))
    &&& end < perm.len() ==> !value_equiv(key_at(vals, perm, end), key_at(vals, perm, start))
}

/// The position the left side reaches after adding matches (`leq` ends its equal run).
pub open spec fn next_left(predicate: Predicate, li: int, leq: int) -> int {
    match predicate {
        Predicate::Equal | Predicate::LessThanEqual => leq,
        Predicate::LessThan => li + 1,
        _ => li,
    }
}

/// The position the right side reaches after adding matches (`req` ends its equal run).
pub open spec fn next_right(predicate: Predicate, ri: int, req: int) -> int {
    match predicate {
        Predicate::Equal | Predicate::GreaterThanEqual => req,
        Predicate::GreaterThan => ri + 1,
        _ => ri,
    }
}

proof fn lemma_add_step<T: Ord>(
    predicate: Predicate,
    lv: Seq<Value<T>>,
    lp: Seq<usize>,
    rv: Seq<Value<T>>,
    rp: Seq<usize>,
    pos: Seq<(int, int)>,
    batch: Seq<(int, int)>,
    li: int,
    ri: int,
    leq: int,
    req: int,
    lend: int,
    rend: int,
)
    requires
        total_order::<T>(),
        ascending(lv, lp),
        ascending(rv, rp),
        0 <= li,
        0 <= ri,
        merge_state(predicate, lv, lp, rv, rp, pos, li, ri),
        pos_matches(predicate, lv, lp, rv, rp, (li, ri)),
        predicate is Equal || predicate is LessThanEqual || predicate is GreaterThanEqual
            ==> equal_run(lv, lp, li, leq) && equal_run(rv, rp, ri, req),
        predicate is LessThan || predicate is GreaterThan ==> leq == li + 1 && req == ri + 1
            && li < lp.len() && ri < rp.len(),
        lend == (if predicate is GreaterThan || predicate is GreaterThanEqual {
            lp.len() as int
        } else {
            leq
        }),
        rend == (if predicate is LessThan || predicate is LessThanEqual {
            rp.len() as int
        } else {
            req
        }),
        forall|k: int| 0 <= k < batch.len() ==> in_rect(#[trigger] batch[k], li, lend, ri, rend),
        forall|a: int, b: int| li <= a < lend && ri <= b < rend ==> #[trigger] batch.contains((a, b)),
    ensures
        merge_state(
            predicate,
            lv,
            lp,
            rv,
            rp,
            pos + batch,
            next_left(predicate, li, leq),
            next_right(predicate, ri, req),
        ),
        forall|k: int|
            0 <= k < batch.len() ==> merge_done(
                #[trigger] batch[k],
                next_left(predicate, li, leq),
                next_right(predicate, ri, req),
            ),
{
    lemma_value_order::<T>();
    let all = pos + batch;
    let li2 = next_left(predicate, li, leq);
    let ri2 = next_right(predicate, ri, req);
    let l = key_at(lv, lp, li);
    let r = key_at(rv, rp, ri);
    // every emitted pair matches
    assert forall|k: int| 0 <= k < all.len() implies pos_matches(predicate, lv, lp, rv, rp, #[trigger] all[k]) by {
        if k >= pos.len() {
            let p = batch[k - pos.len()];
            assert(in_rect(p, li, lend, ri, rend));
            let ka = key_at(lv, lp, p.0);
            let kb = key_at(rv, rp, p.1);
            lemma_ascending_le(lv, lp, li, p.0);
            lemma_ascending_le(rv, rp, ri, p.1);
            match predicate {
                Predicate::Equal => {
                    assert(value_equiv(ka, l) && value_equiv(kb, r));
                },
                Predicate::LessThanEqual => {
                    assert(value_equiv(ka, l));
                    assert(value_le(l, r) && value_le(r, kb));
                },
                Predicate::GreaterThanEqual => {
                    assert(value_equiv(kb, r));
                    assert(value_le(r, l) && value_le(l, ka));
                },
                Predicate::LessThan => {
                    assert(p.0 == li);
                    assert(value_le(r, kb));
                },
                Predicate::GreaterThan => {
                    assert(p.1 == ri);
                    assert(value_le(l, ka));
                },
            }
        } else {
            assert(all[k] == pos[k]);
        }
    }
    // every newly dealt-with matching pair was emitted
    assert forall|a: int, b: int|
        0 <= a < lp.len() && 0 <= b < rp.len() && merge_done((a, b), li2, ri2) && pos_matches(
            predicate,
            lv,
            lp,
            rv,
            rp,
            (a, b),
        ) implies #[trigger] all.contains((a, b)) by {
        if merge_done((a, b), li, ri) {
            assert(pos.contains((a, b)));
            let k = choose|k: int| 0 <= k < pos.len() && pos[k] == (a, b);
            assert(all[k] == (a, b));
        } else {
            let ka = key_at(lv, lp, a);
            let kb = key_at(rv, rp, b);
            if predicate is Equal {
                if a >= leq {
                    lemma_ascending_le(lv, lp, li, leq);
                    lemma_ascending_le(lv, lp, leq, a);
                    assert(value_equiv(kb, r));
                    assert(false);
                }
                if b >= req {
                    lemma_ascending_le(rv, rp, ri, req);
                    lemma_ascending_le(rv, rp, req, b);
                    assert(value_equiv(ka, l));
                    assert(false);
                }
            }
            assert(in_rect((a, b), li, lend, ri, rend));
            assert(batch.contains((a, b)));
            let k = choose|k: int| 0 <= k < batch.len() && batch[k] == (a, b);
            assert(all[pos.len() + k] == (a, b));
        }
    }
    assert forall|k: int| 0 <= k < batch.len() implies merge_done(#[trigger] batch[k], li2, ri2) by {
        assert(in_rect(batch[k], li, lend, ri, rend));
    }
}


proof fn lemma_advance_step<T: Ord>(
    predicate: Predicate,
    lv: Seq<Value<T>>,
    lp: Seq<usize>,
    rv: Seq<Value<T>>,
    rp: Seq<usize>,
    pos: Seq<(int, int)>,
    li: int,
    ri: int,
    adv_left: bool,
    adv_right: bool,
)
    requires
        total_order::<T>(),
        ascending(lv, lp),
        ascending(rv, rp),
        0 <= li < lp.len(),
        0 <= ri < rp.len(),
        merge_state(predicate, lv, lp, rv, rp, pos, li, ri),
        apply_result(predicate, key_at(lv, lp, li), key_at(rv, rp, ri)) == (PredResults::Advance {
            left: adv_left,
            right: adv_right,
        }),
    ensures
        merge_state(
            predicate,
            lv,
            lp,
            rv,
            rp,
            pos,
            if adv_left {
                li + 1
            } else {
                li
            },
            if adv_right {
                ri + 1
            } else {
                ri
            },
        ),
{
    lemma_value_order::<T>();
    let li2 = if adv_left {
        li + 1
    } else {
        li
    };
    let ri2 = if adv_right {
        ri + 1
    } else {
        ri
    };
    let l = key_at(lv, lp, li);
    let r = key_at(rv, rp, ri);
    assert forall|a: int, b: int|
        0 <= a < lp.len() && 0 <= b < rp.len() && merge_done((a, b), li2, ri2) && pos_matches(
            predicate,
            lv,
            lp,
            rv,
            rp,
            (a, b),
        ) implies #[trigger] pos.contains((a, b)) by {
        if !merge_done((a, b), li, ri) {
            let ka = key_at(lv, lp, a);
            let kb = key_at(rv, rp, b);
            lemma_ascending_le(lv, lp, li, a);
            lemma_ascending_le(rv, rp, ri, b);
            if adv_left {
                assert(a == li);
            } else {
                assert(b == ri);
            }
            assert(false);
        }
    }
}


/// Whether the merge may rely on its inputs: a total order on keys and both orders ascending.
pub open spec fn merge_inputs_sorted<T: Ord>(
    lv: Seq<Value<T>>,
    lp: Seq<usize>,
    rv: Seq<Value<T>>,
    rp: Seq<usize>,
) -> bool {
    total_order::<T>() && ascending(lv, lp) && ascending(rv, rp)
}

/// Whether the values `a` and `b` are equivalent in the order of values.
fn equiv_values<T: Ord>(a: Value<&T>, b: Value<&T>) -> (r: bool)
    ensures
        total_order::<T>() ==> r == value_equiv(value_deref(a), value_deref(b)),
{
    le_values(a, b) && le_values(b, a)
}

/// Merges two key orders that are ascending by key: returns the pairs `(left index, right index)`
/// whose keys satisfy `predicate`, one pair per matching combination of positions of the orders.
pub fn merge_masked_data<L: DataIndex, R: DataIndex<DType = L::DType>>(
    left_perm: Vec<usize>,
    right_perm: Vec<usize>,
    left_key_data: &L,
    right_key_data: &R,
    predicate: Predicate,
) -> (merged: Vec<(usize, usize)>) where L::DType: Ord
    requires
        indices_in_bounds(left_perm@, left_key_data.values().len()),
        indices_in_bounds(right_perm@, right_key_data.values().len()),
    ensures
        forall|k: int|
            0 <= k < merged@.len() ==> left_perm@.contains((#[trigger] merged@[k]).0)
                && right_perm@.contains(merged@[k].1),
        left_perm@.no_duplicates() && right_perm@.no_duplicates() ==> merged@.no_duplicates(),
        merge_inputs_sorted(left_key_data.values(), left_perm@, right_key_data.values(), right_perm@)
            ==> (forall|k: int|
            0 <= k < merged@.len() ==> pred_holds(
                predicate,
                left_key_data.values()[(#[trigger] merged@[k]).0 as int],
                right_key_data.values()[merged@[k].1 as int],
            )),
        merge_inputs_sorted(left_key_data.values(), left_perm@, right_key_data.values(), right_perm@)
            ==> (forall|a: int, b: int|
            #![trigger key_at(left_key_data.values(), left_perm@, a), key_at(right_key_data.values(), right_perm@, b)]
            0 <= a < left_perm@.len() && 0 <= b < right_perm@.len() && pred_holds(
                predicate,
                key_at(left_key_data.values(), left_perm@, a),
                key_at(right_key_data.values(), right_perm@, b),
            ) ==> merged@.contains((left_perm@[a], right_perm@[b]))),
{
    let ghost lv = left_key_data.values();
    let ghost rv = right_key_data.values();
    let ghost lp = left_perm@;
    let ghost rp = right_perm@;
    let ghost good = merge_inputs_sorted(lv, lp, rv, rp);
    let ln = left_perm.len();
    let rn = right_perm.len();
    let mut left_idx: usize = 0;
    let mut right_idx: usize = 0;
    let mut merged: Vec<(usize, usize)> = Vec::new();
    let ghost mut pos: Seq<(int, int)> = Seq::empty();
    while left_idx < ln && right_idx < rn
        invariant
            ln == lp.len(),
            rn == rp.len(),
            lp == left_perm@,
            rp == right_perm@,
            lv == left_key_data.values(),
            rv == right_key_data.values(),
            good == merge_inputs_sorted(lv, lp, rv, rp),
            indices_in_bounds(lp, lv.len()),
            indices_in_bounds(rp, rv.len()),
            left_idx <= ln,
            right_idx <= rn,
            merged@ == index_pairs(pos, lp, rp),
            merge_shape(pos, ln as int, rn as int, left_idx as int, right_idx as int),
            good ==> merge_state(predicate, lv, lp, rv, rp, pos, left_idx as int, right_idx as int),
        decreases (ln - left_idx) + (rn - right_idx),
    {
        let left_val = datum_or_na(left_key_data, left_perm[left_idx]);
        let right_val = datum_or_na(right_key_data, right_perm[right_idx]);
        let pred_results = predicate.apply(left_val, right_val);
        match pred_results {
            PredResults::Add => {
                let mut left_eq_end = left_idx + 1;
                let mut right_eq_end = right_idx + 1;
                proof {
                    if total_order::<L::DType>() {
                        lemma_value_order::<L::DType>();
                    }
                }
                if predicate.is_equality() {
                    loop
                        invariant
                            left_idx < left_eq_end <= ln,
                            ln == lp.len(),
                            lp == left_perm@,
                            lv == left_key_data.values(),
                            indices_in_bounds(lp, lv.len()),
                            value_deref(left_val) == key_at(lv, lp, left_idx as int),
                            total_order::<L::DType>() ==> forall|x: int|
                                left_idx <= x < left_eq_end ==> value_equiv(
                                    #[trigger] key_at(lv, lp, x),
                                    key_at(lv, lp, left_idx as int),
                                ),
                        ensures
                            left_idx < left_eq_end <= ln,
                            total_order::<L::DType>() ==> equal_run(
                                lv,
                                lp,
                                left_idx as int,
                                left_eq_end as int,
                            ),
                        decreases ln - left_eq_end,
                    {
                        if left_eq_end >= ln {
                            break;
                        }
                        let next = datum_or_na(left_key_data, left_perm[left_eq_end]);
                        if !equiv_values(left_val, next) {
                            proof {
                                if total_order::<L::DType>() {
                                    lemma_value_order::<L::DType>();
                                }
                            }
                            break;
                        }
                        proof {
                            if total_order::<L::DType>() {
                                lemma_value_order::<L::DType>();
                            }
                        }
                        left_eq_end = left_eq_end + 1;
                    }
                    loop
                        invariant
                            right_idx < right_eq_end <= rn,
                            rn == rp.len(),
                            rp == right_perm@,
                            rv == right_key_data.values(),
                            indices_in_bounds(rp, rv.len()),
                            value_deref(right_val) == key_at(rv, rp, right_idx as int),
                            total_order::<L::DType>() ==> forall|x: int|
                                right_idx <= x < right_eq_end ==> value_equiv(
                                    #[trigger] key_at(rv, rp, x),
                                    key_at(rv, rp, right_idx as int),
                                ),
                        ensures
                            right_idx < right_eq_end <= rn,
                            total_order::<L::DType>() ==> equal_run(
                                rv,
                                rp,
                                right_idx as int,
                                right_eq_end as int,
                            ),
                        decreases rn - right_eq_end,
                    {
                        if right_eq_end >= rn {
                            break;
                        }
                        let next = datum_or_na(right_key_data, right_perm[right_eq_end]);
                        if !equiv_values(right_val, next) {
                            proof {
                                if total_order::<L::DType>() {
                                    lemma_value_order::<L::DType>();
                                }
                            }
                            break;
                        }
                        proof {
                            if total_order::<L::DType>() {
                                lemma_value_order::<L::DType>();
                            }
                        }
                        right_eq_end = right_eq_end + 1;
                    }
                }
                // greater-than predicates take the rest of the left values, less-than predicates
                // the rest of the right values
                let left_end = if predicate.is_greater_than() {
                    ln
                } else {
                    left_eq_end
                };
                let right_end = if predicate.is_less_than() {
                    rn
                } else {
                    right_eq_end
                };
                let batch = push_cross(
                    &mut merged,
                    &left_perm,
                    &right_perm,
                    left_idx,
                    left_end,
                    right_idx,
                    right_end,
                );
                let ghost li = left_idx as int;
                let ghost ri = right_idx as int;
                let (new_left, new_right) = match predicate {
                    Predicate::Equal => (left_eq_end, right_eq_end),
                    Predicate::GreaterThanEqual => (left_idx, right_eq_end),
                    Predicate::GreaterThan => (left_idx, right_idx + 1),
                    Predicate::LessThanEqual => (left_eq_end, right_idx),
                    Predicate::LessThan => (left_idx + 1, right_idx),
                };
                proof {
                    if good {
                        lemma_add_step(
                            predicate,
                            lv,
                            lp,
                            rv,
                            rp,
                            pos,
                            batch@,
                            li,
                            ri,
                            left_eq_end as int,
                            right_eq_end as int,
                            left_end as int,
                            right_end as int,
                        );
                    }
                    assert(forall|k: int|
                        0 <= k < batch@.len() ==> merge_done(
                            #[trigger] batch@[k],
                            new_left as int,
                            new_right as int,
                        )) by {
                        assert forall|k: int| 0 <= k < batch@.len() implies merge_done(
                            #[trigger] batch@[k],
                            new_left as int,
                            new_right as int,
                        ) by {
                            assert(in_rect(batch@[k], li, left_end as int, ri, right_end as int));
                        }
                    }
                    lemma_append_shape(
                        pos,
                        batch@,
                        ln as int,
                        rn as int,
                        li,
                        ri,
                        new_left as int,
                        new_right as int,
                        left_end as int,
                        right_end as int,
                    );
                    assert(index_pairs(pos + batch@, lp, rp) =~= index_pairs(pos, lp, rp)
                        + index_pairs(batch@, lp, rp));
                    pos = pos + batch@;
                }
                left_idx = new_left;
                right_idx = new_right;
            },
            PredResults::Advance { left, right } => {
                proof {
                    if good {
                        lemma_advance_step(
                            predicate,
                            lv,
                            lp,
                            rv,
                            rp,
                            pos,
                            left_idx as int,
                            right_idx as int,
                            left,
                            right,
                        );
                    }
                }
                if left {
                    left_idx = left_idx + 1;
                }
                if right {
                    right_idx = right_idx + 1;
                }
            },
        }
    }
    proof {
        lemma_merge_result(predicate, lv, lp, rv, rp, pos, left_idx as int, right_idx as int);
    }
    merged
}

proof fn lemma_merge_result<T: Ord>(
    predicate: Predicate,
    lv: Seq<Value<T>>,
    lp: Seq<usize>,
    rv: Seq<Value<T>>,
    rp: Seq<usize>,
    pos: Seq<(int, int)>,
    li: int,
    ri: int,
)
    requires
        li <= lp.len(),
        ri <= rp.len(),
        li == lp.len() || ri == rp.len(),
        merge_shape(pos, lp.len() as int, rp.len() as int, li, ri),
        merge_inputs_sorted(lv, lp, rv, rp) ==> merge_state(predicate, lv, lp, rv, rp, pos, li, ri),
    ensures
        ({
            let merged = index_pairs(pos, lp, rp);
            &&& forall|k: int|
                0 <= k < merged.len() ==> lp.contains((#[trigger] merged[k]).0) && rp.contains(
                    merged[k].1,
                )
            &&& lp.no_duplicates() && rp.no_duplicates() ==> merged.no_duplicates()
            &&& merge_inputs_sorted(lv, lp, rv, rp) ==> (forall|k: int|
                0 <= k < merged.len() ==> pred_holds(
                    predicate,
                    lv[(#[trigger] merged[k]).0 as int],
                    rv[merged[k].1 as int],
                ))
            &&& merge_inputs_sorted(lv, lp, rv, rp) ==> (forall|a: int, b: int|
                #![trigger key_at(lv, lp, a), key_at(rv, rp, b)]
                0 <= a < lp.len() && 0 <= b < rp.len() && pred_holds(
                    predicate,
                    key_at(lv, lp, a),
                    key_at(rv, rp, b),
                ) ==> merged.contains((lp[a], rp[b])))
        }),
{
    let merged = index_pairs(pos, lp, rp);
    assert forall|k: int| 0 <= k < merged.len() implies lp.contains((#[trigger] merged[k]).0)
        && rp.contains(merged[k].1) by {
        let p = pos[k];
        assert(0 <= p.0 < lp.len() && 0 <= p.1 < rp.len());
        assert(merged[k] == (lp[p.0], rp[p.1]));
    }
    if lp.no_duplicates() && rp.no_duplicates() {
        assert forall|i: int, j: int| 0 <= i < merged.len() && 0 <= j < merged.len() && i != j implies merged[i]
            != merged[j] by {
            let p = pos[i];
            let q = pos[j];
            assert(0 <= p.0 < lp.len() && 0 <= p.1 < rp.len());
            assert(0 <= q.0 < lp.len() && 0 <= q.1 < rp.len());
            assert(p != q);
        }
    }
    if merge_inputs_sorted(lv, lp, rv, rp) {
        assert forall|k: int| 0 <= k < merged.len() implies pred_holds(
            predicate,
            lv[(#[trigger] merged[k]).0 as int],
            rv[merged[k].1 as int],
        ) by {
            assert(pos_matches(predicate, lv, lp, rv, rp, pos[k]));
        }
        assert forall|a: int, b: int|
            0 <= a < lp.len() && 0 <= b < rp.len() && pred_holds(
                predicate,
                key_at(lv, lp, a),
                key_at(rv, rp, b),
            ) implies #[trigger] merged.contains((lp[a], rp[b])) by {
            assert(merge_done((a, b), li, ri));
            assert(pos_matches(predicate, lv, lp, rv, rp, (a, b)));
            assert(pos.contains((a, b)));
            let k = choose|k: int| 0 <= k < pos.len() && pos[k] == (a, b);
            assert(merged[k] == (lp[a], rp[b]));
        }
    }
}


/// Whether a sorted order by `index_le` is ascending by key.
proof fn lemma_sorted_ascending<T: Ord>(vals: Seq<Value<T>>, order: Seq<usize>)
    requires
        sorted_by(order, index_le(vals)),
    ensures
        ascending(vals, order),
{
    assert forall|a: int, b: int| 0 <= a < b < order.len() implies value_le(
        #[trigger] key_at(vals, order, a),
        #[trigger] key_at(vals, order, b),
    ) by {
        assert(index_le(vals)(order[a] as int, order[b] as int));
    }
}

/// Joins two keyed fields with the sort-merge algorithm: returns the pairs `(i, j)` of indices of
/// `left` and `right` whose keys satisfy `predicate`, each pair once.
pub fn sort_merge_join_indices<L: DataIndex, R: DataIndex<DType = L::DType>>(
    left: &L,
    right: &R,
    predicate: Predicate,
) -> (pairs: Vec<(usize, usize)>) where L::DType: Ord
    ensures
        pairs@.no_duplicates(),
        forall|k: int|
            0 <= k < pairs@.len() ==> (#[trigger] pairs@[k]).0 < left.values().len() && pairs@[k].1
                < right.values().len(),
        total_order::<L::DType>() ==> forall|i: usize, j: usize|
            #[trigger] pairs@.contains((i, j)) <==> (i < left.values().len() && j
                < right.values().len() && pred_holds(
                predicate,
                left.values()[i as int],
                right.values()[j as int],
            )),
{
    let left_perm = left.sort_order();
    let right_perm = right.sort_order();
    let ghost lv = left.values();
    let ghost rv = right.values();
    let ghost lp = left_perm@;
    let ghost rp = right_perm@;
    let pairs = merge_masked_data(left_perm, right_perm, left, right, predicate);
    proof {
        lemma_index_permutation_covers(lp, lv.len());
        lemma_index_permutation_covers(rp, rv.len());
        assert forall|k: int| 0 <= k < pairs@.len() implies (#[trigger] pairs@[k]).0 < lv.len()
            && pairs@[k].1 < rv.len() by {
            assert(lp.contains(pairs@[k].0));
            assert(rp.contains(pairs@[k].1));
        }
        if total_order::<L::DType>() {
            lemma_stably_sorted_is_sorted(lp, index_le(lv));
            lemma_stably_sorted_is_sorted(rp, index_le(rv));
            lemma_sorted_ascending(lv, lp);
            lemma_sorted_ascending(rv, rp);
            assert forall|i: usize, j: usize|
                #[trigger] pairs@.contains((i, j)) <==> (i < lv.len() && j < rv.len() && pred_holds(
                    predicate,
                    lv[i as int],
                    rv[j as int],
                )) by {
                if pairs@.contains((i, j)) {
                    let k = choose|k: int| 0 <= k < pairs@.len() && pairs@[k] == (i, j);
                    assert(pred_holds(predicate, lv[pairs@[k].0 as int], rv[pairs@[k].1 as int]));
                    assert(lp.contains(i) && rp.contains(j));
                }
                if i < lv.len() && j < rv.len() && pred_holds(predicate, lv[i as int], rv[j as int]) {
                    assert(lp.contains(i));
                    assert(rp.contains(j));
                    let a = choose|a: int| 0 <= a < lp.len() && lp[a] == i;
                    let b = choose|b: int| 0 <= b < rp.len() && rp[b] == j;
                    assert(key_at(lv, lp, a) == lv[i as int]);
                    assert(key_at(rv, rp, b) == rv[j as int]);
                }
            }
        }
    }
    pairs
}

} // verus!

verus! {

/// Whether `p` answers the join of the keys `lv` and `rv` under `predicate`: distinct pairs of
/// positions in range, and, where the key type is totally ordered, exactly the pairs on which
/// the predicate holds.
pub open spec fn pairs_match<T: Ord>(
    lv: Seq<Value<T>>,
    rv: Seq<Value<T>>,
    predicate: Predicate,
    p: Seq<(usize, usize)>,
) -> bool {
    &&& p.no_duplicates()
    &&& forall|k: int| 0 <= k < p.len() ==> (#[trigger] p[k]).0 < lv.len() && p[k].1 < rv.len()
    &&& total_order::<T>() ==> forall|i: usize, j: usize|
        #[trigger] p.contains((i, j)) <==> (i < lv.len() && j < rv.len() && pred_holds(
            predicate,
            lv[i as int],
            rv[j as int],
        ))
}

/// Whether text `a` is at most text `b` in lexicographic order, characters compared by code
/// point (the order of `String`, whose byte order under UTF-8 is the code point order).
pub open spec fn text_le(a: Seq<char>, b: Seq<char>) -> bool
    decreases a.len(),
{
    if a.len() == 0 {
        true
    } else if b.len() == 0 {
        false
    } else if (a[0] as int) < (b[0] as int) {
        true
    } else if a[0] == b[0] {
        text_le(a.drop_first(), b.drop_first())
    } else {
        false
    }
}

/// Whether text value `a` is at most text value `b`: missing values come first, texts are
/// compared by `text_le`.
pub open spec fn text_value_le(a: Value<String>, b: Value<String>) -> bool {
    match (a, b) {
        (Value::Na, _) => true,
        (Value::Exists(_), Value::Na) => false,
        (Value::Exists(x), Value::Exists(y)) => text_le(x@, y@),
    }
}

/// Whether the comparison of `predicate` holds between text values `left` and `right`, in the
/// order `text_value_le`.
pub open spec fn text_pred_holds(predicate: Predicate, left: Value<String>, right: Value<String>) -> bool {
    match predicate {
        Predicate::Equal => text_value_le(left, right) && text_value_le(right, left),
        Predicate::LessThan => text_value_le(left, right) && !text_value_le(right, left),
        Predicate::LessThanEqual => text_value_le(left, right),
        Predicate::GreaterThan => text_value_le(right, left) && !text_value_le(left, right),
        Predicate::GreaterThanEqual => text_value_le(right, left),
    }
}

/// Whether `p` answers the join of the text keys `lv` and `rv` under `predicate`: distinct pairs
/// of positions, exactly those on which the predicate holds.
pub open spec fn text_pairs_match(
    lv: Seq<Value<String>>,
    rv: Seq<Value<String>>,
    predicate: Predicate,
    p: Seq<(usize, usize)>,
) -> bool {
    &&& p.no_duplicates()
    &&& forall|k: int| 0 <= k < p.len() ==> (#[trigger] p[k]).0 < lv.len() && p[k].1 < rv.len()
    &&& forall|i: usize, j: usize|
        #[trigger] p.contains((i, j)) <==> (i < lv.len() && j < rv.len() && text_pred_holds(
            predicate,
            lv[i as int],
            rv[j as int],
        ))
}

/// Every text is at most itself.
pub proof fn lemma_text_le_reflexive(a: Seq<char>)
    ensures
        text_le(a, a),
    decreases a.len(),
{
    if a.len() > 0 {
        lemma_text_le_reflexive(a.drop_first());
    }
}

/// The text order is antisymmetric: two texts each at most the other are the same text.
pub proof fn lemma_text_le_antisymmetric(a: Seq<char>, b: Seq<char>)
    requires
        text_le(a, b),
        text_le(b, a),
    ensures
        a == b,
    decreases a.len(),
{
    if a.len() == 0 {
        assert(b.len() == 0);
        assert(a =~= b);
    } else {
        assert(b.len() > 0);
        assert(a[0] == b[0]);
        lemma_text_le_antisymmetric(a.drop_first(), b.drop_first());
        assert forall|i: int| 0 <= i < a.len() implies #[trigger] a[i] == b[i] by {
            if i > 0 {
                assert(a[i] == a.drop_first()[i - 1]);
                assert(b[i] == b.drop_first()[i - 1]);
            }
        }
        assert(a =~= b);
    }
}

/// The text order is total: of two texts, one is at most the other.
pub proof fn lemma_text_le_total(a: Seq<char>, b: Seq<char>)
    ensures
        text_le(a, b) || text_le(b, a),
    decreases a.len(),
{
    if a.len() > 0 && b.len() > 0 {
        if a[0] == b[0] {
            lemma_text_le_total(a.drop_first(), b.drop_first());
        } else {
            assert((a[0] as int) != (b[0] as int));
        }
    }
}

/// The text order is transitive.
pub proof fn lemma_text_le_transitive(a: Seq<char>, b: Seq<char>, c: Seq<char>)
    requires
        text_le(a, b),
        text_le(b, c),
    ensures
        text_le(a, c),
    decreases a.len(),
{
    if a.len() > 0 && b.len() > 0 && c.len() > 0 && a[0] == b[0] && b[0] == c[0] {
        lemma_text_le_transitive(a.drop_first(), b.drop_first(), c.drop_first());
    }
}

/// The text order is lexicographic: `a` is at most `b` exactly when `a` is a prefix of `b`, or
/// at the first position where they differ the character of `a` has the smaller code point.
pub proof fn lemma_text_le_lexicographic(a: Seq<char>, b: Seq<char>)
    ensures
        text_le(a, b) <==> (a.len() <= b.len() && a =~= b.take(a.len() as int)) || exists|i: int|
            0 <= i < a.len() && i < b.len() && a.take(i) =~= b.take(i) && (a[i] as int) < (
            #[trigger] b[i] as int),
    decreases a.len(),
{
    if a.len() == 0 {
        assert(a =~= b.take(0));
    } else if b.len() == 0 {
    } else {
        let a1 = a.drop_first();
        let b1 = b.drop_first();
        lemma_text_le_lexicographic(a1, b1);
        if (a[0] as int) < (b[0] as int) {
            assert(a.take(0) =~= b.take(0));
            assert(text_le(a, b));
        } else if a[0] == b[0] {
            // the prefix case
            if a1.len() <= b1.len() && a1 =~= b1.take(a1.len() as int) {
                assert(a =~= b.take(a.len() as int)) by {
                    assert forall|k: int| 0 <= k < a.len() implies #[trigger] a[k] == b.take(a.len() as int)[k] by {
                        if k > 0 {
                            assert(a[k] == a1[k - 1]);
                            assert(b[k] == b1[k - 1]);
                        }
                    }
                }
            }
            if a.len() <= b.len() && a =~= b.take(a.len() as int) {
                assert(a1 =~= b1.take(a1.len() as int)) by {
                    assert forall|k: int| 0 <= k < a1.len() implies #[trigger] a1[k] == b1.take(a1.len() as int)[k] by {
                        assert(a1[k] == a[k + 1]);
                        assert(b1[k] == b[k + 1]);
                        assert(a[k + 1] == b.take(a.len() as int)[k + 1]);
                    }
                }
            }
            // the first-difference case
            if exists|i: int|
                0 <= i < a1.len() && i < b1.len() && a1.take(i) =~= b1.take(i) && (a1[i] as int) < (
                #[trigger] b1[i] as int) {
                let i = choose|i: int|
                    0 <= i < a1.len() && i < b1.len() && a1.take(i) =~= b1.take(i) && (a1[i] as int)
                        < (#[trigger] b1[i] as int);
                assert(a.take(i + 1) =~= b.take(i + 1)) by {
                    assert forall|k: int| 0 <= k < i + 1 implies #[trigger] a.take(i + 1)[k] == b.take(i + 1)[k] by {
                        if k > 0 {
                            assert(a[k] == a1[k - 1]);
                            assert(b[k] == b1[k - 1]);
                            assert(a1.take(i)[k - 1] == b1.take(i)[k - 1]);
                        }
                    }
                }
                assert(a[i + 1] == a1[i] && b[i + 1] == b1[i]);
            }
            if exists|i: int|
                0 <= i < a.len() && i < b.len() && a.take(i) =~= b.take(i) && (a[i] as int) < (
                #[trigger] b[i] as int) {
                let i = choose|i: int|
                    0 <= i < a.len() && i < b.len() && a.take(i) =~= b.take(i) && (a[i] as int) < (
                    #[trigger] b[i] as int);
                assert(i > 0);
                assert(a1.take(i - 1) =~= b1.take(i - 1)) by {
                    assert forall|k: int| 0 <= k < i - 1 implies #[trigger] a1.take(i - 1)[k] == b1.take(i - 1)[k] by {
                        assert(a1[k] == a[k + 1]);
                        assert(b1[k] == b[k + 1]);
                        assert(a.take(i)[k + 1] == b.take(i)[k + 1]);
                    }
                }
                assert(a1[i - 1] == a[i] && b1[i - 1] == b[i]);
            }
        } else {
            // the first characters differ, the right one smaller
            assert(!(a.len() <= b.len() && a =~= b.take(a.len() as int))) by {
                if a.len() <= b.len() && a =~= b.take(a.len() as int) {
                    assert(a[0] == b.take(a.len() as int)[0]);
                }
            }
            if exists|i: int|
                0 <= i < a.len() && i < b.len() && a.take(i) =~= b.take(i) && (a[i] as int) < (
                #[trigger] b[i] as int) {
                let i = choose|i: int|
                    0 <= i < a.len() && i < b.len() && a.take(i) =~= b.take(i) && (a[i] as int) < (
                    #[trigger] b[i] as int);
                if i > 0 {
                    assert(a.take(i)[0] == b.take(i)[0]);
                }
            }
        }
    }
}

/// A text that is a proper prefix of another is strictly smaller.
pub proof fn lemma_text_proper_prefix_smaller(a: Seq<char>, b: Seq<char>)
    requires
        a.len() < b.len(),
        a =~= b.take(a.len() as int),
    ensures
        text_le(a, b),
        !text_le(b, a),
{
    lemma_text_le_lexicographic(a, b);
    if text_le(b, a) {
        lemma_text_le_antisymmetric(a, b);
    }
}

/// For text keys, `Equal` holds between two existing texts exactly when they are the same text,
/// and between two missing values; it is symmetric.
pub proof fn lemma_text_equal_is_equality(predicate: Predicate, x: String, y: String)
    requires
        predicate == Predicate::Equal,
    ensures
        text_pred_holds(predicate, Value::Exists(x), Value::Exists(y)) <==> x@ == y@,
        text_pred_holds(predicate, Value::<String>::Na, Value::<String>::Na),
        !text_pred_holds(predicate, Value::<String>::Na, Value::Exists(y)),
        !text_pred_holds(predicate, Value::Exists(x), Value::<String>::Na),
        text_pred_holds(predicate, Value::Exists(x), Value::Exists(y)) == text_pred_holds(
            predicate,
            Value::Exists(y),
            Value::Exists(x),
        ),
{
    if text_le(x@, y@) && text_le(y@, x@) {
        lemma_text_le_antisymmetric(x@, y@);
    }
    if x@ == y@ {
        lemma_text_le_reflexive(x@);
    }
}

/// For text keys, the predicates relate as comparisons do: `<=` is `<` or `==`, `>` and `>=` are
/// `<` and `<=` with the sides swapped, exactly one of `<`, `==`, `>` holds, and `<=` holds of a
/// text and itself.
pub proof fn lemma_text_predicates_relate(l: Value<String>, r: Value<String>, x: String)
    ensures
        text_pred_holds(Predicate::LessThanEqual, l, r) <==> (text_pred_holds(
            Predicate::LessThan,
            l,
            r,
        ) || text_pred_holds(Predicate::Equal, l, r)),
        text_pred_holds(Predicate::GreaterThan, l, r) == text_pred_holds(Predicate::LessThan, r, l),
        text_pred_holds(Predicate::GreaterThanEqual, l, r) == text_pred_holds(
            Predicate::LessThanEqual,
            r,
            l,
        ),
        !(text_pred_holds(Predicate::LessThan, l, r) && text_pred_holds(Predicate::Equal, l, r)),
        !(text_pred_holds(Predicate::LessThan, l, r) && text_pred_holds(Predicate::GreaterThan, l, r)),
        text_pred_holds(Predicate::LessThan, l, r) || text_pred_holds(Predicate::Equal, l, r)
            || text_pred_holds(Predicate::GreaterThan, l, r),
        text_pred_holds(Predicate::LessThanEqual, Value::Exists(x), Value::Exists(x)),
        text_pred_holds(Predicate::GreaterThanEqual, Value::Exists(x), Value::Exists(x)),
        !text_pred_holds(Predicate::LessThan, Value::Exists(x), Value::Exists(x)),
{
    lemma_text_le_reflexive(x@);
    match (l, r) {
        (Value::Exists(a), Value::Exists(b)) => lemma_text_le_total(a@, b@),
        _ => {},
    }
}

/// A text equijoin pairs exactly the positions whose keys are the same: both missing, or both
/// the same text.
pub proof fn lemma_text_equijoin_pairs_equal_keys(
    lv: Seq<Value<String>>,
    rv: Seq<Value<String>>,
    p: Seq<(usize, usize)>,
    i: usize,
    j: usize,
)
    requires
        text_pairs_match(lv, rv, Predicate::Equal, p),
    ensures
        p.contains((i, j)) <==> (i < lv.len() && j < rv.len() && match (lv[i as int], rv[j as int]) {
            (Value::Na, Value::Na) => true,
            (Value::Exists(x), Value::Exists(y)) => x@ == y@,
            _ => false,
        }),
{
    if i < lv.len() && j < rv.len() {
        match (lv[i as int], rv[j as int]) {
            (Value::Exists(x), Value::Exists(y)) => lemma_text_equal_is_equality(Predicate::Equal, x, y),
            _ => {},
        }
    }
}

/// Returns whether text `a` is at most text `b` (see `text_le`).
fn text_at_most(a: &String, b: &String) -> (r: bool)
    ensures
        r == text_le(a@, b@),
{
    let sa = a.as_str();
    let sb = b.as_str();
    let n = sa.unicode_len();
    let m = sb.unicode_len();
    let mut i: usize = 0;
    assert(a@.skip(0) =~= a@);
    assert(b@.skip(0) =~= b@);
    while i < n
        invariant
            n == a@.len(),
            m == b@.len(),
            sa@ == a@,
            sb@ == b@,
            i <= n,
            i <= m,
            text_le(a@, b@) == text_le(a@.skip(i as int), b@.skip(i as int)),
        decreases n - i,
    {
        if i == m {
            return false;
        }
        let ca = sa.get_char(i);
        let cb = sb.get_char(i);
        if ca < cb {
            return true;
        }
        if ca != cb {
            return false;
        }
        proof {
            assert(a@.skip(i as int).drop_first() =~= a@.skip(i + 1));
            assert(b@.skip(i as int).drop_first() =~= b@.skip(i + 1));
        }
        i = i + 1;
    }
    true
}

/// Returns whether the comparison of `predicate` holds between text values `l` and `r`.
fn text_pred(predicate: Predicate, l: &Value<String>, r: &Value<String>) -> (b: bool)
    ensures
        b == text_pred_holds(predicate, *l, *r),
{
    let le = match (l, r) {
        (Value::Na, _) => true,
        (Value::Exists(_), Value::Na) => false,
        (Value::Exists(x), Value::Exists(y)) => text_at_most(x, y),
    };
    let ge = match (r, l) {
        (Value::Na, _) => true,
        (Value::Exists(_), Value::Na) => false,
        (Value::Exists(x), Value::Exists(y)) => text_at_most(x, y),
    };
    match predicate {
        Predicate::Equal => le && ge,
        Predicate::LessThan => le && !ge,
        Predicate::LessThanEqual => le,
        Predicate::GreaterThan => ge && !le,
        Predicate::GreaterThanEqual => ge,
    }
}

/// Whether pair `x` comes strictly before pair `y`, first by left position, then by right.
pub open spec fn pair_before(x: (usize, usize), y: (usize, usize)) -> bool {
    x.0 < y.0 || (x.0 == y.0 && x.1 < y.1)
}

/// Computes the pairs of positions of the text keys `l` and `r` that satisfy `predicate`, by
/// comparing every left key with every right key.
fn text_pairs(l: &FieldData<String>, r: &FieldData<String>, predicate: Predicate) -> (p: Vec<
    (usize, usize),
>)
    ensures
        text_pairs_match(l.spec_values(), r.spec_values(), predicate, p@),
{
    let ghost lv = l.spec_values();
    let ghost rv = r.spec_values();
    let n = l.len();
    let m = r.len();
    let mut p: Vec<(usize, usize)> = Vec::new();
    let mut i: usize = 0;
    while i < n
        invariant
            n == lv.len(),
            m == rv.len(),
            lv == l.spec_values(),
            rv == r.spec_values(),
            i <= n,
            forall|a: int, b: int| 0 <= a < b < p@.len() ==> pair_before(#[trigger] p@[a], #[trigger] p@[b]),
            forall|k: int| 0 <= k < p@.len() ==> (#[trigger] p@[k]).0 < i && p@[k].1 < m,
            forall|x: usize, y: usize|
                #[trigger] p@.contains((x, y)) <==> (x < i && y < m && text_pred_holds(
                    predicate,
                    lv[x as int],
                    rv[y as int],
                )),
        decreases n - i,
    {
        let mut j: usize = 0;
        while j < m
            invariant
                n == lv.len(),
                m == rv.len(),
                lv == l.spec_values(),
                rv == r.spec_values(),
                i < n,
                j <= m,
                forall|a: int, b: int| 0 <= a < b < p@.len() ==> pair_before(#[trigger] p@[a], #[trigger] p@[b]),
                forall|k: int|
                    0 <= k < p@.len() ==> pair_before(#[trigger] p@[k], (i, j)) && p@[k].1 < m,
                forall|x: usize, y: usize|
                    #[trigger] p@.contains((x, y)) <==> ((x < i || (x == i && y < j)) && y < m
                        && text_pred_holds(predicate, lv[x as int], rv[y as int])),
            decreases m - j,
        {
            let ghost prev = p@;
            if text_pred(predicate, l.value_at(i), r.value_at(j)) {
                p.push((i, j));
                proof {
                    assert forall|x: usize, y: usize| #[trigger] p@.contains((x, y)) <==> ((x < i || (x
                        == i && y < j + 1)) && y < m && text_pred_holds(
                        predicate,
                        lv[x as int],
                        rv[y as int],
                    )) by {
                        if p@.contains((x, y)) {
                            let k = choose|k: int| 0 <= k < p@.len() && p@[k] == (x, y);
                            if k < prev.len() {
                                assert(prev.contains((x, y)));
                            }
                        }
                        if (x < i || (x == i && y < j)) && y < m && text_pred_holds(
                            predicate,
                            lv[x as int],
                            rv[y as int],
                        ) {
                            assert(prev.contains((x, y)));
                            let k = choose|k: int| 0 <= k < prev.len() && prev[k] == (x, y);
                            assert(p@[k] == (x, y));
                        }
                        if x == i && y == j {
                            assert(p@[prev.len() as int] == (x, y));
                        }
                    }
                }
            } else {
                proof {
                    assert forall|x: usize, y: usize| #[trigger] p@.contains((x, y)) <==> ((x < i || (x
                        == i && y < j + 1)) && y < m && text_pred_holds(
                        predicate,
                        lv[x as int],
                        rv[y as int],
                    )) by {
                        if p@.contains((x, y)) {
                            let k = choose|k: int| 0 <= k < p@.len() && p@[k] == (x, y);
                            assert(pair_before(p@[k], (i, j)));
                        }
                    }
                }
            }
            j = j + 1;
        }
        i = i + 1;
    }
    proof {
        assert forall|a: int, b: int| 0 <= a < p@.len() && 0 <= b < p@.len() && a != b implies p@[a]
            != p@[b] by {
            if a < b {
                assert(pair_before(p@[a], p@[b]));
            } else {
                assert(pair_before(p@[b], p@[a]));
            }
        }
    }
    p
}

/// The rank of a boolean in the order of booleans, `false` before `true`.
pub open spec fn bool_rank(b: bool) -> u64 {
    if b {
        1
    } else {
        0
    }
}

/// The boolean values `s` as their ranks (see `bool_rank`), missing values kept missing.
pub open spec fn bools_as_ranks(s: Seq<Value<bool>>) -> Seq<Value<u64>> {
    s.map_values(
        |v: Value<bool>|
            match v {
                Value::Na => Value::Na,
                Value::Exists(b) => Value::Exists(bool_rank(b)),
            },
    )
}

/// Returns the ranks of the boolean values of `c` (see `bools_as_ranks`).
fn rank_bools(c: &FieldData<bool>) -> (r: FieldData<u64>)
    ensures
        r.spec_values() == bools_as_ranks(c.spec_values()),
{
    let mut out: FieldData<u64> = FieldData::new();
    let mut i: usize = 0;
    while i < c.len()
        invariant
            i <= c.spec_values().len(),
            out.spec_values() == bools_as_ranks(c.spec_values().take(i as int)),
        decreases c.spec_values().len() - i,
    {
        let v: Value<u64> = match c.value_at(i) {
            Value::Na => Value::Na,
            Value::Exists(b) => Value::Exists(if *b { 1 } else { 0 }),
        };
        out.push(v);
        proof {
            assert(bools_as_ranks(c.spec_values().take(i + 1)) =~= bools_as_ranks(
                c.spec_values().take(i as int),
            ).push(v));
        }
        i = i + 1;
    }
    proof {
        assert(c.spec_values().take(c.spec_values().len() as int) =~= c.spec_values());
    }
    out
}

/// Whether `p` answers the join of the key columns `l` and `r`, of one type, under `predicate`.
pub open spec fn key_pairs_match<F: Ord>(
    l: ColumnValues<F>,
    r: ColumnValues<F>,
    predicate: Predicate,
    p: Seq<(usize, usize)>,
) -> bool {
    match (l, r) {
        (ColumnValues::Unsigned(a), ColumnValues::Unsigned(b)) => pairs_match(a, b, predicate, p),
        (ColumnValues::Signed(a), ColumnValues::Signed(b)) => pairs_match(a, b, predicate, p),
        (ColumnValues::Text(a), ColumnValues::Text(b)) => text_pairs_match(a, b, predicate, p),
        (ColumnValues::Boolean(a), ColumnValues::Boolean(b)) => pairs_match(
            bools_as_ranks(a),
            bools_as_ranks(b),
            predicate,
            p,
        ),
        (ColumnValues::Float(a), ColumnValues::Float(b)) => pairs_match(a, b, predicate, p),
        _ => false,
    }
}

/// Computes the pairs of positions of the key columns `l` and `r`, of one type, that satisfy
/// `predicate`.
fn key_pairs<F: Ord + std::fmt::Debug>(
    l: TypedFieldData<F>,
    r: TypedFieldData<F>,
    predicate: Predicate,
) -> (p: Vec<(usize, usize)>)
    requires
        column_type(typed_data_values(l)) == column_type(typed_data_values(r)),
    ensures
        key_pairs_match(typed_data_values(l), typed_data_values(r), predicate, p@),
        forall|k: int|
            0 <= k < p@.len() ==> (#[trigger] p@[k]).0 < column_len(typed_data_values(l)) && p@[k].1
                < column_len(typed_data_values(r)),
{
    match (l, r) {
        (TypedFieldData::Unsigned(a), TypedFieldData::Unsigned(b)) => sort_merge_join_indices(a, b, predicate),
        (TypedFieldData::Signed(a), TypedFieldData::Signed(b)) => sort_merge_join_indices(a, b, predicate),
        (TypedFieldData::Text(a), TypedFieldData::Text(b)) => text_pairs(a, b, predicate),
        (TypedFieldData::Boolean(a), TypedFieldData::Boolean(b)) => {
            let ra = rank_bools(a);
            let rb = rank_bools(b);
            sort_merge_join_indices(&ra, &rb, predicate)
        },
        (TypedFieldData::Float(a), TypedFieldData::Float(b)) => sort_merge_join_indices(a, b, predicate),
        _ => Vec::new(),
    }
}

/// A row of a join: the position of its left row and, where there is one, of its right row.
pub type JoinRow = (Option<usize>, Option<usize>);

/// The left positions of the rows `rows`.
pub open spec fn lefts(rows: Seq<JoinRow>) -> Seq<Option<usize>> {
    rows.map_values(|x: JoinRow| x.0)
}

/// The right positions of the rows `rows`.
pub open spec fn rights(rows: Seq<JoinRow>) -> Seq<Option<usize>> {
    rows.map_values(|x: JoinRow| x.1)
}

/// The rows of an inner join on the pairs `p`: one row per pair.
pub open spec fn inner_rows(p: Seq<(usize, usize)>) -> Seq<JoinRow> {
    p.map_values(|x: (usize, usize)| (Some(x.0), Some(x.1)))
}

/// The left positions below `n` that are in none of the pairs `p`, in increasing order.
pub open spec fn unmatched(p: Seq<(usize, usize)>, n: nat) -> Seq<usize>
    decreases n,
{
    if n == 0 {
        Seq::empty()
    } else {
        let prev = unmatched(p, (n - 1) as nat);
        if exists|k: int| 0 <= k < p.len() && (#[trigger] p[k]).0 == n - 1 {
            prev
        } else {
            prev.push((n - 1) as usize)
        }
    }
}

/// The rows of a left outer join on the pairs `p` of a left side of `n` rows: one row per pair,
/// then one row without a right row for each left row in no pair, in increasing order.
pub open spec fn outer_rows(p: Seq<(usize, usize)>, n: nat) -> Seq<JoinRow> {
    inner_rows(p) + unmatched(p, n).map_values(|i: usize| (Some(i), None::<usize>))
}

/// The rows of the cartesian product of `n` left rows and `m` right rows: for each left row in
/// order, one row with each right row in order.
pub open spec fn cross_rows(n: nat, m: nat) -> Seq<JoinRow>
    decreases n,
{
    if n == 0 {
        Seq::empty()
    } else {
        cross_rows((n - 1) as nat, m) + Seq::new(m, |j: int| (Some((n - 1) as usize), Some(j as usize)))
    }
}

/// Whether a right field named `name` is left out of a join that skips `skip`.
pub open spec fn skipped(name: Seq<char>, skip: Option<String>) -> bool {
    skip matches Some(s) && name == s@
}

/// The positions of the fields of `right` that a join skipping `skip` keeps, in order.
pub open spec fn kept_right(right: Seq<(String, ViewField)>, skip: Option<String>) -> Seq<int>
    decreases right.len(),
{
    if right.len() == 0 {
        Seq::empty()
    } else {
        let prev = kept_right(right.drop_last(), skip);
        if skipped(right.last().0@, skip) {
            prev
        } else {
            prev.push(right.len() - 1)
        }
    }
}

/// The positions that `kept_right` keeps are in range.
proof fn lemma_kept_right_bounds(right: Seq<(String, ViewField)>, skip: Option<String>)
    ensures
        forall|m: int|
            0 <= m < kept_right(right, skip).len() ==> 0 <= #[trigger] kept_right(right, skip)[m]
                < right.len(),
    decreases right.len(),
{
    if right.len() > 0 {
        let prev = kept_right(right.drop_last(), skip);
        lemma_kept_right_bounds(right.drop_last(), skip);
        assert forall|m: int| 0 <= m < kept_right(right, skip).len() implies 0
            <= #[trigger] kept_right(right, skip)[m] < right.len() by {
            if m < prev.len() {
                assert(kept_right(right, skip)[m] == prev[m]);
            }
        }
    }
}

/// The right fields that a join keeps are exactly those whose name is not the skipped name.
pub proof fn lemma_kept_right_exactly(right: Seq<(String, ViewField)>, skip: Option<String>)
    ensures
        forall|i: int|
            0 <= i < right.len() ==> (#[trigger] kept_right(right, skip).contains(i) <==> !(
            skip is Some && right[i].0@ == skip->0@)),
    decreases right.len(),
{
    if right.len() > 0 {
        let prev_right = right.drop_last();
        let prev = kept_right(prev_right, skip);
        lemma_kept_right_exactly(prev_right, skip);
        lemma_kept_right_bounds(prev_right, skip);
        let cur = kept_right(right, skip);
        assert forall|i: int| 0 <= i < right.len() implies (#[trigger] cur.contains(i) <==> !(
        skip is Some && right[i].0@ == skip->0@)) by {
            let last = right.len() - 1;
            if i < last {
                assert(right[i] == prev_right[i]);
                if prev.contains(i) {
                    let m = choose|m: int| 0 <= m < prev.len() && prev[m] == i;
                    assert(cur[m] == i);
                }
                if cur.contains(i) {
                    let m = choose|m: int| 0 <= m < cur.len() && cur[m] == i;
                    if m < prev.len() {
                        assert(prev[m] == i);
                    } else {
                        assert(cur[m] == last);
                    }
                }
            } else {
                if !(skip is Some && right[i].0@ == skip->0@) {
                    assert(cur[prev.len() as int] == i);
                } else if cur.contains(i) {
                    let m = choose|m: int| 0 <= m < cur.len() && cur[m] == i;
                    assert(prev[m] < prev_right.len());
                }
            }
        }
    }
}

/// Whether `ds` holds the join of `left` and `right` on the rows `rows`, leaving out the right
/// field named `skip`: the fields of `left` in order, then the kept fields of `right`, each
/// holding the values of its field at the rows' positions on its side (missing where a row has
/// no position on that side), and no other column.
pub open spec fn joined_store<F: std::fmt::Debug>(
    ds: DataStore<F>,
    left: DataView<F>,
    right: DataView<F>,
    skip: Option<String>,
    rows: Seq<JoinRow>,
) -> bool {
    let kept = kept_right(right.fields_seq(), skip);
    &&& ds.wf()
    &&& ds.columns_registered()
    &&& ds.column_count() == left.fields_seq().len() + kept.len()
    &&& ds.all_columns_len(rows.len())
    &&& field_names(ds.fields@) == left.fields_seq().map_values(|f: (String, ViewField)| f.0@) + kept.map_values(
        |k: int| right.fields_seq()[k].0@,
    )
    &&& forall|k: int|
        0 <= k < left.fields_seq().len() ==> ds.spec_column((#[trigger] left.fields_seq()[k]).0@) == Some(
            pick_column(left.field_column(k), lefts(rows)),
        )
    &&& forall|m: int|
        0 <= m < kept.len() ==> ds.spec_column(right.fields_seq()[#[trigger] kept[m]].0@) == Some(
            pick_column(right.field_column(kept[m]), rights(rows)),
        )
}

/// A joined store keeps every right field whose name is not the skipped name: it holds a field
/// of that name, with the right field's values at the rows' right positions.
pub proof fn lemma_joined_store_keeps_right_fields<F: std::fmt::Debug>(
    ds: DataStore<F>,
    left: DataView<F>,
    right: DataView<F>,
    skip: Option<String>,
    rows: Seq<JoinRow>,
    i: int,
)
    requires
        joined_store(ds, left, right, skip, rows),
        0 <= i < right.fields_seq().len(),
        !(skip is Some && right.fields_seq()[i].0@ == skip->0@),
    ensures
        field_names(ds.fields@).contains(right.fields_seq()[i].0@),
        ds.spec_column(right.fields_seq()[i].0@) == Some(
            pick_column(right.field_column(i), rights(rows)),
        ),
{
    let kept = kept_right(right.fields_seq(), skip);
    lemma_kept_right_exactly(right.fields_seq(), skip);
    assert(kept.contains(i));
    let m = choose|m: int| 0 <= m < kept.len() && kept[m] == i;
    let lnames = left.fields_seq().map_values(|f: (String, ViewField)| f.0@);
    assert(field_names(ds.fields@)[lnames.len() + m] == right.fields_seq()[i].0@);
}

/// Returns the left positions of the rows `rows`.
fn row_lefts(rows: &Vec<JoinRow>) -> (r: Vec<Option<usize>>)
    ensures
        r@ == lefts(rows@),
{
    let mut r: Vec<Option<usize>> = Vec::new();
    let mut i: usize = 0;
    while i < rows.len()
        invariant
            i <= rows@.len(),
            r@ == lefts(rows@.take(i as int)),
        decreases rows@.len() - i,
    {
        r.push(rows[i].0);
        proof {
            assert(lefts(rows@.take(i + 1)) =~= lefts(rows@.take(i as int)).push(rows@[i as int].0));
        }
        i = i + 1;
    }
    proof {
        assert(rows@.take(rows@.len() as int) =~= rows@);
    }
    r
}

/// Returns the right positions of the rows `rows`.
fn row_rights(rows: &Vec<JoinRow>) -> (r: Vec<Option<usize>>)
    ensures
        r@ == rights(rows@),
{
    let mut r: Vec<Option<usize>> = Vec::new();
    let mut i: usize = 0;
    while i < rows.len()
        invariant
            i <= rows@.len(),
            r@ == rights(rows@.take(i as int)),
        decreases rows@.len() - i,
    {
        r.push(rows[i].1);
        proof {
            assert(rights(rows@.take(i + 1)) =~= rights(rows@.take(i as int)).push(rows@[i as int].1));
        }
        i = i + 1;
    }
    proof {
        assert(rows@.take(rows@.len() as int) =~= rows@);
    }
    r
}

/// Builds the join of `left` and `right` on the rows `rows`, leaving out the right field named
/// `skip`: each field gets the values of its source field at the rows' positions on its side.
fn build_joined<F: Copy + std::fmt::Debug>(
    left: &DataView<F>,
    right: &DataView<F>,
    skip: &Option<String>,
    rows: &Vec<JoinRow>,
) -> (ds: DataStore<F>)
    requires
        left.wf(),
        right.wf(),
        forall|k: int|
            0 <= k < left.fields_seq().len() ==> positions_below(
                lefts(rows@),
                column_len(#[trigger] left.field_column(k)),
            ),
        forall|k: int|
            0 <= k < right.fields_seq().len() ==> positions_below(
                rights(rows@),
                column_len(#[trigger] right.field_column(k)),
            ),
        forall|k: int, i: int|
            0 <= k < left.fields_seq().len() && 0 <= i < right.fields_seq().len() && !skipped(
                right.fields_seq()[i].0@,
                *skip,
            ) ==> (#[trigger] left.fields_seq()[k]).0@ != (#[trigger] right.fields_seq()[i]).0@,
    ensures
        joined_store(ds, *left, *right, *skip, rows@),
{
    let firsts_v = row_lefts(rows);
    let seconds_v = row_rights(rows);
    let mut ds: DataStore<F> = DataStore::empty();
    let ghost lnames = left.fields_seq().map_values(|f: (String, ViewField)| f.0@);
    let mut k: usize = 0;
    let nl = fields_len(&left.fields);
    while k < nl
        invariant
            left.wf(),
            forall|j: int|
                0 <= j < left.fields_seq().len() ==> positions_below(
                    lefts(rows@),
                    column_len(#[trigger] left.field_column(j)),
                ),
            firsts_v@ == lefts(rows@),
            nl == left.fields_seq().len(),
            lnames == left.fields_seq().map_values(|f: (String, ViewField)| f.0@),
            k <= left.fields_seq().len(),
            ds.wf(),
            ds.columns_registered(),
            ds.column_count() == k,
            ds.all_columns_len(rows@.len()),
            field_names(ds.fields@) == lnames.take(k as int),
            forall|j: int|
                0 <= j < k ==> ds.spec_column((#[trigger] left.fields_seq()[j]).0@) == Some(
                    pick_column(left.field_column(j), lefts(rows@)),
                ),
        decreases left.fields_seq().len() - k,
    {
        let d = left.viewfield_data(k);
        proof {
            assert(positions_below(lefts(rows@), column_len(left.field_column(k as int))));
        }
        let col = gather(d, &firsts_v);
        let (key, _) = fields_get_index(&left.fields, k).unwrap();
        let name = key.clone();
        proof {
            assert forall|c: int| 0 <= c < ds.fields@.len() implies (
            #[trigger] ds.fields@[c]).ty_ident.ident@ != name@ by {
                assert(field_names(ds.fields@).len() == ds.fields@.len());
                assert(field_names(ds.fields@)[c] == ds.fields@[c].ty_ident.ident@);
                assert(lnames.take(k as int)[c] == left.fields_seq()[c].0@);
                assert(left.fields_seq()[c].0@ != left.fields_seq()[k as int].0@);
            }
        }
        ds.append_column(name, col);
        proof {
            assert(lnames.take(k + 1) =~= lnames.take(k as int).push(name@));
            assert forall|j: int| 0 <= j < k + 1 implies ds.spec_column(
                (#[trigger] left.fields_seq()[j]).0@,
            ) == Some(pick_column(left.field_column(j), lefts(rows@))) by {
                if j < k {
                    assert(left.fields_seq()[j].0@ != left.fields_seq()[k as int].0@);
                }
            }
        }
        k = k + 1;
    }
    proof {
        assert(lnames.take(left.fields_seq().len() as int) =~= lnames);
    }
    let mut k: usize = 0;
    let nr = fields_len(&right.fields);
    while k < nr
        invariant
            left.wf(),
            right.wf(),
            forall|j: int|
                0 <= j < right.fields_seq().len() ==> positions_below(
                    rights(rows@),
                    column_len(#[trigger] right.field_column(j)),
                ),
            forall|j: int, i: int|
                0 <= j < left.fields_seq().len() && 0 <= i < right.fields_seq().len() && !skipped(
                    right.fields_seq()[i].0@,
                    *skip,
                ) ==> (#[trigger] left.fields_seq()[j]).0@ != (#[trigger] right.fields_seq()[i]).0@,
            seconds_v@ == rights(rows@),
            nr == right.fields_seq().len(),
            lnames == left.fields_seq().map_values(|f: (String, ViewField)| f.0@),
            k <= right.fields_seq().len(),
            ds.wf(),
            ds.columns_registered(),
            ds.column_count() == left.fields_seq().len() + kept_right(right.fields_seq().take(k as int), *skip).len(),
            ds.all_columns_len(rows@.len()),
            field_names(ds.fields@) == lnames + kept_right(right.fields_seq().take(k as int), *skip).map_values(
                |i: int| right.fields_seq()[i].0@,
            ),
            forall|j: int|
                0 <= j < left.fields_seq().len() ==> ds.spec_column((#[trigger] left.fields_seq()[j]).0@)
                    == Some(pick_column(left.field_column(j), lefts(rows@))),
            forall|m: int|
                0 <= m < kept_right(right.fields_seq().take(k as int), *skip).len() ==> ds.spec_column(
                    right.fields_seq()[#[trigger] kept_right(right.fields_seq().take(k as int), *skip)[m]].0@,
                ) == Some(
                    pick_column(
                        right.field_column(kept_right(right.fields_seq().take(k as int), *skip)[m]),
                        rights(rows@),
                    ),
                ),
        decreases right.fields_seq().len() - k,
    {
        let ghost kept = kept_right(right.fields_seq().take(k as int), *skip);
        proof {
            assert(right.fields_seq().take(k + 1).drop_last() =~= right.fields_seq().take(k as int));
            assert(right.fields_seq().take(k + 1).last() == right.fields_seq()[k as int]);
            lemma_kept_right_bounds(right.fields_seq().take(k as int), *skip);
        }
        let is_skipped = match skip {
            Some(s) => {
                let (key, _) = fields_get_index(&right.fields, k).unwrap();
                *key == *s
            },
            None => false,
        };
        if !is_skipped {
            let d = right.viewfield_data(k);
            proof {
                assert(positions_below(rights(rows@), column_len(right.field_column(k as int))));
            }
            let col = gather(d, &seconds_v);
            let (key, _) = fields_get_index(&right.fields, k).unwrap();
            let name = key.clone();
            proof {
                assert forall|c: int| 0 <= c < ds.fields@.len() implies (
                #[trigger] ds.fields@[c]).ty_ident.ident@ != name@ by {
                    assert(field_names(ds.fields@).len() == ds.fields@.len());
                    assert(field_names(ds.fields@)[c] == ds.fields@[c].ty_ident.ident@);
                    if c < lnames.len() {
                        assert(lnames[c] == left.fields_seq()[c].0@);
                        assert(left.fields_seq()[c].0@ != right.fields_seq()[k as int].0@);
                    } else {
                        let m = c - lnames.len();
                        assert(field_names(ds.fields@)[c] == right.fields_seq()[kept[m]].0@);
                        assert(kept[m] < k);
                        assert(right.fields_seq()[kept[m]].0@ != right.fields_seq()[k as int].0@);
                    }
                }
            }
            ds.append_column(name, col);
            proof {
                let kept2 = kept_right(right.fields_seq().take(k + 1), *skip);
                assert(kept2 == kept.push(k as int));
                assert(lnames + kept2.map_values(|i: int| right.fields_seq()[i].0@) =~= (lnames
                    + kept.map_values(|i: int| right.fields_seq()[i].0@)).push(name@));
                assert forall|j: int| 0 <= j < left.fields_seq().len() implies ds.spec_column(
                    (#[trigger] left.fields_seq()[j]).0@,
                ) == Some(pick_column(left.field_column(j), lefts(rows@))) by {
                    assert(left.fields_seq()[j].0@ != right.fields_seq()[k as int].0@);
                }
                assert forall|m: int| 0 <= m < kept2.len() implies ds.spec_column(
                    right.fields_seq()[#[trigger] kept2[m]].0@,
                ) == Some(pick_column(right.field_column(kept2[m]), rights(rows@))) by {
                    if m < kept.len() {
                        assert(kept2[m] == kept[m]);
                        assert(kept[m] < k);
                        assert(right.fields_seq()[kept[m]].0@ != right.fields_seq()[k as int].0@);
                    }
                }
            }
        } else {
            proof {
                let kept2 = kept_right(right.fields_seq().take(k + 1), *skip);
                assert(kept2 == kept);
            }
        }
        k = k + 1;
    }
    proof {
        assert(right.fields_seq().take(right.fields_seq().len() as int) =~= right.fields_seq());
    }
    ds
}


/// Returns the rows of an inner join on the pairs `p`.
fn inner_rows_of(p: &Vec<(usize, usize)>) -> (rows: Vec<JoinRow>)
    ensures
        rows@ == inner_rows(p@),
{
    let mut rows: Vec<JoinRow> = Vec::new();
    let mut i: usize = 0;
    while i < p.len()
        invariant
            i <= p@.len(),
            rows@ == inner_rows(p@.take(i as int)),
        decreases p@.len() - i,
    {
        rows.push((Some(p[i].0), Some(p[i].1)));
        proof {
            assert(inner_rows(p@.take(i + 1)) =~= inner_rows(p@.take(i as int)).push(
                (Some(p@[i as int].0), Some(p@[i as int].1)),
            ));
        }
        i = i + 1;
    }
    proof {
        assert(p@.take(p@.len() as int) =~= p@);
    }
    rows
}

/// The positions that `unmatched` lists are below `n`.
proof fn lemma_unmatched_bounds(p: Seq<(usize, usize)>, n: nat)
    ensures
        forall|k: int| 0 <= k < unmatched(p, n).len() ==> #[trigger] unmatched(p, n)[k] < n,
    decreases n,
{
    if n > 0 {
        let prev = unmatched(p, (n - 1) as nat);
        lemma_unmatched_bounds(p, (n - 1) as nat);
        assert forall|k: int| 0 <= k < unmatched(p, n).len() implies #[trigger] unmatched(p, n)[k]
            < n by {
            if k < prev.len() {
                assert(unmatched(p, n)[k] == prev[k]);
            }
        }
    }
}

/// Returns the rows of a left outer join on the pairs `p` of a left side of `n` rows.
fn outer_rows_of(p: &Vec<(usize, usize)>, n: usize) -> (rows: Vec<JoinRow>)
    requires
        forall|k: int| 0 <= k < p@.len() ==> (#[trigger] p@[k]).0 < n,
    ensures
        rows@ == outer_rows(p@, n as nat),
{
    let mut matched: Vec<bool> = Vec::new();
    let mut i: usize = 0;
    while i < n
        invariant
            i <= n,
            matched@.len() == i,
            forall|j: int| 0 <= j < i ==> !(#[trigger] matched@[j]),
        decreases n - i,
    {
        matched.push(false);
        i = i + 1;
    }
    let mut t: usize = 0;
    while t < p.len()
        invariant
            t <= p@.len(),
            matched@.len() == n,
            forall|k: int| 0 <= k < p@.len() ==> (#[trigger] p@[k]).0 < n,
            forall|j: int|
                0 <= j < n ==> (#[trigger] matched@[j] <==> exists|k: int|
                    0 <= k < t && (#[trigger] p@[k]).0 == j),
        decreases p@.len() - t,
    {
        let pos = p[t].0;
        matched.set(pos, true);
        proof {
            assert forall|j: int| 0 <= j < n implies (#[trigger] matched@[j] <==> exists|k: int|
                0 <= k < t + 1 && (#[trigger] p@[k]).0 == j) by {
                if j == pos as int {
                    assert(p@[t as int].0 == j);
                }
            }
        }
        t = t + 1;
    }
    let mut rows = inner_rows_of(p);
    let mut i: usize = 0;
    while i < n
        invariant
            i <= n,
            matched@.len() == n,
            forall|j: int|
                0 <= j < n ==> (#[trigger] matched@[j] <==> exists|k: int|
                    0 <= k < p@.len() && (#[trigger] p@[k]).0 == j),
            rows@ == inner_rows(p@) + unmatched(p@, i as nat).map_values(
                |x: usize| (Some(x), None::<usize>),
            ),
        decreases n - i,
    {
        let ghost prev = rows@;
        if !matched[i] {
            rows.push((Some(i), None));
            proof {
                assert(!exists|k: int| 0 <= k < p@.len() && (#[trigger] p@[k]).0 == i);
                assert(unmatched(p@, (i + 1) as nat) == unmatched(p@, i as nat).push(i));
                assert(rows@ =~= inner_rows(p@) + unmatched(p@, (i + 1) as nat).map_values(
                    |x: usize| (Some(x), None::<usize>),
                ));
            }
        } else {
            proof {
                assert(exists|k: int| 0 <= k < p@.len() && (#[trigger] p@[k]).0 == i);
                assert(unmatched(p@, (i + 1) as nat) == unmatched(p@, i as nat));
            }
        }
        i = i + 1;
    }
    rows
}

/// The positions in the rows of a cartesian product are in range.
proof fn lemma_cross_rows_bounds(n: nat, m: nat)
    ensures
        positions_below(lefts(cross_rows(n, m)), n),
        positions_below(rights(cross_rows(n, m)), m),
    decreases n,
{
    if n > 0 {
        let prev = cross_rows((n - 1) as nat, m);
        let cur = cross_rows(n, m);
        lemma_cross_rows_bounds((n - 1) as nat, m);
        assert forall|k: int| 0 <= k < lefts(cur).len() implies (#[trigger] lefts(cur)[k] matches Some(
            i,
        ) ==> i < n) by {
            if k < prev.len() {
                assert(cur[k] == prev[k]);
                assert(lefts(prev)[k] == prev[k].0);
            }
        }
        assert forall|k: int| 0 <= k < rights(cur).len() implies (#[trigger] rights(cur)[k] matches Some(
            j,
        ) ==> j < m) by {
            if k < prev.len() {
                assert(cur[k] == prev[k]);
                assert(rights(prev)[k] == prev[k].1);
            }
        }
    }
}

/// Returns the rows of the cartesian product of `n` left rows and `m` right rows.
fn cross_rows_of(n: usize, m: usize) -> (rows: Vec<JoinRow>)
    ensures
        rows@ == cross_rows(n as nat, m as nat),
{
    let mut rows: Vec<JoinRow> = Vec::new();
    let mut i: usize = 0;
    while i < n
        invariant
            i <= n,
            rows@ == cross_rows(i as nat, m as nat),
        decreases n - i,
    {
        let ghost base = rows@;
        let mut j: usize = 0;
        while j < m
            invariant
                i < n,
                j <= m,
                rows@ == base + Seq::new(j as nat, |jj: int| (Some(i), Some(jj as usize))),
            decreases m - j,
        {
            rows.push((Some(i), Some(j)));
            proof {
                assert(rows@ =~= base + Seq::new((j + 1) as nat, |jj: int| (Some(i), Some(jj as usize))));
            }
            j = j + 1;
        }
        proof {
            assert(cross_rows((i + 1) as nat, m as nat) =~= base + Seq::new(
                m as nat,
                |jj: int| (Some(i), Some(jj as usize)),
            ));
        }
        i = i + 1;
    }
    rows
}

/// A right field whose name is among the left fields' is among the collisions.
proof fn lemma_collisions_contain(
    left: Seq<(String, ViewField)>,
    right: Seq<(String, ViewField)>,
    i: int,
)
    requires
        0 <= i < right.len(),
        crate::view::has_name(left, right[i].0@),
    ensures
        collisions(left, right).contains(right[i].0),
    decreases right.len(),
{
    let prev = collisions(left, right.drop_last());
    if i < right.len() - 1 {
        assert(right.drop_last()[i] == right[i]);
        lemma_collisions_contain(left, right.drop_last(), i);
        let c = choose|c: int| 0 <= c < prev.len() && prev[c] == right[i].0;
        assert(collisions(left, right)[c] == prev[c]);
    } else {
        assert(collisions(left, right) == prev.push(right.last().0));
        assert(collisions(left, right)[prev.len() as int] == right[i].0);
    }
}

/// Whether `ds` is an empty store.
pub open spec fn is_empty_store<F: std::fmt::Debug>(ds: DataStore<F>) -> bool {
    &&& ds.wf()
    &&& ds.fields@.len() == 0
    &&& ds.unsigned@.len() == 0
    &&& ds.signed@.len() == 0
    &&& ds.text@.len() == 0
    &&& ds.boolean@.len() == 0
    &&& ds.float@.len() == 0
}

/// Whether a join of a left key of `ln` values and a right key of `rn` values, of kind `kind`,
/// gives an empty store: the left key is empty, or the right key is, except for a left outer
/// join, which keeps every left row.
pub open spec fn empty_join(kind: JoinKind, ln: nat, rn: nat) -> bool {
    ln == 0 || (rn == 0 && !(kind is Outer))
}

/// The outcome of joining `left` and `right` by `join`, once its key fields are found at
/// positions `a` and `b`: a type mismatch of the keys is an error; an empty join gives an empty
/// store; colliding field names other than a shared join field are an error; otherwise the
/// joined store on the rows that the join kind gives: one per pair of key positions that answer
/// the join (inner), those followed by one row for each left row in no pair, with missing
/// right values (left outer), or every left row with every right row (cross).
pub open spec fn join_outcome<F: Ord + std::fmt::Debug>(
    left: DataView<F>,
    right: DataView<F>,
    join: Join,
    a: int,
    b: int,
    r: Result<DataStore<F>, AgnesError>,
) -> bool {
    let lk = left.field_column(a);
    let rk = right.field_column(b);
    let coll = collisions(left.fields_seq(), right.fields_seq());
    let shared = only_join_field_collides(coll, Some(&join));
    let skip = if shared {
        Some(join.right_field)
    } else {
        None
    };
    if column_type(lk) != column_type(rk) {
        r matches Err(AgnesError::TypeMismatch(_))
    } else if empty_join(join.kind, column_len(lk), column_len(rk)) {
        r matches Ok(ds) && is_empty_store(ds)
    } else if !shared && coll.len() != 0 {
        r matches Err(AgnesError::FieldCollision(v)) && v@ == coll
    } else {
        r matches Ok(ds) && match join.kind {
            JoinKind::Inner => exists|p: Seq<(usize, usize)>|
                key_pairs_match(lk, rk, join.predicate, p) && joined_store(
                    ds,
                    left,
                    right,
                    skip,
                    inner_rows(p),
                ),
            JoinKind::Outer => exists|p: Seq<(usize, usize)>|
                key_pairs_match(lk, rk, join.predicate, p) && joined_store(
                    ds,
                    left,
                    right,
                    skip,
                    outer_rows(p, column_len(lk)),
                ),
            JoinKind::Cross => joined_store(
                ds,
                left,
                right,
                skip,
                cross_rows(column_len(lk), column_len(rk)),
            ),
        }
    }
}

/// Whether joining `left` and `right` by `join` builds a joined store: both key fields are
/// found, of one type, the join is not empty, and no names collide but a shared join field.
pub open spec fn join_builds<F: std::fmt::Debug>(
    left: DataView<F>,
    right: DataView<F>,
    join: Join,
) -> bool {
    match (left.view_field_index(join.left_field@), right.view_field_index(join.right_field@)) {
        (Some(a), Some(b)) => {
            let lk = left.field_column(a);
            let rk = right.field_column(b);
            let coll = collisions(left.fields_seq(), right.fields_seq());
            &&& column_type(lk) == column_type(rk)
            &&& !empty_join(join.kind, column_len(lk), column_len(rk))
            &&& (only_join_field_collides(coll, Some(&join)) || coll.len() == 0)
        },
        _ => false,
    }
}

/// Returns whether two typed columns are of one type.
fn same_type<F>(l: &TypedFieldData<F>, r: &TypedFieldData<F>) -> (b: bool)
    ensures
        b == (column_type(typed_data_values(*l)) == column_type(typed_data_values(*r))),
{
    match (l, r) {
        (TypedFieldData::Unsigned(_), TypedFieldData::Unsigned(_)) => true,
        (TypedFieldData::Signed(_), TypedFieldData::Signed(_)) => true,
        (TypedFieldData::Text(_), TypedFieldData::Text(_)) => true,
        (TypedFieldData::Boolean(_), TypedFieldData::Boolean(_)) => true,
        (TypedFieldData::Float(_), TypedFieldData::Float(_)) => true,
        _ => false,
    }
}

/// Returns the number of values of a typed column.
fn typed_len<F: std::fmt::Debug>(d: &TypedFieldData<F>) -> (n: usize)
    ensures
        n == column_len(typed_data_values(*d)),
{
    match d {
        TypedFieldData::Unsigned(c) => c.len(),
        TypedFieldData::Signed(c) => c.len(),
        TypedFieldData::Text(c) => c.len(),
        TypedFieldData::Boolean(c) => c.len(),
        TypedFieldData::Float(c) => c.len(),
    }
}

/// Joins two views with a sort-merge join on the fields named by `join`. An inner join holds,
/// for each pair of a left row and a right row whose key values satisfy the join predicate, the
/// left row's values followed by the right row's; a left outer join also keeps each left row
/// that has no such right row, with missing values on the right; a cross join pairs every left
/// row with every right row. The right join field is left out where both sides join on a field
/// of the same name. Keys are compared by their type's order; booleans order `false` first, and
/// texts lexicographically by code point (see `text_le`), comparing every left key with every
/// right key.
pub fn sort_merge_join<F: Ord + Copy + std::fmt::Debug>(
    left: &DataView<F>,
    right: &DataView<F>,
    join: &Join,
) -> (r: Result<DataStore<F>, AgnesError>)
    requires
        left.wf(),
        right.wf(),
        join_builds(*left, *right, *join) ==> left.covers(join.left_field@) && right.covers(
            join.right_field@,
        ),
    ensures
        left.view_field_index(join.left_field@) is None ==> (r matches Err(
            AgnesError::FieldNotFound(n),
        ) && n@ == join.left_field@),
        left.view_field_index(join.left_field@) is Some && right.view_field_index(
            join.right_field@,
        ) is None ==> (r matches Err(AgnesError::FieldNotFound(n)) && n@ == join.right_field@),
        left.view_field_index(join.left_field@) is Some && right.view_field_index(join.right_field@)
            is Some ==> join_outcome(
            *left,
            *right,
            *join,
            left.view_field_index(join.left_field@).unwrap(),
            right.view_field_index(join.right_field@).unwrap(),
            r,
        ),
{
    let lkey = match left.get_field_data(&join.left_field) {
        Some(d) => d,
        None => {
            return Err(AgnesError::FieldNotFound(join.left_field.clone()));
        },
    };
    let rkey = match right.get_field_data(&join.right_field) {
        Some(d) => d,
        None => {
            return Err(AgnesError::FieldNotFound(join.right_field.clone()));
        },
    };
    let ghost a = left.view_field_index(join.left_field@).unwrap();
    let ghost b = right.view_field_index(join.right_field@).unwrap();
    if !same_type(&lkey, &rkey) {
        return Err(AgnesError::TypeMismatch("unable to join on fields of different types".to_string()));
    }
    let ln = typed_len(&lkey);
    let rn = typed_len(&rkey);
    let is_outer = match join.kind {
        JoinKind::Outer => true,
        _ => false,
    };
    if ln == 0 || (rn == 0 && !is_outer) {
        return Ok(DataStore::empty());
    }
    let (_, mapping) = compute_merged_stores(&left.store_ids, &right.store_ids);
    let right_skip = match compute_merged_field_list(&left.fields, &right.fields, &mapping, Some(join)) {
        Ok((_, skip)) => skip,
        Err(e) => {
            return Err(e);
        },
    };
    let ghost mut pairs: Seq<(usize, usize)> = Seq::empty();
    let rows = match join.kind {
        JoinKind::Inner => {
            let p = key_pairs(lkey, rkey, join.predicate);
            proof {
                pairs = p@;
            }
            inner_rows_of(&p)
        },
        JoinKind::Outer => {
            let p = key_pairs(lkey, rkey, join.predicate);
            proof {
                pairs = p@;
            }
            outer_rows_of(&p, ln)
        },
        JoinKind::Cross => cross_rows_of(ln, rn),
    };
    proof {
        let lk = left.field_column(a);
        let rk = right.field_column(b);
        assert(join_builds(*left, *right, *join));
        assert(left.covers(join.left_field@) && right.covers(join.right_field@));
        let lpos = lefts(rows@);
        let rpos = rights(rows@);
        match join.kind {
            JoinKind::Inner => {
                assert forall|q: int| 0 <= q < lpos.len() implies (#[trigger] lpos[q] matches Some(i)
                    ==> i < ln) by {
                    assert(rows@[q] == (Some(pairs[q].0), Some(pairs[q].1)));
                }
                assert forall|q: int| 0 <= q < rpos.len() implies (#[trigger] rpos[q] matches Some(j)
                    ==> j < rn) by {
                    assert(rows@[q] == (Some(pairs[q].0), Some(pairs[q].1)));
                }
            },
            JoinKind::Outer => {
                lemma_unmatched_bounds(pairs, ln as nat);
                let ip = inner_rows(pairs);
                let um = unmatched(pairs, ln as nat);
                assert forall|q: int| 0 <= q < lpos.len() implies (#[trigger] lpos[q] matches Some(i)
                    ==> i < ln) by {
                    if q < ip.len() {
                        assert(rows@[q] == (Some(pairs[q].0), Some(pairs[q].1)));
                    } else {
                        assert(rows@[q] == (Some(um[q - ip.len()]), None::<usize>));
                    }
                }
                assert forall|q: int| 0 <= q < rpos.len() implies (#[trigger] rpos[q] matches Some(j)
                    ==> j < rn) by {
                    if q < ip.len() {
                        assert(rows@[q] == (Some(pairs[q].0), Some(pairs[q].1)));
                    } else {
                        assert(rows@[q] == (Some(um[q - ip.len()]), None::<usize>));
                    }
                }
            },
            JoinKind::Cross => {
                lemma_cross_rows_bounds(ln as nat, rn as nat);
            },
        }
        assert forall|k: int| 0 <= k < left.fields_seq().len() implies positions_below(
            lpos,
            column_len(#[trigger] left.field_column(k)),
        ) by {
            assert(column_len(left.field_column(k)) >= column_len(left.field_column(a)));
            assert forall|q: int| 0 <= q < lpos.len() implies (#[trigger] lpos[q] matches Some(i) ==> i
                < column_len(left.field_column(k))) by {}
        }
        assert forall|k: int| 0 <= k < right.fields_seq().len() implies positions_below(
            rpos,
            column_len(#[trigger] right.field_column(k)),
        ) by {
            assert(column_len(right.field_column(k)) >= column_len(right.field_column(b)));
            assert forall|q: int| 0 <= q < rpos.len() implies (#[trigger] rpos[q] matches Some(j) ==> j
                < column_len(right.field_column(k))) by {}
        }
        assert forall|k: int, i: int|
            0 <= k < left.fields_seq().len() && 0 <= i < right.fields_seq().len() && !skipped(
                right.fields_seq()[i].0@,
                right_skip,
            ) implies (#[trigger] left.fields_seq()[k]).0@ != (#[trigger] right.fields_seq()[i]).0@ by {
            if left.fields_seq()[k].0@ == right.fields_seq()[i].0@ {
                lemma_collisions_contain(left.fields_seq(), right.fields_seq(), i);
            }
        }
        if join.kind is Inner || join.kind is Outer {
            assert(key_pairs_match(lk, rk, join.predicate, pairs));
        }
    }
    let ds = build_joined(left, right, &right_skip, &rows);
    Ok(ds)
}

} // verus!
