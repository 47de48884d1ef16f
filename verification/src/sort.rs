//! Stable sorting of index orders under a total preorder given by an oracle.
use vstd::prelude::*;

verus! {

/// Whether `order` lists each index `0..n` exactly once.
pub open spec fn is_index_permutation(order: Seq<usize>, n: nat) -> bool {
    &&& order.len() == n
    &&& order.no_duplicates()
    &&& forall|k: int| 0 <= k < order.len() ==> #[trigger] order[k] < n
}

/// Whether `le` is a total preorder on the indices `0..n`.
pub open spec fn total_preorder(le: spec_fn(int, int) -> bool, n: nat) -> bool {
    &&& forall|i: int, j: int| 0 <= i < n && 0 <= j < n ==> #[trigger] le(i, j) || #[trigger] le(j, i)
    &&& forall|i: int, j: int, k: int|
        0 <= i < n && 0 <= j < n && 0 <= k < n && #[trigger] le(i, j) && #[trigger] le(j, k) ==> le(i, k)
}

/// Index `i` comes before index `j` in the stable order by `le`: its key is strictly smaller, or
/// the keys are equivalent and `i` is the smaller index.
pub open spec fn stably_before(le: spec_fn(int, int) -> bool, i: int, j: int) -> bool {
    le(i, j) && (!le(j, i) || i < j)
}

/// Whether `order` is sorted stably by `le`: every index comes before every later one.
pub open spec fn stably_sorted(order: Seq<usize>, le: spec_fn(int, int) -> bool) -> bool {
    forall|a: int, b: int|
        0 <= a < b < order.len() ==> stably_before(le, #[trigger] order[a] as int, #[trigger] order[b] as int)
}

/// Whether `order` is sorted by `le` (not necessarily stably): no key is followed by a strictly
/// smaller one.
pub open spec fn sorted_by(order: Seq<usize>, le: spec_fn(int, int) -> bool) -> bool {
    forall|a: int, b: int|
        0 <= a < b < order.len() ==> le(#[trigger] order[a] as int, #[trigger] order[b] as int)
}

/// Whether the oracle `le_fn` answers, for indices below `n`, exactly as the relation `le`.
pub open spec fn oracle_agrees<F: Fn(usize, usize) -> bool>(
    le_fn: F,
    le: spec_fn(int, int) -> bool,
    n: nat,
) -> bool {
    forall|i: usize, j: usize, r: bool|
        i < n && j < n && #[trigger] call_ensures(le_fn, (i, j), r) ==> r == le(i as int, j as int)
}

/// A stable sort is in particular a sort.
pub proof fn lemma_stably_sorted_is_sorted(order: Seq<usize>, le: spec_fn(int, int) -> bool)
    requires
        stably_sorted(order, le),
    ensures
        sorted_by(order, le),
{
    assert forall|a: int, b: int| 0 <= a < b < order.len() implies le(
        #[trigger] order[a] as int,
        #[trigger] order[b] as int,
    ) by {
        assert(stably_before(le, order[a] as int, order[b] as int));
    }
}

/// Whether `s` lists each index of `lo..hi` exactly once.
pub open spec fn is_range_permutation(s: Seq<usize>, lo: int, hi: int) -> bool {
    &&& s.len() == hi - lo
    &&& s.no_duplicates()
    &&& forall|k: int| 0 <= k < s.len() ==> lo <= #[trigger] s[k] < hi
}

/// Returns the order of the indices `0..n` sorted stably by the oracle `le_fn`, which tells
/// whether the key of its first index is at most the key of its second. Whatever the oracle
/// answers, the result lists each index once; when it answers as a total preorder `le`, the
/// result is the stable sort by `le`.
pub fn stable_sort_indices<F: Fn(usize, usize) -> bool>(
    n: usize,
    le_fn: F,
    Ghost(le): Ghost<spec_fn(int, int) -> bool>,
) -> (order: Vec<usize>)
    requires
        forall|i: usize, j: usize| i < n && j < n ==> #[trigger] call_requires(le_fn, (i, j)),
    ensures
        is_index_permutation(order@, n as nat),
        oracle_agrees(le_fn, le, n as nat) && total_preorder(le, n as nat) ==> stably_sorted(
            order@,
            le,
        ),
{
    if n == 0 {
        return Vec::new();
    }
    let order = sort_range(0, n, &le_fn, Ghost(le), Ghost(n as nat));
    order
}

/// Whether every element of `out` is one of the first `i` of `l` or the first `j` of `r`.
pub open spec fn from_runs(out: Seq<usize>, l: Seq<usize>, r: Seq<usize>, i: int, j: int) -> bool {
    forall|k: int|
        0 <= k < out.len() ==> (exists|a: int| 0 <= a < i && l[a] == #[trigger] out[k]) || (exists|b: int|
            0 <= b < j && r[b] == out[k])
}

proof fn lemma_merge_take_left(
    l: Seq<usize>,
    r: Seq<usize>,
    out: Seq<usize>,
    i: int,
    j: int,
    lo: int,
    mid: int,
    hi: int,
    le: spec_fn(int, int) -> bool,
    n: nat,
    good: bool,
)
    requires
        0 <= lo <= mid <= hi <= n,
        is_range_permutation(l, lo, mid),
        is_range_permutation(r, mid, hi),
        0 <= i < l.len(),
        0 <= j <= r.len(),
        out.len() == i + j,
        out.no_duplicates(),
        from_runs(out, l, r, i, j),
        good ==> total_preorder(le, n),
        good ==> stably_sorted(l, le) && stably_sorted(r, le),
        good ==> stably_sorted(out, le),
        good ==> forall|k: int, a: int|
            0 <= k < out.len() && i <= a < l.len() ==> stably_before(
                le,
                #[trigger] out[k] as int,
                #[trigger] l[a] as int,
            ),
        good ==> forall|k: int, b: int|
            0 <= k < out.len() && j <= b < r.len() ==> stably_before(
                le,
                #[trigger] out[k] as int,
                #[trigger] r[b] as int,
            ),
        good && j < r.len() ==> le(l[i] as int, r[j] as int),
    ensures
        ({
            let out2 = out.push(l[i]);
            &&& out2.no_duplicates()
            &&& from_runs(out2, l, r, i + 1, j)
            &&& good ==> stably_sorted(out2, le)
            &&& good ==> forall|k: int, a: int|
                0 <= k < out2.len() && i + 1 <= a < l.len() ==> stably_before(
                    le,
                    #[trigger] out2[k] as int,
                    #[trigger] l[a] as int,
                )
            &&& good ==> forall|k: int, b: int|
                0 <= k < out2.len() && j <= b < r.len() ==> stably_before(
                    le,
                    #[trigger] out2[k] as int,
                    #[trigger] r[b] as int,
                )
        }),
{
    let x = l[i];
    let out2 = out.push(x);
    assert forall|k: int| 0 <= k < out.len() implies out[k] != x by {
        if exists|a: int| 0 <= a < i && l[a] == #[trigger] out[k] {
            let a = choose|a: int| 0 <= a < i && l[a] == out[k];
            assert(l[a] != l[i]);
        } else {
            let b = choose|b: int| 0 <= b < j && r[b] == out[k];
            assert(mid <= r[b]);
        }
    }
    assert forall|p: int, q: int| 0 <= p < out2.len() && 0 <= q < out2.len() && p != q implies out2[p]
        != out2[q] by {
        if p < out.len() && q < out.len() {
            assert(out[p] != out[q]);
        }
    }
    assert forall|k: int|
        0 <= k < out2.len() implies (exists|a: int| 0 <= a < i + 1 && l[a] == #[trigger] out2[k])
        || (exists|b: int| 0 <= b < j && r[b] == out2[k]) by {
        if k < out.len() {
            assert(out2[k] == out[k]);
        } else {
            assert(l[i] == out2[k]);
        }
    }
    if good {
        assert forall|a: int| i + 1 <= a < l.len() implies stably_before(le, x as int, #[trigger] l[a] as int) by {
            assert(stably_before(le, l[i] as int, l[a] as int));
        }
        assert forall|b: int| j <= b < r.len() implies stably_before(le, x as int, #[trigger] r[b] as int) by {
            assert(lo <= x < mid && mid <= r[b] < hi);
            if b > j {
                assert(stably_before(le, r[j] as int, r[b] as int));
                assert(le(x as int, r[j] as int) && le(r[j] as int, r[b] as int));
            }
        }
        assert forall|p: int, q: int| 0 <= p < q < out2.len() implies stably_before(
            le,
            #[trigger] out2[p] as int,
            #[trigger] out2[q] as int,
        ) by {
            if q < out.len() {
                assert(out2[p] == out[p] && out2[q] == out[q]);
            } else {
                assert(out2[p] == out[p]);
                assert(stably_before(le, out[p] as int, l[i] as int));
            }
        }
        assert forall|k: int, a: int|
            0 <= k < out2.len() && i + 1 <= a < l.len() implies stably_before(
            le,
            #[trigger] out2[k] as int,
            #[trigger] l[a] as int,
        ) by {
            if k < out.len() {
                assert(out2[k] == out[k]);
            }
        }
        assert forall|k: int, b: int|
            0 <= k < out2.len() && j <= b < r.len() implies stably_before(
            le,
            #[trigger] out2[k] as int,
            #[trigger] r[b] as int,
        ) by {
            if k < out.len() {
                assert(out2[k] == out[k]);
            }
        }
    }
}

proof fn lemma_merge_take_right(
    l: Seq<usize>,
    r: Seq<usize>,
    out: Seq<usize>,
    i: int,
    j: int,
    lo: int,
    mid: int,
    hi: int,
    le: spec_fn(int, int) -> bool,
    n: nat,
    good: bool,
)
    requires
        0 <= lo <= mid <= hi <= n,
        is_range_permutation(l, lo, mid),
        is_range_permutation(r, mid, hi),
        0 <= i <= l.len(),
        0 <= j < r.len(),
        out.len() == i + j,
        out.no_duplicates(),
        from_runs(out, l, r, i, j),
        good ==> total_preorder(le, n),
        good ==> stably_sorted(l, le) && stably_sorted(r, le),
        good ==> stably_sorted(out, le),
        good ==> forall|k: int, a: int|
            0 <= k < out.len() && i <= a < l.len() ==> stably_before(
                le,
                #[trigger] out[k] as int,
                #[trigger] l[a] as int,
            ),
        good ==> forall|k: int, b: int|
            0 <= k < out.len() && j <= b < r.len() ==> stably_before(
                le,
                #[trigger] out[k] as int,
                #[trigger] r[b] as int,
            ),
        good && i < l.len() ==> !le(l[i] as int, r[j] as int),
    ensures
        ({
            let out2 = out.push(r[j]);
            &&& out2.no_duplicates()
            &&& from_runs(out2, l, r, i, j + 1)
            &&& good ==> stably_sorted(out2, le)
            &&& good ==> forall|k: int, a: int|
                0 <= k < out2.len() && i <= a < l.len() ==> stably_before(
                    le,
                    #[trigger] out2[k] as int,
                    #[trigger] l[a] as int,
                )
            &&& good ==> forall|k: int, b: int|
                0 <= k < out2.len() && j + 1 <= b < r.len() ==> stably_before(
                    le,
                    #[trigger] out2[k] as int,
                    #[trigger] r[b] as int,
                )
        }),
{
    let y = r[j];
    let out2 = out.push(y);
    assert forall|k: int| 0 <= k < out.len() implies out[k] != y by {
        if exists|a: int| 0 <= a < i && l[a] == #[trigger] out[k] {
            let a = choose|a: int| 0 <= a < i && l[a] == out[k];
            assert(l[a] < mid);
        } else {
            let b = choose|b: int| 0 <= b < j && r[b] == out[k];
            assert(r[b] != r[j]);
        }
    }
    assert forall|p: int, q: int| 0 <= p < out2.len() && 0 <= q < out2.len() && p != q implies out2[p]
        != out2[q] by {
        if p < out.len() && q < out.len() {
            assert(out[p] != out[q]);
        }
    }
    assert forall|k: int|
        0 <= k < out2.len() implies (exists|a: int| 0 <= a < i && l[a] == #[trigger] out2[k]) || (
        exists|b: int| 0 <= b < j + 1 && r[b] == out2[k]) by {
        if k < out.len() {
            assert(out2[k] == out[k]);
        } else {
            assert(r[j] == out2[k]);
        }
    }
    if good {
        assert forall|b: int| j + 1 <= b < r.len() implies stably_before(le, y as int, #[trigger] r[b] as int) by {
            assert(stably_before(le, r[j] as int, r[b] as int));
        }
        assert forall|a: int| i <= a < l.len() implies stably_before(le, y as int, #[trigger] l[a] as int) by {
            assert(lo <= l[a] < mid && mid <= y < hi);
            assert(le(l[i] as int, y as int) || le(y as int, l[i] as int));
            if a > i {
                assert(stably_before(le, l[i] as int, l[a] as int));
                assert(le(y as int, l[i] as int) && le(l[i] as int, l[a] as int));
                if le(l[a] as int, y as int) {
                    assert(le(l[i] as int, l[a] as int) && le(l[a] as int, y as int));
                    assert(le(l[i] as int, y as int));
                }
            }
        }
        assert forall|p: int, q: int| 0 <= p < q < out2.len() implies stably_before(
            le,
            #[trigger] out2[p] as int,
            #[trigger] out2[q] as int,
        ) by {
            if q < out.len() {
                assert(out2[p] == out[p] && out2[q] == out[q]);
            } else {
                assert(out2[p] == out[p]);
                assert(stably_before(le, out[p] as int, r[j] as int));
            }
        }
        assert forall|k: int, a: int|
            0 <= k < out2.len() && i <= a < l.len() implies stably_before(
            le,
            #[trigger] out2[k] as int,
            #[trigger] l[a] as int,
        ) by {
            if k < out.len() {
                assert(out2[k] == out[k]);
            }
        }
        assert forall|k: int, b: int|
            0 <= k < out2.len() && j + 1 <= b < r.len() implies stably_before(
            le,
            #[trigger] out2[k] as int,
            #[trigger] r[b] as int,
        ) by {
            if k < out.len() {
                assert(out2[k] == out[k]);
            }
        }
    }
}

/// Sorts the indices `lo..hi` stably by the oracle (top-down merge sort).
fn sort_range<F: Fn(usize, usize) -> bool>(
    lo: usize,
    hi: usize,
    le_fn: &F,
    Ghost(le): Ghost<spec_fn(int, int) -> bool>,
    Ghost(n): Ghost<nat>,
) -> (out: Vec<usize>)
    requires
        lo < hi <= n,
        forall|i: usize, j: usize| i < n && j < n ==> #[trigger] call_requires(*le_fn, (i, j)),
    ensures
        is_range_permutation(out@, lo as int, hi as int),
        oracle_agrees(*le_fn, le, n) && total_preorder(le, n) ==> stably_sorted(out@, le),
    decreases hi - lo,
{
    if hi - lo == 1 {
        let mut out: Vec<usize> = Vec::new();
        out.push(lo);
        return out;
    }
    let mid = lo + (hi - lo) / 2;
    let left = sort_range(lo, mid, le_fn, Ghost(le), Ghost(n));
    let right = sort_range(mid, hi, le_fn, Ghost(le), Ghost(n));
    merge_runs(&left, &right, lo, mid, hi, le_fn, Ghost(le), Ghost(n))
}

/// Merges two stably sorted runs, of the indices `lo..mid` and `mid..hi`, into one; on equal keys
/// the left run goes first.
fn merge_runs<F: Fn(usize, usize) -> bool>(
    left: &Vec<usize>,
    right: &Vec<usize>,
    lo: usize,
    mid: usize,
    hi: usize,
    le_fn: &F,
    Ghost(le): Ghost<spec_fn(int, int) -> bool>,
    Ghost(n): Ghost<nat>,
) -> (out: Vec<usize>)
    requires
        lo <= mid <= hi <= n,
        is_range_permutation(left@, lo as int, mid as int),
        is_range_permutation(right@, mid as int, hi as int),
        forall|i: usize, j: usize| i < n && j < n ==> #[trigger] call_requires(*le_fn, (i, j)),
        oracle_agrees(*le_fn, le, n) && total_preorder(le, n) ==> stably_sorted(left@, le)
            && stably_sorted(right@, le),
    ensures
        is_range_permutation(out@, lo as int, hi as int),
        oracle_agrees(*le_fn, le, n) && total_preorder(le, n) ==> stably_sorted(out@, le),
{
    let ghost good = oracle_agrees(*le_fn, le, n) && total_preorder(le, n);
    let ghost l = left@;
    let ghost r = right@;
    let mut out: Vec<usize> = Vec::new();
    let mut i: usize = 0;
    let mut j: usize = 0;
    while i < left.len() || j < right.len()
        invariant
            lo <= mid <= hi <= n,
            l == left@,
            r == right@,
            is_range_permutation(l, lo as int, mid as int),
            is_range_permutation(r, mid as int, hi as int),
            forall|a: usize, b: usize| a < n && b < n ==> #[trigger] call_requires(*le_fn, (a, b)),
            good == (oracle_agrees(*le_fn, le, n) && total_preorder(le, n)),
            good ==> stably_sorted(l, le) && stably_sorted(r, le),
            i <= l.len(),
            j <= r.len(),
            out@.len() == i + j,
            out@.no_duplicates(),
            from_runs(out@, l, r, i as int, j as int),
            good ==> stably_sorted(out@, le),
            good ==> forall|k: int, a: int|
                0 <= k < out@.len() && i <= a < l.len() ==> stably_before(
                    le,
                    #[trigger] out@[k] as int,
                    #[trigger] l[a] as int,
                ),
            good ==> forall|k: int, b: int|
                0 <= k < out@.len() && j <= b < r.len() ==> stably_before(
                    le,
                    #[trigger] out@[k] as int,
                    #[trigger] r[b] as int,
                ),
        decreases l.len() + r.len() - i - j,
    {
        let take_left = if i >= left.len() {
            false
        } else if j >= right.len() {
            true
        } else {
            le_fn(left[i], right[j])
        };
        proof {
            if good && i < l.len() && j < r.len() {
                assert(take_left == le(l[i as int] as int, r[j as int] as int));
            }
        }
        let ghost prev = out@;
        if take_left {
            let x = left[i];
            proof {
                lemma_merge_take_left(l, r, prev, i as int, j as int, lo as int, mid as int, hi as int, le, n, good);
            }
            out.push(x);
            i = i + 1;
        } else {
            let y = right[j];
            proof {
                lemma_merge_take_right(l, r, prev, i as int, j as int, lo as int, mid as int, hi as int, le, n, good);
            }
            out.push(y);
            j = j + 1;
        }
    }
    out
}


/// An order that lists each index `0..n` exactly once lists every one of them.
pub proof fn lemma_index_permutation_covers(order: Seq<usize>, n: nat)
    requires
        is_index_permutation(order, n),
    ensures
        forall|i: usize| i < n ==> #[trigger] order.contains(i),
{
    let ints = order.map_values(|x: usize| x as int);
    assert forall|a: int, b: int| 0 <= a < ints.len() && 0 <= b < ints.len() && a != b implies ints[a]
        != ints[b] by {
        assert(order[a] != order[b]);
    }
    assert(ints.no_duplicates());
    ints.unique_seq_to_set();
    let range = vstd::set_lib::set_int_range(0, n as int);
    vstd::set_lib::lemma_int_range(0, n as int);
    assert forall|x: int| ints.to_set().contains(x) implies range.contains(x) by {
        assert(ints.contains(x));
        let a = choose|a: int| 0 <= a < ints.len() && ints[a] == x;
        assert(order[a] < n);
    }
    assert(ints.to_set().subset_of(range));
    vstd::set_lib::lemma_len_subset(ints.to_set(), range);
    vstd::set_lib::lemma_subset_equality(ints.to_set(), range);
    assert forall|i: usize| i < n implies #[trigger] order.contains(i) by {
        assert(range.contains(i as int));
        assert(ints.to_set().contains(i as int));
        assert(ints.contains(i as int));
        let a = choose|a: int| 0 <= a < ints.len() && ints[a] == i as int;
        assert(order[a] == i);
    }
}


/// The stable order is unique: two orders of the indices `0..n` that are both sorted stably by
/// `le` are the same order.
pub proof fn lemma_stable_order_unique(
    o1: Seq<usize>,
    o2: Seq<usize>,
    le: spec_fn(int, int) -> bool,
    n: nat,
)
    requires
        is_index_permutation(o1, n),
        is_index_permutation(o2, n),
        stably_sorted(o1, le),
        stably_sorted(o2, le),
    ensures
        o1 == o2,
{
    lemma_index_permutation_covers(o1, n);
    lemma_index_permutation_covers(o2, n);
    assert forall|a: int| 0 <= a < n implies o1[a] == o2[a] by {
        lemma_orders_agree_at(o1, o2, le, n, a);
    }
    assert(o1 =~= o2);
}

proof fn lemma_orders_agree_at(
    o1: Seq<usize>,
    o2: Seq<usize>,
    le: spec_fn(int, int) -> bool,
    n: nat,
    a: int,
)
    requires
        is_index_permutation(o1, n),
        is_index_permutation(o2, n),
        stably_sorted(o1, le),
        stably_sorted(o2, le),
        forall|i: usize| i < n ==> #[trigger] o1.contains(i),
        forall|i: usize| i < n ==> #[trigger] o2.contains(i),
        0 <= a < n,
    ensures
        o1[a] == o2[a],
    decreases a,
{
    assert forall|c: int| 0 <= c < a implies o1[c] == o2[c] by {
        lemma_orders_agree_at(o1, o2, le, n, c);
    }
    if o1[a] != o2[a] {
        let x = o1[a];
        let y = o2[a];
        assert(o2.contains(x));
        assert(o1.contains(y));
        let b = choose|b: int| 0 <= b < o2.len() && o2[b] == x;
        let c = choose|c: int| 0 <= c < o1.len() && o1[c] == y;
        if b < a {
            assert(o1[b] == x);
        }
        if c < a {
            assert(o2[c] == y);
        }
        assert(stably_before(le, y as int, x as int));
        assert(stably_before(le, x as int, y as int));
    }
}

} // verus!
