//! The order-based steps of the WFG hypervolume algorithm: limiting a set by a pivot point,
//! the reference point, the detection of infinite objectives, and the preparation of the
//! front whose hypervolume is taken.
use vstd::prelude::*;
use crate::matrix::{Matrix, pick_rows, rectangular};
use crate::objective::{
    INFINITY, NEG_INFINITY, is_infinite, key, max, spec_is_infinite, spec_is_nan, spec_le, spec_lt, spec_max,
};
use crate::pareto::{
    argfront_lexsorted, increasing, lemma_front_depends_on_values, lemma_front_is_non_dominated,
    lemma_front_member, lemma_front_prefix, lemma_front_shape, lemma_lexsorted_front_is_pareto_front,
    front_upto, lexsorted_front, passes, passes_all, sorted_by_first, strictly_dominates,
};
use crate::sort::{
    is_permutation, lemma_lexsort_ignores_row_order, lemma_permutation_onto, lemma_sorted_rows,
    lemma_stable_order_exists, lex_sorted, lexsort, lexsorted_rows, no_nan, same_keys, stable_order,
    stable_sort_order,
};

verus! {

/// Each row of `rows` limited by `pivot`: every value replaced by its maximum with the
/// pivot's value in the same objective (eq. 6 and 7 of the WFG paper).
pub open spec fn limited(rows: Seq<Seq<u64>>, pivot: Seq<u64>) -> Seq<Seq<u64>> {
    Seq::new(rows.len(), |i: int| Seq::new(rows[i].len(), |j: int| spec_max(rows[i][j], pivot[j])))
}

/// The maximum of column `j` over the first `m` rows, folded from negative infinity.
pub open spec fn column_max(rows: Seq<Seq<u64>>, j: int, m: nat) -> u64
    decreases m,
{
    if m == 0 {
        NEG_INFINITY
    } else {
        spec_max(column_max(rows, j, (m - 1) as nat), rows[m - 1][j])
    }
}

/// The set whose hypervolume is taken: `rows`, lexicographically sorted unless `lexsorted`
/// says they already are, and reduced to their front when `extract_front` asks.
pub open spec fn prepared_front(rows: Seq<Seq<u64>>, lexsorted: bool, extract_front: bool) -> Seq<
    Seq<u64>,
> {
    let sorted = if lexsorted {
        rows
    } else {
        lexsorted_rows(rows)
    };
    if extract_front {
        front_rows(sorted)
    } else {
        sorted
    }
}

/// Some value in `rows` is positive or negative infinity.
pub open spec fn any_infinite(rows: Seq<Seq<u64>>) -> bool {
    exists|i: int, j: int|
        0 <= i < rows.len() && 0 <= j < rows[i].len() && spec_is_infinite(#[trigger] rows[i][j])
}

/// `a` and `b` are the same row of values.
pub open spec fn same_row(a: Seq<u64>, b: Seq<u64>) -> bool {
    a == b
}

/// No point of `rows` dominates point `i`.
pub open spec fn pareto_optimal(rows: Seq<Seq<u64>>, i: int) -> bool {
    forall|j: int| 0 <= j < rows.len() ==> !strictly_dominates(#[trigger] rows[j], rows[i])
}

/// The rows of the front of `rows` (see [`lexsorted_front`]).
pub open spec fn front_rows(rows: Seq<Seq<u64>>) -> Seq<Seq<u64>> {
    pick_rows(rows, lexsorted_front(rows))
}

/// The reference point's value in objective `j` is the largest value of that column: it is
/// not NaN, no value of the column that is not NaN exceeds it, and it is one of the column's
/// values, or negative infinity.
pub proof fn lemma_column_max_is_maximum(rows: Seq<Seq<u64>>, j: int, m: nat)
    ensures
        !spec_is_nan(column_max(rows, j, m)),
        forall|i: int|
            0 <= i < m && !spec_is_nan(#[trigger] rows[i][j]) ==> key(rows[i][j]) <= key(
                column_max(rows, j, m),
            ),
        column_max(rows, j, m) == NEG_INFINITY || exists|i: int|
            0 <= i < m && #[trigger] rows[i][j] == column_max(rows, j, m),
    decreases m,
{
    if m > 0 {
        let prev = column_max(rows, j, (m - 1) as nat);
        lemma_column_max_is_maximum(rows, j, (m - 1) as nat);
        let cm = column_max(rows, j, m);
        if prev != NEG_INFINITY {
            let w = choose|i: int| 0 <= i < m - 1 && #[trigger] rows[i][j] == prev;
            if cm == prev {
                assert(rows[w][j] == cm);
            }
        }
        if cm == rows[m - 1][j] {
            assert(rows[m - 1][j] == cm);
        }
    }
}

/// Limiting by a pivot: every limited value is one of the two it was taken from, and no
/// smaller than either where they are not NaN. A NaN-free set limited by a NaN-free pivot
/// stays NaN-free, and stays sorted by its first objective.
pub proof fn lemma_limited_properties(rows: Seq<Seq<u64>>, ncols: nat, pivot: Seq<u64>)
    requires
        rectangular(rows, ncols),
        pivot.len() == ncols,
    ensures
        rectangular(limited(rows, pivot), ncols),
        limited(rows, pivot).len() == rows.len(),
        forall|i: int, j: int|
            0 <= i < rows.len() && 0 <= j < ncols ==> {
                let v = #[trigger] limited(rows, pivot)[i][j];
                &&& (v == rows[i][j] || v == pivot[j])
                &&& (!spec_is_nan(pivot[j]) ==> !spec_is_nan(v) && key(pivot[j]) <= key(v))
                &&& (!spec_is_nan(rows[i][j]) ==> !spec_is_nan(v) && key(rows[i][j]) <= key(v))
            },
        no_nan(rows) && (forall|j: int| 0 <= j < ncols ==> !spec_is_nan(#[trigger] pivot[j]))
            ==> no_nan(limited(rows, pivot)),
        no_nan(rows) && ncols >= 1 && !spec_is_nan(pivot[0]) && sorted_by_first(rows)
            ==> sorted_by_first(limited(rows, pivot)),
{
    let l = limited(rows, pivot);
    assert forall|i: int| 0 <= i < l.len() implies #[trigger] l[i].len() == ncols by {
        assert(rows[i].len() == ncols);
    }
    if no_nan(rows) && ncols >= 1 && !spec_is_nan(pivot[0]) && sorted_by_first(rows) {
        assert forall|a: int, b: int| 0 <= a < b < l.len() implies key(#[trigger] l[a][0]) <= key(
            #[trigger] l[b][0],
        ) by {
            assert(rows[a].len() == ncols && rows[b].len() == ncols);
            assert(!spec_is_nan(rows[a][0]) && !spec_is_nan(rows[b][0]));
            assert(key(rows[a][0]) <= key(rows[b][0]));
        }
    }
}

/// The front of a NaN-free set sorted by its first objective is itself NaN-free and sorted
/// by its first objective, and none of its points is dominated by an earlier one.
pub proof fn lemma_front_rows_properties(rows: Seq<Seq<u64>>, ncols: nat)
    requires
        rectangular(rows, ncols),
        ncols >= 1,
        no_nan(rows),
        sorted_by_first(rows),
        rows.len() <= usize::MAX,
    ensures
        rectangular(front_rows(rows), ncols),
        no_nan(front_rows(rows)),
        sorted_by_first(front_rows(rows)),
        forall|a: int, b: int|
            0 <= a < b < front_rows(rows).len() ==> !strictly_dominates(
                #[trigger] front_rows(rows)[a],
                #[trigger] front_rows(rows)[b],
            ),
{
    let f = lexsorted_front(rows);
    let s = front_rows(rows);
    lemma_front_shape(rows, rows.len());
    assert forall|a: int| 0 <= a < s.len() implies #[trigger] s[a] == rows[f[a] as int] by {}
    assert forall|a: int| 0 <= a < s.len() implies #[trigger] s[a].len() == ncols by {
        assert(s[a] == rows[f[a] as int]);
    }
    assert forall|a: int, b: int| 0 <= a < s.len() && 0 <= b < s[a].len() implies !spec_is_nan(
        #[trigger] s[a][b],
    ) by {
        assert(s[a] == rows[f[a] as int]);
    }
    assert forall|a: int, b: int| 0 <= a < b < s.len() implies key(#[trigger] s[a][0]) <= key(
        #[trigger] s[b][0],
    ) by {
        assert(s[a] == rows[f[a] as int] && s[b] == rows[f[b] as int]);
        assert(f[a] < f[b]);
    }
    assert forall|a: int, b: int| 0 <= a < b < s.len() implies !strictly_dominates(
        #[trigger] s[a],
        #[trigger] s[b],
    ) by {
        let fb = f[b] as int;
        assert(s[a] == rows[f[a] as int] && s[b] == rows[fb]);
        assert(f[a] < f[b]);
        assert(f.contains(f[b]));
        lemma_front_is_non_dominated(rows, ncols, fb);
        assert(!strictly_dominates(rows[f[a] as int], rows[fb]));
    }
}

/// Each step of the hypervolume recursion on a NaN-free front sorted by its first objective
/// (pivot `i`, the later points limited by it, then reduced to their front) hands on a set
/// with the same properties, in which no point is dominated by an earlier one.
pub proof fn lemma_recursion_step_front(rows: Seq<Seq<u64>>, ncols: nat, i: int)
    requires
        rectangular(rows, ncols),
        ncols >= 1,
        no_nan(rows),
        sorted_by_first(rows),
        rows.len() <= usize::MAX,
        0 <= i < rows.len(),
    ensures
        ({
            let s = front_rows(limited(rows.subrange(i + 1, rows.len() as int), rows[i]));
            &&& rectangular(s, ncols)
            &&& no_nan(s)
            &&& sorted_by_first(s)
            &&& forall|a: int, b: int|
                0 <= a < b < s.len() ==> !strictly_dominates(#[trigger] s[a], #[trigger] s[b])
        }),
{
    let rest = rows.subrange(i + 1, rows.len() as int);
    let pivot = rows[i];
    assert(pivot.len() == ncols);
    assert forall|q: int| 0 <= q < rest.len() implies #[trigger] rest[q].len() == ncols by {
        assert(rest[q] == rows[i + 1 + q]);
    }
    assert forall|a: int, b: int| 0 <= a < rest.len() && 0 <= b < rest[a].len() implies !spec_is_nan(
        #[trigger] rest[a][b],
    ) by {
        assert(rest[a] == rows[i + 1 + a]);
    }
    assert forall|a: int, b: int| 0 <= a < b < rest.len() implies key(#[trigger] rest[a][0]) <= key(
        #[trigger] rest[b][0],
    ) by {
        assert(rest[a] == rows[i + 1 + a] && rest[b] == rows[i + 1 + b]);
    }
    assert forall|j: int| 0 <= j < ncols implies !spec_is_nan(#[trigger] pivot[j]) by {}
    lemma_limited_properties(rest, ncols, pivot);
    lemma_front_rows_properties(limited(rest, pivot), ncols);
}

/// Extracting the front after sorting (`wfg_front` with `extract_front` and not
/// `lexsorted`) keeps exactly the non-dominated points of the input: the sorted point at
/// position `k` is kept when no input point dominates it.
pub proof fn lemma_sorted_front_is_pareto_front(
    rows: Seq<Seq<u64>>,
    ncols: nat,
    p: Seq<usize>,
    k: int,
)
    requires
        rectangular(rows, ncols),
        ncols >= 1,
        no_nan(rows),
        stable_sort_order(rows, p),
        rows.len() <= usize::MAX,
        0 <= k < rows.len(),
    ensures
        lexsorted_front(pick_rows(rows, p)).contains(k as usize) <==> (forall|j: int|
            0 <= j < rows.len() ==> !strictly_dominates(#[trigger] rows[j], rows[p[k] as int])),
{
    let s = pick_rows(rows, p);
    lemma_sorted_rows(rows, p);
    assert forall|a: int| 0 <= a < s.len() implies #[trigger] s[a].len() == ncols by {
        assert(s[a] == rows[p[a] as int]);
    }
    assert forall|a: int, b: int| 0 <= a < s.len() && 0 <= b < s[a].len() implies !spec_is_nan(
        #[trigger] s[a][b],
    ) by {
        assert(s[a] == rows[p[a] as int]);
    }
    lemma_lexsorted_front_is_pareto_front(s, ncols, k);
    assert(s[k] == rows[p[k] as int]);
    // Domination by a point of the sorted set is domination by a point of the input.
    if forall|j: int| 0 <= j < s.len() ==> !strictly_dominates(#[trigger] s[j], s[k]) {
        assert forall|j: int| 0 <= j < rows.len() implies !strictly_dominates(
            #[trigger] rows[j],
            rows[p[k] as int],
        ) by {
            lemma_permutation_onto(p, rows.len(), j);
            let m = choose|m: int| 0 <= m < p.len() && p[m] == j;
            assert(s[m] == rows[j]);
        }
    }
    if forall|j: int| 0 <= j < rows.len() ==> !strictly_dominates(#[trigger] rows[j], rows[p[k] as int]) {
        assert forall|j: int| 0 <= j < s.len() implies !strictly_dominates(#[trigger] s[j], s[k]) by {
            assert(s[j] == rows[p[j] as int]);
        }
    }
}

/// Taking the hypervolume of unsorted points is taking it of the lexicographically sorted
/// points, treated as sorted.
pub proof fn lemma_unsorted_is_sorted_first(rows: Seq<Seq<u64>>, extract_front: bool)
    ensures
        prepared_front(rows, false, extract_front) == prepared_front(
            lexsorted_rows(rows),
            true,
            extract_front,
        ),
{
}

/// For unsorted points, the set whose hypervolume is taken does not depend on the order of
/// the points: reordering them gives, position by position, points with the same values.
pub proof fn lemma_prepared_front_ignores_row_order(
    rows: Seq<Seq<u64>>,
    ncols: nat,
    perm: Seq<usize>,
    extract_front: bool,
)
    requires
        rectangular(rows, ncols),
        rows.len() <= usize::MAX,
        is_permutation(perm, rows.len()),
    ensures
        ({
            let a = prepared_front(pick_rows(rows, perm), false, extract_front);
            let b = prepared_front(rows, false, extract_front);
            &&& a.len() == b.len()
            &&& forall|k: int| 0 <= k < a.len() ==> same_keys(#[trigger] a[k], b[k])
        }),
{
    let n = rows.len();
    let moved = pick_rows(rows, perm);
    let p = stable_order(rows);
    let q = stable_order(moved);
    lemma_lexsort_ignores_row_order(rows, ncols, perm);
    assert forall|k: int| 0 <= k < moved.len() implies #[trigger] moved[k].len() == ncols by {
        assert(perm[k] < n);
    }
    lemma_stable_order_exists(moved, ncols);
    lemma_stable_order_exists(rows, ncols);
    let s1 = pick_rows(moved, q);
    let s2 = pick_rows(rows, p);
    if extract_front {
        assert forall|k: int| 0 <= k < s1.len() implies #[trigger] s1[k].len() == ncols by {
            assert(q[k] < n);
            assert(perm[q[k] as int] < n);
            assert(s1[k] == rows[perm[q[k] as int] as int]);
        }
        lemma_front_depends_on_values(s1, s2, ncols, n);
        let f = lexsorted_front(s1);
        lemma_front_shape(s1, n);
        assert forall|k: int| 0 <= k < f.len() implies same_keys(
            #[trigger] front_rows(s1)[k],
            front_rows(s2)[k],
        ) by {
            assert(front_rows(s1)[k] == s1[f[k] as int]);
            assert(front_rows(s2)[k] == s2[f[k] as int]);
        }
    }
}

/// Extracting the front of the points, after sorting, when a point dominated by another is
/// added: the added point is not kept, and every other point is kept exactly when it was
/// kept before.
pub proof fn lemma_dominated_point_changes_nothing(
    rows: Seq<Seq<u64>>,
    ncols: nat,
    x: Seq<u64>,
    i: int,
)
    requires
        rectangular(rows.push(x), ncols),
        exists|j: int| 0 <= j < rows.len() && strictly_dominates(#[trigger] rows[j], x),
        no_nan(rows.push(x)),
        0 <= i < rows.len(),
    ensures
        !pareto_optimal(rows.push(x), rows.len() as int),
        pareto_optimal(rows.push(x), i) == pareto_optimal(rows, i),
{
    let all = rows.push(x);
    let j = choose|j: int| 0 <= j < rows.len() && strictly_dominates(#[trigger] rows[j], x);
    assert(all[j] == rows[j]);
    assert(all[rows.len() as int] == x);
    if pareto_optimal(rows, i) && !pareto_optimal(all, i) {
        // only the added point can dominate row i, and then row j dominates it too
        let d = choose|d: int| 0 <= d < all.len() && strictly_dominates(#[trigger] all[d], all[i]);
        if d < rows.len() {
            assert(all[d] == rows[d]);
        } else {
            assert(all[i] == rows[i]);
            assert(all[i].len() == ncols && all[j].len() == ncols && all[rows.len() as int].len() == ncols);
            assert(strictly_dominates(x, rows[i]));
            let c = choose|c: int| 0 <= c < rows[j].len() && spec_lt(#[trigger] rows[j][c], x[c]);
            assert forall|q: int| 0 <= q < rows[j].len() implies spec_le(#[trigger] rows[j][q], rows[i][q]) by {
                assert(spec_le(rows[j][q], x[q]));
                assert(spec_le(x[q], rows[i][q]));
            }
            assert(spec_le(x[c], rows[i][c]));
            assert(spec_lt(rows[j][c], rows[i][c]));
            assert(strictly_dominates(rows[j], rows[i]));
        }
    }
    if !pareto_optimal(rows, i) {
        let d = choose|d: int| 0 <= d < rows.len() && strictly_dominates(#[trigger] rows[d], rows[i]);
        assert(all[d] == rows[d] && all[i] == rows[i]);
    }
}

/// A value is infinite exactly when it is the bit pattern of positive or of negative
/// infinity.
pub proof fn lemma_infinite_values(b: u64)
    ensures
        spec_is_infinite(b) <==> (b == INFINITY || b == NEG_INFINITY),
        (b == INFINITY || b == NEG_INFINITY) ==> !spec_is_nan(b),
{
}

/// A set has an infinite value exactly when one of its values is the bit pattern of
/// positive or negative infinity; a set of finite values (zeros included) has none.
pub proof fn lemma_any_infinite_exactly(rows: Seq<Seq<u64>>)
    ensures
        any_infinite(rows) <==> exists|i: int, j: int|
            0 <= i < rows.len() && 0 <= j < rows[i].len() && (#[trigger] rows[i][j] == INFINITY
                || rows[i][j] == NEG_INFINITY),
{
    if any_infinite(rows) {
        let (i, j) = choose|i: int, j: int|
            0 <= i < rows.len() && 0 <= j < rows[i].len() && spec_is_infinite(#[trigger] rows[i][j]);
        lemma_infinite_values(rows[i][j]);
    }
    if exists|i: int, j: int|
        0 <= i < rows.len() && 0 <= j < rows[i].len() && (#[trigger] rows[i][j] == INFINITY
            || rows[i][j] == NEG_INFINITY) {
        let (i, j) = choose|i: int, j: int|
            0 <= i < rows.len() && 0 <= j < rows[i].len() && (#[trigger] rows[i][j] == INFINITY
                || rows[i][j] == NEG_INFINITY);
        lemma_infinite_values(rows[i][j]);
        assert(spec_is_infinite(rows[i][j]));
    }
}

/// Whether a point is dominated depends only on which points the set holds: in a
/// reordering of the rows, the point at position `k` is dominated exactly when the row it
/// came from was.
pub proof fn lemma_pareto_optimal_reordered(rows: Seq<Seq<u64>>, p: Seq<usize>, k: int)
    requires
        is_permutation(p, rows.len()),
        0 <= k < rows.len(),
    ensures
        pareto_optimal(pick_rows(rows, p), k) == pareto_optimal(rows, p[k] as int),
{
    let s = pick_rows(rows, p);
    assert(s[k] == rows[p[k] as int]);
    if pareto_optimal(s, k) {
        assert forall|j: int| 0 <= j < rows.len() implies !strictly_dominates(
            #[trigger] rows[j],
            rows[p[k] as int],
        ) by {
            lemma_permutation_onto(p, rows.len(), j);
            let m = choose|m: int| 0 <= m < p.len() && p[m] == j;
            assert(s[m] == rows[j]);
        }
    }
    if pareto_optimal(rows, p[k] as int) {
        assert forall|j: int| 0 <= j < s.len() implies !strictly_dominates(#[trigger] s[j], s[k]) by {
            assert(s[j] == rows[p[j] as int]);
        }
    }
}

/// The front rows of any set are picked in order by a scan: a row is kept exactly when it
/// passes every row kept before it (is strictly smaller than it in some objective after the
/// first, or the same point in value).
pub proof fn lemma_front_rows_scan(rows: Seq<Seq<u64>>)
    requires
        rows.len() <= usize::MAX,
    ensures
        exists|f: Seq<usize>|
            {
                &&& increasing(f)
                &&& (forall|k: int| 0 <= k < f.len() ==> #[trigger] f[k] < rows.len())
                &&& front_rows(rows) == pick_rows(rows, f)
                &&& forall|i: int|
                    0 <= i < rows.len() ==> (#[trigger] f.contains(i as usize) <==> (forall|k: int|
                        0 <= k < f.len() && f[k] < i ==> passes(rows[i], rows[#[trigger] f[k] as int])))
            },
{
    let n = rows.len();
    let f = lexsorted_front(rows);
    lemma_front_shape(rows, n);
    assert forall|i: int| 0 <= i < n implies (#[trigger] f.contains(i as usize) <==> (forall|k: int|
        0 <= k < f.len() && f[k] < i ==> passes(rows[i], rows[#[trigger] f[k] as int]))) by {
        lemma_front_member(rows, n, i);
        lemma_front_prefix(rows, i as nat, n);
        lemma_front_shape(rows, i as nat);
        let fi = front_upto(rows, i as nat);
        // the kept rows below `i` are exactly the front among the first `i` rows
        assert forall|k: int| 0 <= k < f.len() && f[k] < i implies k < fi.len() by {
            if k >= fi.len() {
                assert(f[k] >= i);
            }
        }
        assert forall|k: int| 0 <= k < fi.len() implies #[trigger] fi[k] == f[k] && f[k] < i by {
            assert(fi[k] == f.subrange(0, fi.len() as int)[k]);
        }
        if passes_all(rows, i, fi) {
            assert forall|k: int| 0 <= k < f.len() && f[k] < i implies passes(rows[i], rows[#[trigger] f[k] as int]) by {
                assert(fi[k] == f[k]);
            }
        }
        if forall|k: int| 0 <= k < f.len() && f[k] < i ==> passes(rows[i], rows[#[trigger] f[k] as int]) {
            assert forall|k: int| 0 <= k < fi.len() implies passes(rows[i], rows[#[trigger] fi[k] as int]) by {
                assert(fi[k] == f[k] && f[k] < i);
            }
        }
    }
}

/// How `wfg_front` extracts the front: of the input when it is taken as sorted, of its
/// lexicographic sort otherwise.
pub proof fn lemma_prepared_front_extracts(rows: Seq<Seq<u64>>)
    ensures
        prepared_front(rows, true, true) == front_rows(rows),
        prepared_front(rows, false, true) == front_rows(prepared_front(rows, false, false)),
{
}

/// Row `x` stands somewhere in `sel`.
pub open spec fn row_in(sel: Seq<Seq<u64>>, x: Seq<u64>) -> bool {
    exists|k: int| 0 <= k < sel.len() && same_row(#[trigger] sel[k], x)
}

/// Row `x` is a row of `rows` that no row of `rows` dominates.
pub open spec fn optimal_row_of(rows: Seq<Seq<u64>>, x: Seq<u64>) -> bool {
    exists|i: int| 0 <= i < rows.len() && #[trigger] pareto_optimal(rows, i) && same_row(x, rows[i])
}

/// Every row of `rows` that no row of `rows` dominates stands somewhere in `sel`.
pub open spec fn holds_every_optimal_row(rows: Seq<Seq<u64>>, sel: Seq<Seq<u64>>) -> bool {
    forall|i: int| 0 <= i < rows.len() && #[trigger] pareto_optimal(rows, i) ==> row_in(sel, rows[i])
}

/// Every row of `sel` is a row of `rows` that no row of `rows` dominates.
pub open spec fn holds_only_optimal_rows(rows: Seq<Seq<u64>>, sel: Seq<Seq<u64>>) -> bool {
    forall|k: int| 0 <= k < sel.len() ==> optimal_row_of(rows, #[trigger] sel[k])
}

/// Every row of `rows` stands somewhere in `sel`.
pub open spec fn holds_every_row(rows: Seq<Seq<u64>>, sel: Seq<Seq<u64>>) -> bool {
    forall|i: int| 0 <= i < rows.len() ==> row_in(sel, #[trigger] rows[i])
}

/// For a NaN-free, lexicographically sorted set, the front rows are exactly the rows that
/// no row of the set dominates, in their order, each once: every such row is in the front
/// and every row of the front is such a row.
pub proof fn lemma_front_rows_are_non_dominated(rows: Seq<Seq<u64>>, ncols: nat)
    requires
        rectangular(rows, ncols),
        ncols >= 1,
        no_nan(rows),
        lex_sorted(rows),
        rows.len() <= usize::MAX,
    ensures
        exists|f: Seq<usize>|
            {
                &&& increasing(f)
                &&& front_rows(rows) == pick_rows(rows, f)
                &&& forall|i: int|
                    0 <= i < rows.len() ==> (f.contains(i as usize) <==> #[trigger] pareto_optimal(
                        rows,
                        i,
                    ))
            },
        holds_every_optimal_row(rows, front_rows(rows)),
        holds_only_optimal_rows(rows, front_rows(rows)),
{
    let f = lexsorted_front(rows);
    let fr = front_rows(rows);
    lemma_front_shape(rows, rows.len());
    assert forall|i: int| 0 <= i < rows.len() implies (f.contains(i as usize) <==> #[trigger] pareto_optimal(
        rows,
        i,
    )) by {
        lemma_lexsorted_front_is_pareto_front(rows, ncols, i);
    }
    assert forall|i: int| 0 <= i < rows.len() && #[trigger] pareto_optimal(rows, i) implies row_in(fr, rows[i]) by {
        assert(f.contains(i as usize));
        let k = choose|k: int| 0 <= k < f.len() && f[k] == i as usize;
        assert(fr[k] == rows[i]);
        assert(same_row(fr[k], rows[i]));
    }
    assert forall|k: int| 0 <= k < fr.len() implies optimal_row_of(rows, #[trigger] fr[k]) by {
        let i = f[k] as int;
        assert(f.contains(f[k]));
        assert(i as usize == f[k]);
        assert(pareto_optimal(rows, i));
        assert(fr[k] == rows[i]);
        assert(same_row(fr[k], rows[i]));
    }
    assert(holds_every_optimal_row(rows, fr));
    assert(holds_only_optimal_rows(rows, fr));
}

/// Without front extraction, `wfg_front` hands to the hypervolume all the input points: the
/// input itself when it is taken as sorted, otherwise a lexicographically sorted reordering
/// of it that holds every input point, each once.
pub proof fn lemma_prepared_without_front(rows: Seq<Seq<u64>>, ncols: nat)
    requires
        rectangular(rows, ncols),
        rows.len() <= usize::MAX,
    ensures
        prepared_front(rows, true, false) == rows,
        prepared_front(rows, false, false).len() == rows.len(),
        lex_sorted(prepared_front(rows, false, false)),
        exists|p: Seq<usize>|
            is_permutation(p, rows.len()) && prepared_front(rows, false, false) == pick_rows(rows, p),
        holds_every_row(rows, prepared_front(rows, false, false)),
{
    let n = rows.len();
    let p = stable_order(rows);
    lemma_stable_order_exists(rows, ncols);
    lemma_sorted_rows(rows, p);
    let s = lexsorted_rows(rows);
    assert(s == pick_rows(rows, p));
    assert(s == prepared_front(rows, false, false));
    assert forall|i: int| 0 <= i < n implies row_in(s, #[trigger] rows[i]) by {
        assert(p.contains(i as usize));
        let k = choose|k: int| 0 <= k < p.len() && p[k] == i as usize;
        assert(s[k] == rows[i]);
        assert(same_row(s[k], rows[i]));
    }
    assert(holds_every_row(rows, s));
}

/// With front extraction after sorting, `wfg_front` hands to the hypervolume exactly the
/// input points that no input point dominates: every such point, and only such points.
pub proof fn lemma_prepared_front_after_sorting(rows: Seq<Seq<u64>>, ncols: nat)
    requires
        rectangular(rows, ncols),
        ncols >= 1,
        no_nan(rows),
        rows.len() <= usize::MAX,
    ensures
        holds_every_optimal_row(rows, prepared_front(rows, false, true)),
        holds_only_optimal_rows(rows, prepared_front(rows, false, true)),
{
    let n = rows.len();
    let p = stable_order(rows);
    lemma_stable_order_exists(rows, ncols);
    lemma_sorted_rows(rows, p);
    let s = lexsorted_rows(rows);
    assert(s == pick_rows(rows, p));
    assert forall|a: int| 0 <= a < s.len() implies #[trigger] s[a].len() == ncols by {
        assert(s[a] == rows[p[a] as int]);
    }
    assert forall|a: int, b: int| 0 <= a < s.len() && 0 <= b < s[a].len() implies !spec_is_nan(
        #[trigger] s[a][b],
    ) by {
        assert(s[a] == rows[p[a] as int]);
    }
    lemma_front_rows_are_non_dominated(s, ncols);
    let fs = front_rows(s);
    assert(fs == prepared_front(rows, false, true));
    assert forall|i: int| 0 <= i < n && #[trigger] pareto_optimal(rows, i) implies row_in(fs, rows[i]) by {
        assert(p.contains(i as usize));
        let m = choose|m: int| 0 <= m < p.len() && p[m] == i as usize;
        lemma_pareto_optimal_reordered(rows, p, m);
        assert(pareto_optimal(s, m));
        assert(row_in(fs, s[m]));
        assert(s[m] == rows[i]);
    }
    assert forall|k: int| 0 <= k < fs.len() implies optimal_row_of(rows, #[trigger] fs[k]) by {
        assert(optimal_row_of(s, fs[k]));
        let m = choose|m: int| 0 <= m < s.len() && #[trigger] pareto_optimal(s, m) && same_row(fs[k], s[m]);
        lemma_pareto_optimal_reordered(rows, p, m);
        let i = p[m] as int;
        assert(pareto_optimal(rows, i));
        assert(fs[k] == rows[i]);
        assert(same_row(fs[k], rows[i]));
    }
    assert(holds_every_optimal_row(rows, fs));
    assert(holds_only_optimal_rows(rows, fs));
}

/// With front extraction of a NaN-free input taken as sorted and indeed lexicographically
/// sorted, `wfg_front` hands to the hypervolume exactly the input points that no input
/// point dominates.
pub proof fn lemma_prepared_front_of_sorted(rows: Seq<Seq<u64>>, ncols: nat)
    requires
        rectangular(rows, ncols),
        ncols >= 1,
        no_nan(rows),
        lex_sorted(rows),
        rows.len() <= usize::MAX,
    ensures
        holds_every_optimal_row(rows, prepared_front(rows, true, true)),
        holds_only_optimal_rows(rows, prepared_front(rows, true, true)),
{
    lemma_front_rows_are_non_dominated(rows, ncols);
    assert(prepared_front(rows, true, true) == front_rows(rows));
}

/// Limits the points of `inputs` by a pivot point: each value becomes its maximum with the
/// pivot's value in the same objective (eq. 6 and 7 of the WFG paper).
///
/// Where `inputs` has points, the pivot has one value per objective.
pub fn limits_wfg(inputs: &Matrix, pivot: &Vec<u64>) -> (r: Matrix)
    requires
        inputs.wf(),
        inputs@.len() == 0 || pivot@.len() == inputs.ncols,
    ensures
        r.wf(),
        r.ncols == inputs.ncols,
        r@ == limited(inputs@, pivot@),
{
    let n = inputs.nrows();
    let ncols = inputs.ncols;
    let mut rows: Vec<Vec<u64>> = Vec::new();
    for i in 0..n
        invariant
            n == inputs@.len(),
            ncols == inputs.ncols,
            inputs.wf(),
            n == 0 || pivot@.len() == ncols,
            rows@.len() == i,
            forall|q: int| 0 <= q < i ==> #[trigger] rows@[q]@ == limited(inputs@, pivot@)[q],
    {
        let src = &inputs.rows[i];
        assert(src@ == inputs@[i as int]);
        let mut out: Vec<u64> = Vec::new();
        for j in 0..ncols
            invariant
                src@ == inputs@[i as int],
                src@.len() == ncols,
                pivot@.len() == ncols,
                out@.len() == j,
                forall|q: int| 0 <= q < j ==> #[trigger] out@[q] == spec_max(src@[q], pivot@[q]),
        {
            out.push(max(src[j], pivot[j]));
        }
        assert(out@ =~= limited(inputs@, pivot@)[i as int]);
        rows.push(out);
    }
    let r = Matrix { rows, ncols };
    assert(r@ =~= limited(inputs@, pivot@));
    r
}

/// Computes the reference point of a set for the hypervolume indicator: in each objective,
/// the maximum value over the points (negative infinity where there are none).
pub fn reference_point(set: &Matrix) -> (r: Vec<u64>)
    requires
        set.wf(),
    ensures
        r@ == Seq::new(set.ncols as nat, |j: int| column_max(set@, j, set@.len())),
{
    let n = set.nrows();
    let ncols = set.ncols;
    let mut r: Vec<u64> = Vec::new();
    for j in 0..ncols
        invariant
            n == set@.len(),
            ncols == set.ncols,
            set.wf(),
            r@.len() == j,
            forall|q: int| 0 <= q < j ==> #[trigger] r@[q] == column_max(set@, q, n as nat),
    {
        let mut acc: u64 = NEG_INFINITY;
        for i in 0..n
            invariant
                n == set@.len(),
                ncols == set.ncols,
                set.wf(),
                j < ncols,
                acc == column_max(set@, j as int, i as nat),
        {
            assert(set.rows@[i as int]@ == set@[i as int]);
            acc = max(acc, set.rows[i][j]);
        }
        r.push(acc);
    }
    assert(r@ =~= Seq::new(set.ncols as nat, |j: int| column_max(set@, j, set@.len())));
    r
}

/// Whether some value of the set is positive or negative infinity.
pub fn has_infinite(set: &Matrix) -> (r: bool)
    requires
        set.wf(),
    ensures
        r == any_infinite(set@),
        r == exists|i: int, j: int|
            0 <= i < set@.len() && 0 <= j < set@[i].len() && (#[trigger] set@[i][j] == INFINITY
                || set@[i][j] == NEG_INFINITY),
{
    proof {
        lemma_any_infinite_exactly(set@);
    }
    let n = set.nrows();
    let ncols = set.ncols;
    for i in 0..n
        invariant
            n == set@.len(),
            ncols == set.ncols,
            set.wf(),
            forall|a: int, b: int|
                0 <= a < i && 0 <= b < set@[a].len() ==> !spec_is_infinite(#[trigger] set@[a][b]),
    {
        let row = &set.rows[i];
        assert(row@ == set@[i as int]);
        for j in 0..ncols
            invariant
                n == set@.len(),
                i < n,
                row@ == set@[i as int],
                row@.len() == ncols,
                forall|a: int, b: int|
                    0 <= a < i && 0 <= b < set@[a].len() ==> !spec_is_infinite(#[trigger] set@[a][b]),
                forall|b: int| 0 <= b < j ==> !spec_is_infinite(#[trigger] set@[i as int][b]),
        {
            if is_infinite(row[j]) {
                assert(spec_is_infinite(set@[i as int][j as int]));
                return true;
            }
        }
    }
    false
}

/// The points of the front of a lexicographically sorted set (see
/// [`argfront_lexsorted`]), in their order. There must be at least one objective.
pub fn front_of(set: &Matrix) -> (r: Matrix)
    requires
        set.wf(),
        set.ncols >= 1,
    ensures
        r.wf(),
        r.ncols == set.ncols,
        r@ == front_rows(set@),
{
    let n = set.nrows();
    let on_front = argfront_lexsorted(set);
    proof {
        // the set has at most `usize::MAX` points, so the front's indices are in range
        assert(set@.len() == n);
        lemma_front_shape(set@, set@.len());
    }
    set.select_rows(&on_front)
}

/// One step of the hypervolume recursion: the points after point `i` of the front, limited
/// by point `i`, then reduced to their front. There must be at least one objective.
pub fn limited_front(front: &Matrix, i: usize) -> (r: Matrix)
    requires
        front.wf(),
        front.ncols >= 1,
        i < front@.len(),
    ensures
        r.wf(),
        r.ncols == front.ncols,
        r@ == front_rows(limited(front@.subrange(i + 1, front@.len() as int), front@[i as int])),
{
    let n = front.nrows();
    assert(i < n);
    let rest = front.rows_from(i + 1);
    let pivot = front.row(i);
    let limited_rest = limits_wfg(&rest, &pivot);
    front_of(&limited_rest)
}

/// The set whose hypervolume is taken: the input points, lexicographically sorted unless
/// `lexsorted` says they already are, and reduced to their front when `extract_front` asks.
///
/// Sorting needs the conditions of [`lexsort`], and front extraction at least one objective.
pub fn wfg_front(inputs: &Matrix, lexsorted: bool, extract_front: bool) -> (r: Matrix)
    requires
        inputs.wf(),
        !lexsorted ==> (inputs@.len() < 2 || (inputs.ncols >= 1 && no_nan(inputs@))),
        extract_front ==> inputs.ncols >= 1,
    ensures
        r.wf(),
        r.ncols == inputs.ncols,
        r@ == prepared_front(inputs@, lexsorted, extract_front),
{
    if extract_front {
        if !lexsorted {
            let sorted = lexsort(inputs);
            front_of(&sorted)
        } else {
            front_of(inputs)
        }
    } else if !lexsorted {
        lexsort(inputs)
    } else {
        let all = inputs.rows_from(0);
        assert(inputs@.subrange(0, inputs@.len() as int) =~= inputs@);
        all
    }
}

} // verus!
