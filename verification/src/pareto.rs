//! Extraction of the Pareto front (the non-dominated points) of a lexicographically sorted set.
use vstd::prelude::*;
use crate::matrix::{Matrix, rectangular};
use crate::sort::{lex_lt, lex_lt_from, lex_sorted, no_nan, same_keys};
use crate::objective::{
    is_nan, key, lt, magnitude, spec_is_nan, spec_le, spec_lt, value_key,
};

verus! {

/// Point `a` is strictly smaller than point `b` in at least one objective after the first.
pub open spec fn improves_on(a: Seq<u64>, b: Seq<u64>) -> bool {
    exists|j: int| 1 <= j < a.len() && j < b.len() && spec_lt(a[j], b[j])
}

/// Point `a` passes point `b`: it improves on `b`, or it is the same point in value.
pub open spec fn passes(a: Seq<u64>, b: Seq<u64>) -> bool {
    improves_on(a, b) || same_point(a, b)
}

/// Row `i` passes every row listed in `kept`.
pub open spec fn passes_all(rows: Seq<Seq<u64>>, i: int, kept: Seq<usize>) -> bool {
    forall|k: int| 0 <= k < kept.len() ==> passes(rows[i], rows[#[trigger] kept[k] as int])
}

/// The front among the first `m` rows: scanning the rows in order, a row is kept when, for
/// every row kept before it, it either improves on that row or is the same point in value.
pub open spec fn front_upto(rows: Seq<Seq<u64>>, m: nat) -> Seq<usize>
    decreases m,
{
    if m == 0 {
        Seq::empty()
    } else {
        let prev = front_upto(rows, (m - 1) as nat);
        if passes_all(rows, m - 1, prev) {
            prev.push((m - 1) as usize)
        } else {
            prev
        }
    }
}

/// The indices of the front of all rows, in increasing order.
pub open spec fn lexsorted_front(rows: Seq<Seq<u64>>) -> Seq<usize> {
    front_upto(rows, rows.len())
}

/// The sequence is strictly increasing.
pub open spec fn increasing(s: Seq<usize>) -> bool {
    forall|a: int, b: int| 0 <= a < b < s.len() ==> s[a] < s[b]
}

/// Point `a` is no worse than point `b` in every objective.
pub open spec fn weakly_dominates(a: Seq<u64>, b: Seq<u64>) -> bool {
    forall|k: int| 0 <= k < a.len() ==> spec_le(#[trigger] a[k], b[k])
}

/// Point `a` dominates point `b`: no worse in every objective, strictly better in one.
pub open spec fn strictly_dominates(a: Seq<u64>, b: Seq<u64>) -> bool {
    weakly_dominates(a, b) && exists|k: int| 0 <= k < a.len() && spec_lt(#[trigger] a[k], b[k])
}

/// Points `a` and `b` have equal values in every objective.
pub open spec fn same_point(a: Seq<u64>, b: Seq<u64>) -> bool {
    forall|k: int| 0 <= k < a.len() ==> !spec_is_nan(#[trigger] a[k]) && !spec_is_nan(b[k]) && key(a[k]) == key(b[k])
}

/// The rows are in ascending order of their first objective.
pub open spec fn sorted_by_first(rows: Seq<Seq<u64>>) -> bool {
    forall|a: int, b: int| 0 <= a < b < rows.len() ==> key(#[trigger] rows[a][0]) <= key(
        #[trigger] rows[b][0],
    )
}

/// Row `i` passes every row of `kept` and `t` exactly when it passes every row of
/// `kept.push(t)`.
proof fn lemma_passes_all_push(rows: Seq<Seq<u64>>, i: int, kept: Seq<usize>, t: usize)
    ensures
        passes_all(rows, i, kept.push(t)) == (passes_all(rows, i, kept) && passes(
            rows[i],
            rows[t as int],
        )),
{
    let s = kept.push(t);
    if passes_all(rows, i, s) {
        assert(s[kept.len() as int] == t);
        assert forall|k: int| 0 <= k < kept.len() implies passes(
            rows[i],
            rows[#[trigger] kept[k] as int],
        ) by {
            assert(s[k] == kept[k]);
        }
    }
    if passes_all(rows, i, kept) && passes(rows[i], rows[t as int]) {
        assert forall|k: int| 0 <= k < s.len() implies passes(
            rows[i],
            rows[#[trigger] s[k] as int],
        ) by {
            if k < kept.len() {
                assert(s[k] == kept[k]);
            }
        }
    }
}

/// The front among the first `m` rows is strictly increasing and names rows below `m`.
pub proof fn lemma_front_shape(rows: Seq<Seq<u64>>, m: nat)
    requires
        m <= usize::MAX,
    ensures
        increasing(front_upto(rows, m)),
        forall|k: int| 0 <= k < front_upto(rows, m).len() ==> #[trigger] front_upto(rows, m)[k] < m,
    decreases m,
{
    if m > 0 {
        lemma_front_shape(rows, (m - 1) as nat);
    }
}

/// Rows `lo..m` that do not pass every row of the front among the first `lo` rows leave it
/// unchanged.
proof fn lemma_front_skip(rows: Seq<Seq<u64>>, lo: nat, m: nat)
    requires
        lo <= m,
        m <= usize::MAX,
        forall|i: int| lo <= i < m ==> !passes_all(rows, i, front_upto(rows, lo)),
    ensures
        front_upto(rows, m) == front_upto(rows, lo),
    decreases m,
{
    if m > lo {
        lemma_front_skip(rows, lo, (m - 1) as nat);
    }
}

/// For `i < m`, row `i` is in the front among the first `m` rows exactly when it passes
/// every row kept among the first `i`.
pub proof fn lemma_front_member(rows: Seq<Seq<u64>>, m: nat, i: int)
    requires
        0 <= i < m,
        m <= usize::MAX,
    ensures
        front_upto(rows, m).contains(i as usize) == passes_all(rows, i, front_upto(rows, i as nat)),
    decreases m,
{
    let f = front_upto(rows, m);
    let prev = front_upto(rows, (m - 1) as nat);
    lemma_front_shape(rows, (m - 1) as nat);
    if i == m - 1 {
        if passes_all(rows, i, prev) {
            assert(f[prev.len() as int] == i as usize);
        } else {
            if f.contains(i as usize) {
                let k = choose|k: int| 0 <= k < f.len() && f[k] == i as usize;
                assert(prev[k] < m - 1);
            }
        }
    } else {
        lemma_front_member(rows, (m - 1) as nat, i);
        if passes_all(rows, m - 1, prev) {
            if prev.contains(i as usize) {
                let k = choose|k: int| 0 <= k < prev.len() && prev[k] == i as usize;
                assert(f[k] == i as usize);
            }
            if f.contains(i as usize) {
                let k = choose|k: int| 0 <= k < f.len() && f[k] == i as usize;
                if k < prev.len() {
                    assert(prev[k] == i as usize);
                }
            }
        }
    }
}

/// A row dominated by an earlier row is not kept (for a NaN-free set sorted by its first
/// objective).
proof fn lemma_dominated_not_kept(rows: Seq<Seq<u64>>, ncols: nat, i: int, j: int)
    requires
        rectangular(rows, ncols),
        ncols >= 1,
        no_nan(rows),
        sorted_by_first(rows),
        rows.len() <= usize::MAX,
        0 <= j < i < rows.len(),
        strictly_dominates(rows[j], rows[i]),
    ensures
        !passes_all(rows, i, front_upto(rows, i as nat)),
    decreases j,
{
    let fi = front_upto(rows, i as nat);
    let fj = front_upto(rows, j as nat);
    assert(rows[i].len() == ncols && rows[j].len() == ncols);
    if passes_all(rows, j, fj) {
        lemma_front_member(rows, i as nat, j);
        let k = choose|k: int| 0 <= k < fi.len() && fi[k] == j as usize;
        if passes_all(rows, i, fi) {
            assert(passes(rows[i], rows[fi[k] as int]));
            if improves_on(rows[i], rows[j]) {
                let q = choose|q: int|
                    1 <= q < rows[i].len() && q < rows[j].len() && spec_lt(rows[i][q], rows[j][q]);
                assert(spec_le(rows[j][q], rows[i][q]));
            } else {
                let q = choose|q: int| 0 <= q < rows[j].len() && spec_lt(#[trigger] rows[j][q], rows[i][q]);
                assert(key(rows[i][q]) == key(rows[j][q]));
            }
        }
    } else {
        let k = choose|k: int| 0 <= k < fj.len() && !passes(rows[j], rows[#[trigger] fj[k] as int]);
        lemma_front_shape(rows, j as nat);
        let t = fj[k] as int;
        assert(t < j);
        assert(rows[t].len() == ncols);
        // row `t` is no worse than row `j` everywhere, and differs from it somewhere
        assert forall|q: int| 0 <= q < rows[t].len() implies spec_le(#[trigger] rows[t][q], rows[j][q]) by {
            assert(!spec_is_nan(rows[t][q]) && !spec_is_nan(rows[j][q]));
            if q == 0 {
                assert(key(rows[t][0]) <= key(rows[j][0]));
            } else {
                assert(!spec_lt(rows[j][q], rows[t][q]));
            }
        }
        assert(!same_point(rows[j], rows[t]));
        let d = choose|d: int| 0 <= d < rows[j].len() && !(!spec_is_nan(#[trigger] rows[j][d])
            && !spec_is_nan(rows[t][d]) && key(rows[j][d]) == key(rows[t][d]));
        assert(!spec_is_nan(rows[t][d]) && !spec_is_nan(rows[j][d]) && !spec_is_nan(rows[i][d]));
        assert(spec_le(rows[t][d], rows[j][d]));
        assert(spec_le(rows[j][d], rows[i][d]));
        assert(spec_lt(rows[t][d], rows[i][d]));
        assert forall|q: int| 0 <= q < rows[t].len() implies spec_le(#[trigger] rows[t][q], rows[i][q]) by {
            assert(spec_le(rows[t][q], rows[j][q]));
            assert(spec_le(rows[j][q], rows[i][q]));
        }
        assert(strictly_dominates(rows[t], rows[i]));
        lemma_dominated_not_kept(rows, ncols, i, t);
    }
}

/// For a NaN-free set sorted by its first objective (in particular a lexicographically
/// sorted one), a row is on the front exactly when no earlier row dominates it.
pub proof fn lemma_front_is_non_dominated(rows: Seq<Seq<u64>>, ncols: nat, i: int)
    requires
        rectangular(rows, ncols),
        ncols >= 1,
        no_nan(rows),
        sorted_by_first(rows),
        rows.len() <= usize::MAX,
        0 <= i < rows.len(),
    ensures
        lexsorted_front(rows).contains(i as usize) <==> (forall|j: int|
            0 <= j < i ==> !strictly_dominates(#[trigger] rows[j], rows[i])),
{
    let fi = front_upto(rows, i as nat);
    lemma_front_member(rows, rows.len(), i);
    lemma_front_shape(rows, i as nat);
    if forall|j: int| 0 <= j < i ==> !strictly_dominates(#[trigger] rows[j], rows[i]) {
        assert forall|k: int| 0 <= k < fi.len() implies passes(rows[i], rows[#[trigger] fi[k] as int]) by {
            let t = fi[k] as int;
            assert(t < i);
            assert(!strictly_dominates(rows[t], rows[i]));
            assert(rows[t].len() == ncols && rows[i].len() == ncols);
            if !improves_on(rows[i], rows[t]) {
                assert forall|q: int| 0 <= q < rows[t].len() implies spec_le(#[trigger] rows[t][q], rows[i][q]) by {
                    assert(!spec_is_nan(rows[t][q]) && !spec_is_nan(rows[i][q]));
                    if q == 0 {
                        assert(key(rows[t][0]) <= key(rows[i][0]));
                    } else {
                        assert(!spec_lt(rows[i][q], rows[t][q]));
                    }
                }
                assert forall|q: int| 0 <= q < rows[i].len() implies !spec_is_nan(#[trigger] rows[i][q])
                    && !spec_is_nan(rows[t][q]) && key(rows[i][q]) == key(rows[t][q]) by {
                    assert(spec_le(rows[t][q], rows[i][q]));
                    assert(!spec_lt(rows[t][q], rows[i][q]));
                }
            }
        }
    } else {
        let j = choose|j: int| 0 <= j < i && strictly_dominates(#[trigger] rows[j], rows[i]);
        lemma_dominated_not_kept(rows, ncols, i, j);
    }
}

/// A point no worse than another in every objective from column `k` on, and strictly better
/// in one of them, comes strictly before it lexicographically.
proof fn lemma_dominating_comes_first(a: Seq<u64>, b: Seq<u64>, k: int)
    requires
        a.len() == b.len(),
        0 <= k,
        forall|q: int| k <= q < a.len() ==> spec_le(#[trigger] a[q], b[q]),
        exists|q: int| k <= q < a.len() && spec_lt(#[trigger] a[q], b[q]),
    ensures
        lex_lt_from(a, b, k),
    decreases a.len() - k,
{
    let q = choose|q: int| k <= q < a.len() && spec_lt(#[trigger] a[q], b[q]);
    assert(spec_le(a[k], b[k]));
    if key(a[k]) == key(b[k]) {
        assert(q != k);
        assert(k + 1 <= q < a.len() && spec_lt(a[q], b[q]));
        lemma_dominating_comes_first(a, b, k + 1);
    }
}

/// A lexicographically sorted set is sorted by its first objective.
pub proof fn lemma_lex_sorted_by_first(rows: Seq<Seq<u64>>, ncols: nat)
    requires
        rectangular(rows, ncols),
        ncols >= 1,
        lex_sorted(rows),
    ensures
        sorted_by_first(rows),
{
    assert forall|a: int, b: int| 0 <= a < b < rows.len() implies key(#[trigger] rows[a][0]) <= key(
        #[trigger] rows[b][0],
    ) by {
        assert(!lex_lt(rows[b], rows[a]));
        assert(rows[a].len() == ncols && rows[b].len() == ncols);
    }
}

/// For a NaN-free, lexicographically sorted set, a point is on the front exactly when no
/// point of the set dominates it: the front is the set of non-dominated points.
pub proof fn lemma_lexsorted_front_is_pareto_front(rows: Seq<Seq<u64>>, ncols: nat, i: int)
    requires
        rectangular(rows, ncols),
        ncols >= 1,
        no_nan(rows),
        lex_sorted(rows),
        rows.len() <= usize::MAX,
        0 <= i < rows.len(),
    ensures
        lexsorted_front(rows).contains(i as usize) <==> (forall|j: int|
            0 <= j < rows.len() ==> !strictly_dominates(#[trigger] rows[j], rows[i])),
{
    lemma_lex_sorted_by_first(rows, ncols);
    lemma_front_is_non_dominated(rows, ncols, i);
    assert(rows[i].len() == ncols);
    // No point dominates itself.
    if strictly_dominates(rows[i], rows[i]) {
        let q = choose|q: int| 0 <= q < rows[i].len() && spec_lt(#[trigger] rows[i][q], rows[i][q]);
    }
    // No later point dominates an earlier one in a lexicographically sorted set.
    assert forall|j: int| i < j < rows.len() implies !strictly_dominates(#[trigger] rows[j], rows[i]) by {
        if strictly_dominates(rows[j], rows[i]) {
            assert(rows[j].len() == ncols);
            lemma_dominating_comes_first(rows[j], rows[i], 0);
            assert(!lex_lt(rows[j], rows[i]));
        }
    }
}

/// Values with the same key are both NaN or both not.
proof fn lemma_same_key_same_nan(x: u64, y: u64)
    requires
        key(x) == key(y),
    ensures
        spec_is_nan(x) == spec_is_nan(y),
{
    assert(magnitude(x) == if key(x) < 0 { -key(x) } else { key(x) });
    assert(magnitude(y) == if key(y) < 0 { -key(y) } else { key(y) });
}

/// Whether one point passes another depends only on the points' values.
proof fn lemma_passes_by_values(a: Seq<u64>, a2: Seq<u64>, b: Seq<u64>, b2: Seq<u64>)
    requires
        same_keys(a, a2),
        same_keys(b, b2),
        a.len() == b.len(),
    ensures
        passes(a, b) == passes(a2, b2),
{
    assert forall|c: int| 0 <= c < a.len() implies spec_is_nan(#[trigger] a[c]) == spec_is_nan(a2[c])
        && spec_is_nan(b[c]) == spec_is_nan(b2[c]) && key(a[c]) == key(a2[c]) && key(b[c]) == key(b2[c]) by {
        lemma_same_key_same_nan(a[c], a2[c]);
        lemma_same_key_same_nan(b[c], b2[c]);
    }
    if improves_on(a, b) {
        let j = choose|j: int| 1 <= j < a.len() && j < b.len() && spec_lt(a[j], b[j]);
        assert(spec_is_nan(a[j]) == spec_is_nan(a2[j]) && spec_is_nan(b[j]) == spec_is_nan(b2[j]));
        assert(spec_lt(a2[j], b2[j]));
    }
    if improves_on(a2, b2) {
        let j = choose|j: int| 1 <= j < a2.len() && j < b2.len() && spec_lt(a2[j], b2[j]);
        assert(spec_is_nan(a[j]) == spec_is_nan(a2[j]) && spec_is_nan(b[j]) == spec_is_nan(b2[j]));
        assert(spec_lt(a[j], b[j]));
    }
    if same_point(a, b) {
        assert forall|k: int| 0 <= k < a2.len() implies !spec_is_nan(#[trigger] a2[k]) && !spec_is_nan(b2[k])
            && key(a2[k]) == key(b2[k]) by {
            assert(spec_is_nan(a[k]) == spec_is_nan(a2[k]) && spec_is_nan(b[k]) == spec_is_nan(b2[k]));
        }
    }
    if same_point(a2, b2) {
        assert forall|k: int| 0 <= k < a.len() implies !spec_is_nan(#[trigger] a[k]) && !spec_is_nan(b[k])
            && key(a[k]) == key(b[k]) by {
            assert(spec_is_nan(a[k]) == spec_is_nan(a2[k]) && spec_is_nan(b[k]) == spec_is_nan(b2[k]));
        }
    }
}

/// The front depends only on the rows' values: rows with the same values, row by row, have
/// the same front.
pub proof fn lemma_front_depends_on_values(
    rows: Seq<Seq<u64>>,
    rows2: Seq<Seq<u64>>,
    ncols: nat,
    m: nat,
)
    requires
        rectangular(rows, ncols),
        rows.len() == rows2.len(),
        rows.len() <= usize::MAX,
        m <= rows.len(),
        forall|k: int| 0 <= k < rows.len() ==> same_keys(#[trigger] rows[k], rows2[k]),
    ensures
        front_upto(rows, m) == front_upto(rows2, m),
    decreases m,
{
    if m > 0 {
        lemma_front_depends_on_values(rows, rows2, ncols, (m - 1) as nat);
        let prev = front_upto(rows, (m - 1) as nat);
        lemma_front_shape(rows, (m - 1) as nat);
        let i = m - 1;
        assert forall|k: int| 0 <= k < prev.len() implies passes(rows[i], rows[#[trigger] prev[k] as int])
            == passes(rows2[i], rows2[prev[k] as int]) by {
            let t = prev[k] as int;
            assert(same_keys(rows[i], rows2[i]) && same_keys(rows[t], rows2[t]));
            assert(rows[i].len() == ncols && rows[t].len() == ncols);
            lemma_passes_by_values(rows[i], rows2[i], rows[t], rows2[t]);
        }
        assert(passes_all(rows, i, prev) == passes_all(rows2, i, prev));
    }
}

/// The front among the first `m` rows is the part of the front among the first `n` rows
/// (for `m <= n`) that names rows below `m`: a prefix of it, after which every index is at
/// least `m`.
pub proof fn lemma_front_prefix(rows: Seq<Seq<u64>>, m: nat, n: nat)
    requires
        m <= n,
        n <= usize::MAX,
    ensures
        front_upto(rows, m).len() <= front_upto(rows, n).len(),
        front_upto(rows, m) == front_upto(rows, n).subrange(0, front_upto(rows, m).len() as int),
        forall|k: int|
            front_upto(rows, m).len() <= k < front_upto(rows, n).len() ==> #[trigger] front_upto(
                rows,
                n,
            )[k] >= m,
    decreases n,
{
    if n > m {
        lemma_front_prefix(rows, m, (n - 1) as nat);
        let prev = front_upto(rows, (n - 1) as nat);
        let fm = front_upto(rows, m);
        if passes_all(rows, n - 1, prev) {
            assert(front_upto(rows, n) == prev.push((n - 1) as usize));
            assert(fm =~= front_upto(rows, n).subrange(0, fm.len() as int));
        }
    } else {
        assert(front_upto(rows, n) =~= front_upto(rows, n).subrange(0, front_upto(rows, n).len() as int));
    }
}

/// Whether row `i` passes row `t` (see [`passes`]).
fn row_passes(values: &Matrix, i: usize, t: usize) -> (r: bool)
    requires
        values.wf(),
        i < values@.len(),
        t < values@.len(),
    ensures
        r == passes(values@[i as int], values@[t as int]),
{
    let a = &values.rows[i];
    let b = &values.rows[t];
    assert(a@ == values@[i as int] && b@ == values@[t as int]);
    let n = values.ncols;
    let mut j: usize = 1;
    while j < n
        invariant
            a@ == values@[i as int],
            b@ == values@[t as int],
            a@.len() == n,
            b@.len() == n,
            1 <= j,
            forall|q: int| 1 <= q < j && q < n ==> !spec_lt(a@[q], b@[q]),
        decreases n - j,
    {
        if lt(a[j], b[j]) {
            return true;
        }
        j = j + 1;
    }
    let mut q: usize = 0;
    while q < n
        invariant
            a@ == values@[i as int],
            b@ == values@[t as int],
            a@.len() == n,
            b@.len() == n,
            !improves_on(a@, b@),
            q <= n,
            forall|c: int| 0 <= c < q ==> !spec_is_nan(#[trigger] a@[c]) && !spec_is_nan(b@[c])
                && key(a@[c]) == key(b@[c]),
        decreases n - q,
    {
        if is_nan(a[q]) || is_nan(b[q]) || value_key(a[q]) != value_key(b[q]) {
            return false;
        }
        q = q + 1;
    }
    true
}

/// Returns the indices of the non-dominated points of a lexicographically sorted set, in
/// increasing order.
///
/// Scanning the points in order, a point is kept when, for every point kept before it, it is
/// strictly smaller than that point in some objective after the first, or equal to it in
/// every objective. For a NaN-free set sorted by its first objective these are the points that
/// no earlier point dominates ([`lemma_front_is_non_dominated`]); for a lexicographically
/// sorted one, the points that no point dominates
/// ([`lemma_lexsorted_front_is_pareto_front`]). There must be at least one objective.
pub fn argfront_lexsorted(values: &Matrix) -> (on_front: Vec<usize>)
    requires
        values.wf(),
        values.ncols >= 1,
    ensures
        on_front@ == lexsorted_front(values@),
{
    let ghost rows = values@;
    let n = values.nrows();
    let mut on_front: Vec<usize> = Vec::new();
    let mut remaining: Vec<usize> = Vec::new();
    for i in 0..n
        invariant
            n == rows.len(),
            remaining@.len() == i,
            forall|q: int| 0 <= q < i ==> #[trigger] remaining@[q] == q,
    {
        remaining.push(i);
    }
    let ghost mut lo: nat = 0;
    assert forall|i: usize| lo <= i < n implies remaining@.contains(i) == passes_all(
        rows,
        i as int,
        on_front@,
    ) by {
        assert(remaining@[i as int] == i);
    }
    while remaining.len() > 0
        invariant
            values.wf(),
            rows == values@,
            n == rows.len(),
            lo <= n,
            on_front@ == front_upto(rows, lo),
            increasing(remaining@),
            forall|q: int| 0 <= q < remaining@.len() ==> lo <= #[trigger] remaining@[q] < n,
            forall|i: usize|
                lo <= i < n ==> remaining@.contains(i) == passes_all(rows, i as int, on_front@),
        decreases remaining@.len(),
    {
        let top = remaining[0];
        let ghost old_front = on_front@;
        let ghost old_remaining = remaining@;
        proof {
            assert forall|i: int| lo <= i < top implies !passes_all(rows, i, front_upto(rows, lo)) by {
                if passes_all(rows, i, front_upto(rows, lo)) {
                    assert(remaining@.contains(i as usize));
                    let q = choose|q: int| 0 <= q < remaining@.len() && remaining@[q] == i as usize;
                    if q > 0 {
                        assert(remaining@[0] < remaining@[q]);
                    }
                }
            }
            lemma_front_skip(rows, lo, top as nat);
            assert(remaining@.contains(top));
            assert(passes_all(rows, top as int, front_upto(rows, top as nat)));
            assert(front_upto(rows, (top + 1) as nat) == front_upto(rows, top as nat).push(top));
        }
        on_front.push(top);
        let mut next: Vec<usize> = Vec::new();
        let len = remaining.len();
        for k in 0..len
            invariant
                values.wf(),
                rows == values@,
                n == rows.len(),
                len == remaining@.len(),
                len > 0,
                remaining@ == old_remaining,
                top == old_remaining[0],
                increasing(old_remaining),
                forall|q: int| 0 <= q < len ==> lo <= #[trigger] old_remaining[q] < n,
                forall|i: usize|
                    lo <= i < n ==> old_remaining.contains(i) == passes_all(rows, i as int, old_front),
                increasing(next@),
                next@.len() <= k,
                k > 0 ==> next@.len() < k,
                forall|a: int| 0 <= a < next@.len() ==> top < #[trigger] next@[a] < n,
                k < len ==> forall|a: int| 0 <= a < next@.len() ==> #[trigger] next@[a] < old_remaining[k as int],
                forall|i: usize|
                    top < i < n ==> next@.contains(i) == ((k < len ==> i < old_remaining[k as int])
                        && passes_all(rows, i as int, old_front) && passes(
                        rows[i as int],
                        rows[top as int],
                    )),
        {
            let idx = remaining[k];
            let ghost next_before = next@;
            let keep = k > 0 && row_passes(values, idx, top);
            if keep {
                next.push(idx);
            }
            proof {
                assert(old_remaining.contains(idx));
                if k == 0 {
                    assert(idx == top);
                } else {
                    assert(old_remaining[0] < old_remaining[k as int]);
                }
                assert forall|i: usize| top < i < n implies next@.contains(i) == ((k + 1 < len ==> i
                    < old_remaining[k + 1]) && passes_all(rows, i as int, old_front)
                    && passes(rows[i as int], rows[top as int])) by {
                    if keep && i == idx {
                        assert(next@[next@.len() - 1] == idx);
                        if k + 1 < len {
                            assert(old_remaining[k as int] < old_remaining[k + 1]);
                        }
                    } else {
                        if next@.contains(i) {
                            let a = choose|a: int| 0 <= a < next@.len() && next@[a] == i;
                            if !keep || a < next_before.len() {
                                assert(next_before[a] == i);
                                assert(next_before.contains(i));
                            }
                        }
                        if next_before.contains(i) {
                            let a = choose|a: int| 0 <= a < next_before.len() && next_before[a] == i;
                            assert(next@[a] == i);
                        }
                        if old_remaining[k as int] < i && (k + 1 < len ==> i < old_remaining[k + 1])
                            && passes_all(rows, i as int, old_front) {
                            assert(old_remaining.contains(i));
                            let q = choose|q: int| 0 <= q < len && old_remaining[q] == i;
                            if q <= k {
                                if q < k {
                                    assert(old_remaining[q] < old_remaining[k as int]);
                                }
                            } else if q > k + 1 {
                                assert(old_remaining[k + 1] < old_remaining[q]);
                            }
                        }
                    }
                }
                if k + 1 < len {
                    assert(old_remaining[k as int] < old_remaining[k + 1]);
                }
            }
        }
        remaining = next;
        proof {
            assert forall|i: usize| top + 1 <= i < n implies remaining@.contains(i) == passes_all(
                rows,
                i as int,
                on_front@,
            ) by {
                assert(on_front@ == old_front.push(top));
                lemma_passes_all_push(rows, i as int, old_front, top);
            }
            lo = (top + 1) as nat;
        }
    }
    proof {
        assert forall|i: int| lo <= i < n implies !passes_all(rows, i, front_upto(rows, lo)) by {
            if passes_all(rows, i, front_upto(rows, lo)) {
                assert(remaining@.contains(i as usize));
            }
        }
        lemma_front_skip(rows, lo, n as nat);
    }
    on_front
}

} // verus!
