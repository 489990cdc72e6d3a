//! Lexicographic sorting of points, ascending in their objectives.
use vstd::prelude::*;
use crate::matrix::{Matrix, pick_rows, rectangular};
use crate::objective::{key, spec_is_nan, value_key};

verus! {

/// `a` comes strictly before `b` when both are compared from column `k` on: at the first
/// column where their values differ, `a`'s is the smaller.
pub open spec fn lex_lt_from(a: Seq<u64>, b: Seq<u64>, k: int) -> bool
    decreases a.len() - k,
{
    if k < 0 || k >= a.len() || k >= b.len() {
        false
    } else if key(a[k]) < key(b[k]) {
        true
    } else if key(b[k]) < key(a[k]) {
        false
    } else {
        lex_lt_from(a, b, k + 1)
    }
}

/// `a` comes strictly before `b` in lexicographic order.
pub open spec fn lex_lt(a: Seq<u64>, b: Seq<u64>) -> bool {
    lex_lt_from(a, b, 0)
}

/// No value in `rows` is a NaN.
pub open spec fn no_nan(rows: Seq<Seq<u64>>) -> bool {
    forall|i: int, j: int|
        0 <= i < rows.len() && 0 <= j < rows[i].len() ==> !spec_is_nan(#[trigger] rows[i][j])
}

/// The rows are in ascending lexicographic order: no row comes strictly before an earlier one.
pub open spec fn lex_sorted(rows: Seq<Seq<u64>>) -> bool {
    forall|i: int, j: int| 0 <= i < j < rows.len() ==> !lex_lt(#[trigger] rows[j], #[trigger] rows[i])
}

/// `p` lists each of `0..n` exactly once.
pub open spec fn is_permutation(p: Seq<usize>, n: nat) -> bool {
    &&& p.len() == n
    &&& forall|k: int| 0 <= k < p.len() ==> #[trigger] p[k] < n
    &&& forall|k: int, l: int| 0 <= k < l < p.len() ==> #[trigger] p[k] != #[trigger] p[l]
}

/// `p` is the stable lexicographic sorting order of `rows`: a permutation that puts the rows
/// in ascending lexicographic order, and keeps rows that tie in their input order.
pub open spec fn stable_sort_order(rows: Seq<Seq<u64>>, p: Seq<usize>) -> bool {
    &&& is_permutation(p, rows.len())
    &&& lex_sorted(pick_rows(rows, p))
    &&& forall|k: int, l: int|
        0 <= k < l < p.len() ==> lex_lt(rows[#[trigger] p[k] as int], rows[#[trigger] p[l] as int])
            || p[k] < p[l]
}

/// The stable lexicographic sorting order of `rows` (it exists and is unique: see
/// [`lexsort_order`] and [`lemma_stable_sort_order_unique`]).
pub open spec fn stable_order(rows: Seq<Seq<u64>>) -> Seq<usize> {
    choose|p: Seq<usize>| stable_sort_order(rows, p)
}

/// The rows in stable lexicographic order.
pub open spec fn lexsorted_rows(rows: Seq<Seq<u64>>) -> Seq<Seq<u64>> {
    pick_rows(rows, stable_order(rows))
}

/// No sequence comes strictly before itself.
pub proof fn lemma_lex_irreflexive(a: Seq<u64>, k: int)
    ensures
        !lex_lt_from(a, a, k),
    decreases a.len() - k,
{
    if 0 <= k < a.len() {
        lemma_lex_irreflexive(a, k + 1);
    }
}

/// Coming strictly before is transitive.
pub proof fn lemma_lex_transitive(a: Seq<u64>, b: Seq<u64>, c: Seq<u64>, k: int)
    requires
        lex_lt_from(a, b, k),
        lex_lt_from(b, c, k),
    ensures
        lex_lt_from(a, c, k),
    decreases a.len() - k,
{
    if key(a[k]) == key(b[k]) && key(b[k]) == key(c[k]) {
        lemma_lex_transitive(a, b, c, k + 1);
    }
}

/// Coming strictly before is asymmetric.
pub proof fn lemma_lex_asymmetric(a: Seq<u64>, b: Seq<u64>, k: int)
    requires
        lex_lt_from(a, b, k),
    ensures
        !lex_lt_from(b, a, k),
    decreases a.len() - k,
{
    if key(a[k]) == key(b[k]) {
        lemma_lex_asymmetric(a, b, k + 1);
    }
}

/// For sequences of one length, "not strictly after" is transitive.
pub proof fn lemma_lex_not_lt_transitive(a: Seq<u64>, b: Seq<u64>, c: Seq<u64>, k: int)
    requires
        a.len() == b.len(),
        b.len() == c.len(),
        !lex_lt_from(b, a, k),
        !lex_lt_from(c, b, k),
    ensures
        !lex_lt_from(c, a, k),
    decreases a.len() - k,
{
    if 0 <= k < a.len() && key(a[k]) == key(b[k]) && key(b[k]) == key(c[k]) {
        lemma_lex_not_lt_transitive(a, b, c, k + 1);
    }
}

/// A permutation of `0..n` lists every index below `n`.
pub proof fn lemma_permutation_onto(p: Seq<usize>, n: nat, x: int)
    requires
        is_permutation(p, n),
        0 <= x < n,
    ensures
        exists|k: int| 0 <= k < p.len() && p[k] == x,
{
    let q = p.map_values(|v: usize| v as int);
    assert(q.no_duplicates()) by {
        assert forall|a: int, b: int| 0 <= a < q.len() && 0 <= b < q.len() && a != b implies q[a] != q[b] by {
            if a < b {
                assert(p[a] != p[b]);
            } else {
                assert(p[b] != p[a]);
            }
        }
    }
    q.unique_seq_to_set();
    vstd::set_lib::lemma_int_range(0, n as int);
    let range = vstd::set_lib::set_int_range(0, n as int);
    assert(q.to_set().subset_of(range)) by {
        assert forall|v: int| q.to_set().contains(v) implies range.contains(v) by {
            let k = choose|k: int| 0 <= k < q.len() && q[k] == v;
            assert(p[k] < n);
        }
    }
    vstd::seq_lib::seq_to_set_is_finite(q);
    vstd::set_lib::lemma_subset_equality(q.to_set(), range);
    assert(range.contains(x));
    assert(q.to_set().contains(x));
    let k = choose|k: int| 0 <= k < q.len() && q[k] == x;
    assert(p[k] == x);
}

/// Two stable sorting orders of the same rows agree on their first `len` positions.
proof fn lemma_stable_orders_agree_upto(rows: Seq<Seq<u64>>, p: Seq<usize>, q: Seq<usize>, len: int)
    requires
        stable_sort_order(rows, p),
        stable_sort_order(rows, q),
        0 <= len <= p.len(),
    ensures
        forall|k: int| 0 <= k < len ==> p[k] == q[k],
    decreases len,
{
    if len > 0 {
        lemma_stable_orders_agree_upto(rows, p, q, len - 1);
        let k = len - 1;
        let a = p[k];
        let b = q[k];
        if a != b {
            lemma_permutation_onto(p, rows.len(), b as int);
            lemma_permutation_onto(q, rows.len(), a as int);
            let l = choose|l: int| 0 <= l < p.len() && p[l] == b;
            let m = choose|m: int| 0 <= m < q.len() && q[m] == a;
            if l < k {
                assert(q[l] == b);
                assert(q[l] != q[k]);
            }
            if m < k {
                assert(p[m] == a);
                assert(p[m] != p[k]);
            }
            assert(l > k && m > k);
            let pp = pick_rows(rows, p);
            let pq = pick_rows(rows, q);
            // In `p`, row `a` comes before row `b`; in `q`, after it.
            assert(pp[k] == rows[a as int] && pp[l] == rows[b as int]);
            assert(pq[k] == rows[b as int] && pq[m] == rows[a as int]);
            assert(!lex_lt(rows[b as int], rows[a as int]));
            assert(!lex_lt(rows[a as int], rows[b as int]));
            assert(lex_lt(rows[p[k] as int], rows[p[l] as int]) || p[k] < p[l]);
            assert(lex_lt(rows[q[k] as int], rows[q[m] as int]) || q[k] < q[m]);
        }
    }
}

/// The stable lexicographic sorting order is unique, so the result of [`lexsort`] is
/// determined by its input.
pub proof fn lemma_stable_sort_order_unique(rows: Seq<Seq<u64>>, p: Seq<usize>, q: Seq<usize>)
    requires
        stable_sort_order(rows, p),
        stable_sort_order(rows, q),
    ensures
        p == q,
{
    lemma_stable_orders_agree_upto(rows, p, q, p.len() as int);
    assert(p =~= q);
}

/// The result of sorting is in ascending lexicographic order and holds each row of the
/// input exactly once: row `i` of the input stands at the position `k` where `p[k] == i`.
pub proof fn lemma_sorted_rows(rows: Seq<Seq<u64>>, p: Seq<usize>)
    requires
        stable_sort_order(rows, p),
    ensures
        lex_sorted(pick_rows(rows, p)),
        pick_rows(rows, p).len() == rows.len(),
        forall|k: int| 0 <= k < rows.len() ==> #[trigger] pick_rows(rows, p)[k] == rows[p[k] as int],
        forall|i: usize| i < rows.len() ==> #[trigger] p.contains(i),
{
    assert forall|i: usize| i < rows.len() implies #[trigger] p.contains(i) by {
        lemma_permutation_onto(p, rows.len(), i as int);
    }
}

/// Two points have the same key, hence the same value, in every objective.
pub open spec fn same_keys(a: Seq<u64>, b: Seq<u64>) -> bool {
    a.len() == b.len() && forall|c: int| 0 <= c < a.len() ==> key(#[trigger] a[c]) == key(b[c])
}

/// Two sequences of one length, neither strictly before the other, have equal keys.
proof fn lemma_tie_same_keys(a: Seq<u64>, b: Seq<u64>, k: int)
    requires
        a.len() == b.len(),
        0 <= k,
        !lex_lt_from(a, b, k),
        !lex_lt_from(b, a, k),
    ensures
        forall|c: int| k <= c < a.len() ==> key(#[trigger] a[c]) == key(b[c]),
    decreases a.len() - k,
{
    if k < a.len() {
        lemma_tie_same_keys(a, b, k + 1);
    }
}

/// In two sorted arrangements of the same rows, the row at a position in the first is not
/// strictly before the row at that position in the second.
proof fn lemma_arrangement_not_before(
    rows: Seq<Seq<u64>>,
    ncols: nat,
    p: Seq<usize>,
    r: Seq<usize>,
    k: int,
)
    requires
        rectangular(rows, ncols),
        is_permutation(p, rows.len()),
        is_permutation(r, rows.len()),
        lex_sorted(pick_rows(rows, p)),
        lex_sorted(pick_rows(rows, r)),
        0 <= k < rows.len(),
    ensures
        !lex_lt(rows[p[k] as int], rows[r[k] as int]),
{
    let s = pick_rows(rows, p);
    let t = pick_rows(rows, r);
    if lex_lt(s[k], t[k]) {
        let a_seq = p.subrange(0, k + 1);
        let b_seq = r.subrange(0, k);
        // every row among the first k + 1 of `s` stands among the first k of `t`
        assert forall|x: usize| a_seq.to_set().contains(x) implies b_seq.to_set().contains(x) by {
            let a = choose|a: int| 0 <= a < a_seq.len() && a_seq[a] == x;
            assert(p[a] == x);
            assert(s[a] == rows[x as int]);
            if a < k {
                assert(!lex_lt(s[k], s[a]));
            } else {
                lemma_lex_irreflexive(s[k], 0);
            }
            assert(rows[x as int].len() == ncols && s[k].len() == ncols && t[k].len() == ncols);
            if !lex_lt(s[a], t[k]) {
                lemma_lex_not_lt_transitive(t[k], s[a], s[k], 0);
            }
            lemma_permutation_onto(r, rows.len(), x as int);
            let m = choose|m: int| 0 <= m < r.len() && r[m] == x;
            assert(t[m] == rows[x as int]);
            if m > k {
                assert(!lex_lt(t[m], t[k]));
            } else if m == k {
                lemma_lex_irreflexive(t[k], 0);
            }
            assert(m < k);
            assert(b_seq[m] == x);
        }
        assert(a_seq.no_duplicates()) by {
            assert forall|i: int, j: int| 0 <= i < a_seq.len() && 0 <= j < a_seq.len() && i != j implies a_seq[i] != a_seq[j] by {
                if i < j {
                    assert(p[i] != p[j]);
                } else {
                    assert(p[j] != p[i]);
                }
            }
        }
        a_seq.unique_seq_to_set();
        b_seq.lemma_cardinality_of_set();
        vstd::seq_lib::seq_to_set_is_finite(b_seq);
        vstd::set_lib::lemma_len_subset(a_seq.to_set(), b_seq.to_set());
    }
}

/// Two sorted arrangements of the same rows hold, position by position, rows with the same
/// values.
pub proof fn lemma_sorted_arrangements_agree(
    rows: Seq<Seq<u64>>,
    ncols: nat,
    p: Seq<usize>,
    r: Seq<usize>,
)
    requires
        rectangular(rows, ncols),
        is_permutation(p, rows.len()),
        is_permutation(r, rows.len()),
        lex_sorted(pick_rows(rows, p)),
        lex_sorted(pick_rows(rows, r)),
    ensures
        forall|k: int|
            0 <= k < rows.len() ==> same_keys(#[trigger] pick_rows(rows, p)[k], pick_rows(rows, r)[k]),
{
    assert forall|k: int| 0 <= k < rows.len() implies same_keys(
        #[trigger] pick_rows(rows, p)[k],
        pick_rows(rows, r)[k],
    ) by {
        lemma_arrangement_not_before(rows, ncols, p, r, k);
        lemma_arrangement_not_before(rows, ncols, r, p, k);
        assert(rows[p[k] as int].len() == ncols && rows[r[k] as int].len() == ncols);
        lemma_tie_same_keys(rows[p[k] as int], rows[r[k] as int], 0);
    }
}

/// Sorting does not depend on the order of the input rows: sorting a reordering of the rows
/// gives, position by position, rows with the same values.
pub proof fn lemma_lexsort_ignores_row_order(rows: Seq<Seq<u64>>, ncols: nat, perm: Seq<usize>)
    requires
        rectangular(rows, ncols),
        rows.len() <= usize::MAX,
        is_permutation(perm, rows.len()),
    ensures
        lexsorted_rows(pick_rows(rows, perm)).len() == lexsorted_rows(rows).len(),
        forall|k: int|
            0 <= k < rows.len() ==> same_keys(
                #[trigger] lexsorted_rows(pick_rows(rows, perm))[k],
                lexsorted_rows(rows)[k],
            ),
{
    let p = stable_order(rows);
    let q = stable_order(pick_rows(rows, perm));
    lemma_stable_order_exists(rows, ncols);
    assert forall|k: int| 0 <= k < perm.len() implies #[trigger] pick_rows(rows, perm)[k].len() == ncols by {
        assert(perm[k] < rows.len());
    }
    lemma_stable_order_exists(pick_rows(rows, perm), ncols);
    let n = rows.len();
    let moved = pick_rows(rows, perm);
    let composed = Seq::new(n, |k: int| perm[q[k] as int]);
    assert forall|k: int| 0 <= k < n implies #[trigger] pick_rows(moved, q)[k] == pick_rows(rows, composed)[k] by {
        assert(q[k] < n);
    }
    assert(pick_rows(moved, q) =~= pick_rows(rows, composed));
    assert(is_permutation(composed, n)) by {
        assert forall|k: int| 0 <= k < composed.len() implies #[trigger] composed[k] < n by {
            assert(q[k] < n);
        }
        assert forall|k: int, l: int| 0 <= k < l < composed.len() implies #[trigger] composed[k]
            != #[trigger] composed[l] by {
            assert(q[k] != q[l]);
            if q[k] < q[l] {
                assert(perm[q[k] as int] != perm[q[l] as int]);
            } else {
                assert(perm[q[l] as int] != perm[q[k] as int]);
            }
        }
    }
    lemma_sorted_arrangements_agree(rows, ncols, composed, p);
}

/// Inserting row `i` into the stable order of the rows before it, behind every row it is
/// not strictly before and ahead of every row it is strictly before, gives the stable order
/// of the rows up to `i`.
proof fn lemma_insert_keeps_stable_order(
    rows: Seq<Seq<u64>>,
    ncols: nat,
    i: int,
    old_order: Seq<usize>,
    pos: int,
)
    requires
        rectangular(rows, ncols),
        0 <= i < rows.len(),
        i <= usize::MAX,
        stable_sort_order(rows.subrange(0, i), old_order),
        0 <= pos <= i,
        forall|q: int| pos <= q < i ==> lex_lt(rows[i], rows[#[trigger] old_order[q] as int]),
        pos > 0 ==> !lex_lt(rows[i], rows[old_order[pos - 1] as int]),
    ensures
        stable_sort_order(rows.subrange(0, i + 1), old_order.insert(pos, i as usize)),
{
    assert forall|k: int| 0 <= k < old_order.len() implies #[trigger] old_order[k] < i by {}
    assert forall|k: int| 0 <= k < old_order.len() implies #[trigger] rows[old_order[k] as int].len() == ncols by {}
    assert(rows[i].len() == ncols);
    let new_sub = rows.subrange(0, i + 1);
    let sub = rows.subrange(0, i);
    let o = old_order.insert(pos, i as usize);
    assert forall|k: int| 0 <= k < o.len() implies #[trigger] o[k] < i + 1 by {
        if k < pos {
            assert(o[k] == old_order[k]);
        } else if k > pos {
            assert(o[k] == old_order[k - 1]);
        }
    }
    assert forall|k: int, l: int| 0 <= k < l < o.len() implies #[trigger] o[k] != #[trigger] o[l] by {
        if k < pos && l < pos {
            assert(o[k] == old_order[k] && o[l] == old_order[l]);
        } else if k < pos && l > pos {
            assert(o[k] == old_order[k] && o[l] == old_order[l - 1]);
        } else if k > pos && l > pos {
            assert(o[k] == old_order[k - 1] && o[l] == old_order[l - 1]);
        } else if k == pos {
            assert(o[l] == old_order[l - 1]);
        } else {
            assert(o[k] == old_order[k]);
        }
    }
    // Values of rows named by the order, in terms of the full input.
    assert forall|k: int| 0 <= k < old_order.len() implies #[trigger] sub[old_order[k] as int]
        == rows[old_order[k] as int] by {}
    assert forall|k: int| 0 <= k < o.len() implies #[trigger] new_sub[o[k] as int]
        == rows[o[k] as int] by {
        assert(o[k] < i + 1);
    }
    let ps = pick_rows(new_sub, o);
    let old_ps = pick_rows(sub, old_order);
    assert forall|a: int, b: int| 0 <= a < b < ps.len() implies !lex_lt(#[trigger] ps[b], #[trigger] ps[a]) by {
        if a < pos && b < pos {
            assert(ps[a] == old_ps[a] && ps[b] == old_ps[b]);
        } else if a < pos && b > pos {
            assert(ps[a] == old_ps[a] && ps[b] == old_ps[b - 1]);
        } else if a > pos && b > pos {
            assert(ps[a] == old_ps[a - 1] && ps[b] == old_ps[b - 1]);
        } else if a == pos {
            // the new row is strictly before every later one
            assert(ps[b] == rows[old_order[b - 1] as int]);
            assert(lex_lt(rows[i as int], rows[old_order[b - 1] as int]));
            lemma_lex_asymmetric(rows[i as int], rows[old_order[b - 1] as int], 0);
        } else {
            // b == pos: the new row is not strictly before any earlier one
            assert(ps[a] == rows[old_order[a] as int]);
            assert(ps[b] == rows[i as int]);
            let last = rows[old_order[pos - 1] as int];
            assert(!lex_lt(rows[i as int], last));
            if a < pos - 1 {
                assert(old_ps[pos - 1] == last);
                assert(old_ps[a] == rows[old_order[a] as int]);
                assert(!lex_lt(old_ps[pos - 1], old_ps[a]));
                lemma_lex_not_lt_transitive(rows[old_order[a] as int], last, rows[i as int], 0);
            }
        }
    }
    assert forall|k: int, l: int| 0 <= k < l < o.len() implies lex_lt(
        new_sub[#[trigger] o[k] as int],
        new_sub[#[trigger] o[l] as int],
    ) || o[k] < o[l] by {
        if k < pos && l < pos {
            assert(o[k] == old_order[k] && o[l] == old_order[l]);
        } else if k < pos && l > pos {
            assert(o[k] == old_order[k] && o[l] == old_order[l - 1]);
        } else if k > pos && l > pos {
            assert(o[k] == old_order[k - 1] && o[l] == old_order[l - 1]);
        } else if k == pos {
            assert(o[l] == old_order[l - 1]);
        } else {
            assert(o[k] == old_order[k]);
        }
    }
}

/// Where row `i` goes when inserted into `order`, scanning back from position `pos`: behind
/// every row it is not strictly before.
proof fn lemma_insert_position(rows: Seq<Seq<u64>>, order: Seq<usize>, i: int, pos: int) -> (r: int)
    requires
        0 <= pos <= order.len(),
        forall|q: int| pos <= q < order.len() ==> lex_lt(rows[i], rows[#[trigger] order[q] as int]),
    ensures
        0 <= r <= pos,
        forall|q: int| r <= q < order.len() ==> lex_lt(rows[i], rows[#[trigger] order[q] as int]),
        r > 0 ==> !lex_lt(rows[i], rows[order[r - 1] as int]),
    decreases pos,
{
    if pos > 0 && lex_lt(rows[i], rows[order[pos - 1] as int]) {
        lemma_insert_position(rows, order, i, pos - 1)
    } else {
        pos
    }
}

/// The first `i` rows have a stable sorting order.
proof fn lemma_stable_order_of_prefix(rows: Seq<Seq<u64>>, ncols: nat, i: int) -> (p: Seq<usize>)
    requires
        rectangular(rows, ncols),
        0 <= i <= rows.len(),
        rows.len() <= usize::MAX,
    ensures
        stable_sort_order(rows.subrange(0, i), p),
    decreases i,
{
    if i == 0 {
        let p = Seq::<usize>::empty();
        assert(pick_rows(rows.subrange(0, 0), p) =~= Seq::<Seq<u64>>::empty());
        p
    } else {
        let prev = lemma_stable_order_of_prefix(rows, ncols, i - 1);
        let pos = lemma_insert_position(rows, prev, i - 1, i - 1);
        lemma_insert_keeps_stable_order(rows, ncols, i - 1, prev, pos);
        prev.insert(pos, (i - 1) as usize)
    }
}

/// Every set of points has a stable lexicographic sorting order, so [`stable_order`] is one.
pub proof fn lemma_stable_order_exists(rows: Seq<Seq<u64>>, ncols: nat)
    requires
        rectangular(rows, ncols),
        rows.len() <= usize::MAX,
    ensures
        stable_sort_order(rows, stable_order(rows)),
{
    let p = lemma_stable_order_of_prefix(rows, ncols, rows.len() as int);
    assert(rows.subrange(0, rows.len() as int) =~= rows);
}

/// Whether `a` comes strictly before `b` in lexicographic order.
fn lex_less(a: &Vec<u64>, b: &Vec<u64>) -> (r: bool)
    requires
        a@.len() == b@.len(),
    ensures
        r == lex_lt(a@, b@),
{
    let n = a.len();
    let mut k: usize = 0;
    while k < n
        invariant
            n == a@.len(),
            n == b@.len(),
            k <= n,
            lex_lt_from(a@, b@, 0) == lex_lt_from(a@, b@, k as int),
        decreases n - k,
    {
        let ka = value_key(a[k]);
        let kb = value_key(b[k]);
        if ka < kb {
            return true;
        }
        if kb < ka {
            return false;
        }
        k = k + 1;
    }
    false
}

/// Row `x` may stand before row `y` in the stable order: it is not strictly after it, and
/// where the two tie, `x` is the earlier row.
pub open spec fn stably_before(rows: Seq<Seq<u64>>, x: usize, y: usize) -> bool {
    !lex_lt(rows[y as int], rows[x as int]) && (lex_lt(rows[x as int], rows[y as int]) || x < y)
}

/// The rows named by `o` stand in the stable order.
pub open spec fn stably_sorted(rows: Seq<Seq<u64>>, o: Seq<usize>) -> bool {
    forall|k: int, l: int| 0 <= k < l < o.len() ==> stably_before(rows, #[trigger] o[k], #[trigger] o[l])
}

/// `o` lists each of `lo..hi` exactly once.
pub open spec fn is_range_permutation(o: Seq<usize>, lo: int, hi: int) -> bool {
    &&& o.len() == hi - lo
    &&& forall|k: int| 0 <= k < o.len() ==> lo <= #[trigger] o[k] < hi
    &&& forall|k: int, l: int| 0 <= k < l < o.len() ==> #[trigger] o[k] != #[trigger] o[l]
}

/// Standing before is transitive.
proof fn lemma_stably_before_transitive(rows: Seq<Seq<u64>>, ncols: nat, x: usize, y: usize, z: usize)
    requires
        rectangular(rows, ncols),
        x < rows.len(),
        y < rows.len(),
        z < rows.len(),
        stably_before(rows, x, y),
        stably_before(rows, y, z),
    ensures
        stably_before(rows, x, z),
{
    let (rx, ry, rz) = (rows[x as int], rows[y as int], rows[z as int]);
    assert(rx.len() == ncols && ry.len() == ncols && rz.len() == ncols);
    lemma_lex_not_lt_transitive(rx, ry, rz, 0);
    if lex_lt(rx, ry) && lex_lt(ry, rz) {
        lemma_lex_transitive(rx, ry, rz, 0);
    } else if lex_lt(rx, ry) {
        if !lex_lt(rx, rz) {
            lemma_lex_not_lt_transitive(ry, rz, rx, 0);
        }
    } else if lex_lt(ry, rz) {
        if !lex_lt(rx, rz) {
            lemma_lex_not_lt_transitive(rz, rx, ry, 0);
        }
    }
}

/// A stably sorted permutation of all rows is the stable sorting order.
proof fn lemma_stably_sorted_is_stable_order(rows: Seq<Seq<u64>>, o: Seq<usize>)
    requires
        is_range_permutation(o, 0, rows.len() as int),
        stably_sorted(rows, o),
    ensures
        stable_sort_order(rows, o),
{
    let ps = pick_rows(rows, o);
    assert forall|a: int, b: int| 0 <= a < b < ps.len() implies !lex_lt(#[trigger] ps[b], #[trigger] ps[a]) by {
        assert(stably_before(rows, o[a], o[b]));
    }
    assert forall|k: int, l: int| 0 <= k < l < o.len() implies lex_lt(
        rows[#[trigger] o[k] as int],
        rows[#[trigger] o[l] as int],
    ) || o[k] < o[l] by {
        assert(stably_before(rows, o[k], o[l]));
    }
}

/// Merges the stably sorted orders of rows `lo..mid` and `mid..hi` into that of `lo..hi`,
/// taking the earlier row first where two tie.
fn merge_orders(input: &Matrix, left: &Vec<usize>, right: &Vec<usize>, lo: usize, mid: usize, hi: usize) -> (o: Vec<usize>)
    requires
        input.wf(),
        forall|j: int| 0 <= j < input@.len() ==> #[trigger] input.rows@[j]@.len() == input.ncols,
        lo <= mid <= hi <= input@.len(),
        is_range_permutation(left@, lo as int, mid as int),
        is_range_permutation(right@, mid as int, hi as int),
        stably_sorted(input@, left@),
        stably_sorted(input@, right@),
    ensures
        is_range_permutation(o@, lo as int, hi as int),
        stably_sorted(input@, o@),
{
    let ghost rows = input@;
    let ghost ncols = input.ncols as nat;
    let mut o: Vec<usize> = Vec::new();
    let mut i: usize = 0;
    let mut j: usize = 0;
    let nl = left.len();
    let nr = right.len();
    while i < nl || j < nr
        invariant
            input.wf(),
            rows == input@,
            ncols == input.ncols,
            forall|q: int| 0 <= q < input@.len() ==> #[trigger] input.rows@[q]@.len() == input.ncols,
            lo <= mid <= hi <= input@.len(),
            nl == left@.len(),
            nr == right@.len(),
            is_range_permutation(left@, lo as int, mid as int),
            is_range_permutation(right@, mid as int, hi as int),
            stably_sorted(rows, left@),
            stably_sorted(rows, right@),
            i <= nl,
            j <= nr,
            o@.len() == i + j,
            forall|k: int| 0 <= k < o@.len() ==> lo <= #[trigger] o@[k] < hi,
            forall|k: int, l: int| 0 <= k < l < o@.len() ==> #[trigger] o@[k] != #[trigger] o@[l],
            forall|k: int|
                0 <= k < o@.len() ==> (exists|a: int| 0 <= a < i && left@[a] == #[trigger] o@[k]) || (
                exists|b: int| 0 <= b < j && right@[b] == o@[k]),
            stably_sorted(rows, o@),
            i < nl ==> forall|k: int| 0 <= k < o@.len() ==> stably_before(rows, #[trigger] o@[k], left@[i as int]),
            j < nr ==> forall|k: int| 0 <= k < o@.len() ==> stably_before(rows, #[trigger] o@[k], right@[j as int]),
        decreases nl + nr - i - j,
    {
        let ghost old_o = o@;
        let take_left = if i < nl && j < nr {
            !lex_less(&input.rows[right[j]], &input.rows[left[i]])
        } else {
            i < nl
        };
        if take_left {
            let x = left[i];
            proof {
                assert(lo <= x < mid);
                // `x` is not yet taken
                assert forall|k: int| 0 <= k < old_o.len() implies #[trigger] old_o[k] != x by {
                    if exists|a: int| 0 <= a < i && left@[a] == old_o[k] {
                        let a = choose|a: int| 0 <= a < i && left@[a] == old_o[k];
                        assert(left@[a] != left@[i as int]);
                    } else {
                        let b = choose|b: int| 0 <= b < j && right@[b] == old_o[k];
                        assert(right@[b] >= mid);
                    }
                }
                if j < nr {
                    assert(input.rows@[right@[j as int] as int]@ == rows[right@[j as int] as int]);
                    assert(input.rows@[x as int]@ == rows[x as int]);
                    assert(right@[j as int] >= mid);
                    assert(stably_before(rows, x, right@[j as int]));
                }
            }
            o.push(x);
            i = i + 1;
            proof {
                assert forall|k: int| 0 <= k < o@.len() implies (exists|a: int| 0 <= a < i && left@[a]
                    == #[trigger] o@[k]) || (exists|b: int| 0 <= b < j && right@[b] == o@[k]) by {
                    if k < old_o.len() {
                        assert(o@[k] == old_o[k]);
                    } else {
                        assert(left@[i - 1] == o@[k]);
                    }
                }
                if i < nl {
                    assert(stably_before(rows, left@[i - 1], left@[i as int]));
                    assert forall|k: int| 0 <= k < o@.len() implies stably_before(rows, #[trigger] o@[k], left@[i as int]) by {
                        if k < old_o.len() {
                            assert(o@[k] == old_o[k]);
                            lemma_stably_before_transitive(rows, ncols, old_o[k], left@[i - 1], left@[i as int]);
                        }
                    }
                }
                assert forall|k: int, l: int| 0 <= k < l < o@.len() implies stably_before(rows, #[trigger] o@[k], #[trigger] o@[l]) by {
                    if l < old_o.len() {
                        assert(o@[k] == old_o[k] && o@[l] == old_o[l]);
                    } else {
                        assert(o@[k] == old_o[k]);
                    }
                }
            }
        } else {
            let y = right[j];
            proof {
                assert(mid <= y < hi);
                assert forall|k: int| 0 <= k < old_o.len() implies #[trigger] old_o[k] != y by {
                    if exists|a: int| 0 <= a < i && left@[a] == old_o[k] {
                        let a = choose|a: int| 0 <= a < i && left@[a] == old_o[k];
                        assert(left@[a] < mid);
                    } else {
                        let b = choose|b: int| 0 <= b < j && right@[b] == old_o[k];
                        assert(right@[b] != right@[j as int]);
                    }
                }
                if i < nl {
                    assert(input.rows@[left@[i as int] as int]@ == rows[left@[i as int] as int]);
                    assert(input.rows@[y as int]@ == rows[y as int]);
                    assert(lex_lt(rows[y as int], rows[left@[i as int] as int]));
                    lemma_lex_asymmetric(rows[y as int], rows[left@[i as int] as int], 0);
                    assert(stably_before(rows, y, left@[i as int]));
                }
            }
            o.push(y);
            j = j + 1;
            proof {
                assert forall|k: int| 0 <= k < o@.len() implies (exists|a: int| 0 <= a < i && left@[a]
                    == #[trigger] o@[k]) || (exists|b: int| 0 <= b < j && right@[b] == o@[k]) by {
                    if k < old_o.len() {
                        assert(o@[k] == old_o[k]);
                    } else {
                        assert(right@[j - 1] == o@[k]);
                    }
                }
                if j < nr {
                    assert(stably_before(rows, right@[j - 1], right@[j as int]));
                    assert forall|k: int| 0 <= k < o@.len() implies stably_before(rows, #[trigger] o@[k], right@[j as int]) by {
                        if k < old_o.len() {
                            assert(o@[k] == old_o[k]);
                            lemma_stably_before_transitive(rows, ncols, old_o[k], right@[j - 1], right@[j as int]);
                        }
                    }
                }
                assert forall|k: int, l: int| 0 <= k < l < o@.len() implies stably_before(rows, #[trigger] o@[k], #[trigger] o@[l]) by {
                    if l < old_o.len() {
                        assert(o@[k] == old_o[k] && o@[l] == old_o[l]);
                    } else {
                        assert(o@[k] == old_o[k]);
                    }
                }
            }
        }
    }
    o
}

/// The stable sorting order of rows `lo..hi`, by merge sort.
fn merge_sort_range(input: &Matrix, lo: usize, hi: usize) -> (o: Vec<usize>)
    requires
        input.wf(),
        forall|j: int| 0 <= j < input@.len() ==> #[trigger] input.rows@[j]@.len() == input.ncols,
        lo <= hi <= input@.len(),
    ensures
        is_range_permutation(o@, lo as int, hi as int),
        stably_sorted(input@, o@),
    decreases hi - lo,
{
    if hi - lo <= 1 {
        let mut o: Vec<usize> = Vec::new();
        if hi > lo {
            o.push(lo);
        }
        o
    } else {
        let mid = lo + (hi - lo) / 2;
        let left = merge_sort_range(input, lo, mid);
        let right = merge_sort_range(input, mid, hi);
        merge_orders(input, &left, &right, lo, mid, hi)
    }
}

/// The stable lexicographic sorting order of the rows (see [`stable_sort_order`]).
pub fn lexsort_order(input: &Matrix) -> (p: Vec<usize>)
    requires
        input.wf(),
    ensures
        stable_sort_order(input@, p@),
        p@ == stable_order(input@),
{
    let n = input.nrows();
    assert forall|j: int| 0 <= j < n implies #[trigger] input.rows@[j]@.len() == input.ncols by {
        assert(input@[j] == input.rows@[j]@);
    }
    let order = merge_sort_range(input, 0, n);
    proof {
        lemma_stably_sorted_is_stable_order(input@, order@);
        lemma_stable_sort_order_unique(input@, order@, stable_order(input@));
    }
    order
}

/// Lexicographically sorts the points in ascending order of their objectives; points that
/// tie keep their order.
///
/// The values are compared as binary64 numbers; where two or more points are given, no value
/// may be NaN and there must be at least one objective.
pub fn lexsort(input: &Matrix) -> (r: Matrix)
    requires
        input.wf(),
        input@.len() < 2 || (input.ncols >= 1 && no_nan(input@)),
    ensures
        r.wf(),
        r.ncols == input.ncols,
        stable_sort_order(input@, stable_order(input@)),
        r@ == lexsorted_rows(input@),
{
    let order = lexsort_order(input);
    input.select_rows(&order)
}

} // verus!
