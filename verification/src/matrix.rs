//! Row-major matrices of objective values: one row per point, one column per objective.
use vstd::prelude::*;

verus! {

/// A set of points, each given by its objective values (binary64 bit patterns).
pub struct Matrix {
    /// The points, in order.
    pub rows: Vec<Vec<u64>>,
    /// The number of objectives; every row has this length.
    pub ncols: usize,
}

/// Every row of `rows` has `ncols` entries.
pub open spec fn rectangular(rows: Seq<Seq<u64>>, ncols: nat) -> bool {
    forall|i: int| 0 <= i < rows.len() ==> #[trigger] rows[i].len() == ncols
}

/// The rows of `rows` picked by `idx`, in the order of `idx`.
pub open spec fn pick_rows(rows: Seq<Seq<u64>>, idx: Seq<usize>) -> Seq<Seq<u64>> {
    Seq::new(idx.len(), |k: int| rows[idx[k] as int])
}

impl View for Matrix {
    type V = Seq<Seq<u64>>;

    open spec fn view(&self) -> Seq<Seq<u64>> {
        self.rows@.map_values(|r: Vec<u64>| r@)
    }
}

impl Matrix {
    /// Well-formedness: the matrix is rectangular.
    pub open spec fn wf(&self) -> bool {
        rectangular(self@, self.ncols as nat)
    }

    /// Builds a matrix from its rows, or `None` where some row's length is not `ncols`.
    pub fn new(rows: Vec<Vec<u64>>, ncols: usize) -> (r: Option<Matrix>)
        ensures
            r is Some <==> rectangular(rows@.map_values(|v: Vec<u64>| v@), ncols as nat),
            r matches Some(m) ==> m.wf() && m.ncols == ncols && m@ == rows@.map_values(
                |v: Vec<u64>| v@,
            ),
    {
        let ghost view = rows@.map_values(|v: Vec<u64>| v@);
        let n = rows.len();
        for i in 0..n
            invariant
                n == rows.len(),
                view == rows@.map_values(|v: Vec<u64>| v@),
                forall|j: int| 0 <= j < i ==> #[trigger] view[j].len() == ncols,
        {
            if rows[i].len() != ncols {
                assert(view[i as int].len() != ncols);
                return None;
            }
        }
        Some(Matrix { rows, ncols })
    }

    /// A matrix with no rows and `ncols` columns.
    pub fn empty(ncols: usize) -> (r: Matrix)
        ensures
            r.wf(),
            r.ncols == ncols,
            r@.len() == 0,
    {
        let r = Matrix { rows: Vec::new(), ncols };
        assert(r@ =~= Seq::<Seq<u64>>::empty());
        r
    }

    /// The number of rows.
    pub fn nrows(&self) -> (n: usize)
        ensures
            n == self@.len(),
    {
        self.rows.len()
    }

    /// A copy of row `i`.
    pub fn row(&self, i: usize) -> (r: Vec<u64>)
        requires
            i < self@.len(),
        ensures
            r@ == self@[i as int],
    {
        let r = self.rows[i].clone();
        assert(r@ =~= self.rows@[i as int]@);
        r
    }

    /// The rows picked by `idx`, in the order of `idx` (an index may repeat).
    pub fn select_rows(&self, idx: &Vec<usize>) -> (r: Matrix)
        requires
            self.wf(),
            forall|k: int| 0 <= k < idx@.len() ==> #[trigger] idx@[k] < self@.len(),
        ensures
            r.wf(),
            r.ncols == self.ncols,
            r@ == pick_rows(self@, idx@),
    {
        let mut rows: Vec<Vec<u64>> = Vec::new();
        for k in 0..idx.len()
            invariant
                self.wf(),
                forall|j: int| 0 <= j < idx@.len() ==> #[trigger] idx@[j] < self@.len(),
                rows@.len() == k,
                forall|j: int| 0 <= j < k ==> #[trigger] rows@[j]@ == self@[idx@[j] as int],
        {
            rows.push(self.row(idx[k]));
        }
        let r = Matrix { rows, ncols: self.ncols };
        assert(r@ =~= pick_rows(self@, idx@));
        r
    }

    /// The rows from index `start` on.
    pub fn rows_from(&self, start: usize) -> (r: Matrix)
        requires
            self.wf(),
            start <= self@.len(),
        ensures
            r.wf(),
            r.ncols == self.ncols,
            r@ == self@.subrange(start as int, self@.len() as int),
    {
        let mut rows: Vec<Vec<u64>> = Vec::new();
        let n = self.rows.len();
        for k in start..n
            invariant
                n == self@.len(),
                start <= n,
                rows@.len() == k - start,
                forall|j: int| 0 <= j < k - start ==> #[trigger] rows@[j]@ == self@[start + j],
        {
            rows.push(self.row(k));
        }
        let r = Matrix { rows, ncols: self.ncols };
        assert(r@ =~= self@.subrange(start as int, n as int));
        r
    }
}

} // verus!
