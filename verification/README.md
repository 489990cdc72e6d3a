# wfg_rs

The hypervolume indicator of a set of points (minimisation in every objective), by the
While-Bradstreet-Barone (WFG) algorithm.

- `src/` is the verified library (Verus). It holds the order-based steps of the algorithm
  on objective values given as IEEE 754 binary64 bit patterns: comparison and maximum
  (`objective`), point sets (`matrix`), stable lexicographic sorting (`sort`), extraction of
  the Pareto front of a sorted set (`pareto`), and limiting by a pivot, the reference point,
  infinity detection and the preparation of the front (`wfg`). The contracts and the proved
  laws state what each step computes: sorting is stable, its result unique and, in value,
  independent of the order of the input; the extracted front is the set of non-dominated
  points, unchanged by adding a dominated point; the reference point is the column-wise
  maximum; and each step of the recursion hands on a set sorted by its first objective in
  which no point is dominated by an earlier one.
- `app/` is the `ndarray` interface over `num::Float` values. It converts arrays to and from
  bit patterns and does the float arithmetic of the hypervolume (the products of the
  inclusive hypervolumes and the sums of the exclusive ones).
- `tests/` runs the library on concrete values.
