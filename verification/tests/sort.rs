use wfg_rs::matrix::Matrix;
use wfg_rs::sort::{lexsort, lexsort_order};

fn to_matrix(points: &[Vec<f64>], ncols: usize) -> Matrix {
    let rows = points
        .iter()
        .map(|r| r.iter().map(|x| x.to_bits()).collect())
        .collect();
    Matrix::new(rows, ncols).unwrap()
}

fn to_points(m: &Matrix) -> Vec<Vec<f64>> {
    m.rows
        .iter()
        .map(|r| r.iter().map(|b| f64::from_bits(*b)).collect())
        .collect()
}

#[test]
fn sort_test_lexsort() {
    let points = to_matrix(
        &[
            vec![3.0, 3.0, 2.0],
            vec![1.0, 4.0, 4.0],
            vec![2.0, 1.0, 3.0],
            vec![4.0, 1.0, 1.0],
            vec![3.0, 1.5, 2.0],
            vec![2.0, 2.0, 3.0],
        ],
        3,
    );
    let sorted = lexsort(&points);
    let true_ground = vec![
        vec![1.0, 4.0, 4.0],
        vec![2.0, 1.0, 3.0],
        vec![2.0, 2.0, 3.0],
        vec![3.0, 1.5, 2.0],
        vec![3.0, 3.0, 2.0],
        vec![4.0, 1.0, 1.0],
    ];
    assert_eq!(to_points(&sorted), true_ground, "Lexicographic sorting failed");
    assert_eq!(sorted.ncols, 3);
}

#[test]
fn lexsort_keeps_ties_in_order() {
    // -0.0 and 0.0 compare equal, so the two rows tie and keep their order.
    let points = to_matrix(&[vec![1.0, 0.0], vec![0.5, 7.0], vec![1.0, -0.0]], 2);
    assert_eq!(lexsort_order(&points), vec![1, 0, 2]);
    let sorted = lexsort(&points);
    assert_eq!(sorted.rows[1][1], 0.0f64.to_bits());
    assert_eq!(sorted.rows[2][1], (-0.0f64).to_bits());
}

#[test]
fn lexsort_orders_negatives_and_infinities() {
    let points = to_matrix(
        &[
            vec![f64::INFINITY, 0.0],
            vec![-1.0, 2.0],
            vec![-1.0, -3.0],
            vec![f64::NEG_INFINITY, 5.0],
            vec![-0.5, 1.0],
        ],
        2,
    );
    let sorted = lexsort(&points);
    assert_eq!(
        to_points(&sorted),
        vec![
            vec![f64::NEG_INFINITY, 5.0],
            vec![-1.0, -3.0],
            vec![-1.0, 2.0],
            vec![-0.5, 1.0],
            vec![f64::INFINITY, 0.0],
        ]
    );
}

#[test]
fn lexsort_small_inputs() {
    let empty = Matrix::empty(3);
    let sorted = lexsort(&empty);
    assert_eq!(sorted.rows.len(), 0);
    assert_eq!(sorted.ncols, 3);
    // A single point needs no comparison, so a NaN is allowed.
    let one = to_matrix(&[vec![f64::NAN, 1.0]], 2);
    let sorted = lexsort(&one);
    assert_eq!(sorted.rows, one.rows);
}

#[test]
fn lexsort_does_not_depend_on_row_order() {
    let rows = vec![
        vec![2.0, -0.0, 1.0],
        vec![1.0, 3.0, 3.0],
        vec![2.0, 0.0, 1.0],
        vec![0.5, 9.0, 9.0],
        vec![2.0, -1.0, 5.0],
    ];
    let reordered: Vec<Vec<f64>> = [4, 2, 0, 3, 1].iter().map(|&i| rows[i].clone()).collect();
    let a = to_points(&lexsort(&to_matrix(&rows, 3)));
    let b = to_points(&lexsort(&to_matrix(&reordered, 3)));
    // equal as values (-0.0 == 0.0), row by row
    assert_eq!(a, b);
    assert_eq!(a[0], vec![0.5, 9.0, 9.0]);
    assert_eq!(a[4], vec![2.0, 0.0, 1.0]);
}

#[test]
fn lexsort_order_matches_a_stable_sort_on_many_points() {
    // a deterministic pseudo-random set with many ties
    let mut state: u64 = 0x2545_F491_4F6C_DD1D;
    let mut rows: Vec<Vec<f64>> = Vec::new();
    for _ in 0..257 {
        let mut row = Vec::new();
        for _ in 0..3 {
            state ^= state << 13;
            state ^= state >> 7;
            state ^= state << 17;
            row.push(((state % 7) as f64) - 3.0);
        }
        rows.push(row);
    }
    let mut expected: Vec<usize> = (0..rows.len()).collect();
    expected.sort_by(|&a, &b| {
        rows[a]
            .iter()
            .zip(rows[b].iter())
            .map(|(x, y)| x.partial_cmp(y).unwrap())
            .find(|o| *o != std::cmp::Ordering::Equal)
            .unwrap_or(std::cmp::Ordering::Equal)
    });
    assert_eq!(lexsort_order(&to_matrix(&rows, 3)), expected);
}
