use wfg_rs::matrix::Matrix;
use wfg_rs::pareto::argfront_lexsorted;

fn to_matrix(points: &[Vec<f64>], ncols: usize) -> Matrix {
    let rows = points
        .iter()
        .map(|r| r.iter().map(|x| x.to_bits()).collect())
        .collect();
    Matrix::new(rows, ncols).unwrap()
}

fn to_points(m: &Matrix) -> Vec<Vec<f64>> {
    m.rows
        .iter()
        .map(|r| r.iter().map(|b| f64::from_bits(*b)).collect())
        .collect()
}

#[test]
fn pareto_test_lexsort() {
    let points = to_matrix(
        &[
            vec![1.0, 4.0, 4.0],
            vec![2.0, 1.0, 3.0],
            vec![2.0, 2.0, 3.0],
            vec![3.0, 1.5, 2.0],
            vec![3.0, 3.0, 2.0],
            vec![4.0, 1.0, 1.0],
        ],
        3,
    );
    let true_ground = vec![
        vec![1.0, 4.0, 4.0],
        vec![2.0, 1.0, 3.0],
        vec![3.0, 1.5, 2.0],
        vec![4.0, 1.0, 1.0],
    ];
    let mut on_front = argfront_lexsorted(&points);
    on_front.sort();
    let true_idx = vec![0, 1, 3, 5];
    assert_eq!(on_front, true_idx, "Front indices extraction failed");
    let front = points.select_rows(&on_front);
    assert_eq!(to_points(&front), true_ground, "Front extraction failed");
}

#[test]
fn front_keeps_equal_points() {
    // Equal points do not dominate each other, so both are on the front.
    let points = to_matrix(&[vec![1.0, 2.0], vec![1.0, 2.0]], 2);
    assert_eq!(argfront_lexsorted(&points), vec![0, 1]);
    let points = to_matrix(&[vec![1.0, 2.0], vec![1.0, 2.0], vec![2.0, 1.0], vec![2.0, 2.0]], 2);
    assert_eq!(argfront_lexsorted(&points), vec![0, 1, 2]);
    // -0.0 and 0.0 are equal values.
    let points = to_matrix(&[vec![0.0, -0.0], vec![-0.0, 0.0]], 2);
    assert_eq!(argfront_lexsorted(&points), vec![0, 1]);
}

#[test]
fn front_with_one_objective_is_first_point() {
    let points = to_matrix(&[vec![1.0], vec![2.0], vec![3.0]], 1);
    assert_eq!(argfront_lexsorted(&points), vec![0]);
    assert_eq!(argfront_lexsorted(&Matrix::empty(1)), Vec::<usize>::new());
}

#[test]
fn front_ignores_the_first_objective_and_nan() {
    // Only later objectives decide; a NaN never improves on anything.
    let points = to_matrix(
        &[vec![0.0, 5.0, 5.0], vec![9.0, 4.0, 9.0], vec![1.0, f64::NAN, 6.0], vec![2.0, 6.0, 4.0]],
        3,
    );
    assert_eq!(argfront_lexsorted(&points), vec![0, 1, 3]);
}
