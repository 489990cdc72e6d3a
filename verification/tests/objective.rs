use wfg_rs::matrix::Matrix;
use wfg_rs::objective::{is_infinite, is_nan, lt, max, value_key, INFINITY, NEG_INFINITY};

fn b(x: f64) -> u64 {
    x.to_bits()
}

#[test]
fn comparisons_follow_binary64() {
    let values = [
        f64::NEG_INFINITY,
        -f64::MAX,
        -1.5,
        -f64::MIN_POSITIVE,
        -0.0,
        0.0,
        5e-324,
        1.0,
        f64::MAX,
        f64::INFINITY,
    ];
    for &x in &values {
        for &y in &values {
            assert_eq!(lt(b(x), b(y)), x < y, "{} < {}", x, y);
        }
        assert!(!lt(b(x), b(f64::NAN)));
        assert!(!lt(b(f64::NAN), b(x)));
    }
    assert_eq!(value_key(b(-0.0)), 0);
    assert_eq!(value_key(b(0.0)), 0);
    assert_eq!(value_key(b(1.0)), 0x3FF0_0000_0000_0000);
    assert_eq!(value_key(b(-1.0)), -0x3FF0_0000_0000_0000);
}

#[test]
fn nan_and_infinity_are_recognised() {
    assert!(is_nan(b(f64::NAN)));
    assert!(is_nan(b(-f64::NAN)));
    assert!(!is_nan(b(f64::INFINITY)));
    assert!(!is_nan(b(-3.0)));
    assert!(is_infinite(INFINITY));
    assert!(is_infinite(NEG_INFINITY));
    assert!(!is_infinite(b(f64::MAX)));
    assert!(!is_infinite(b(f64::NAN)));
    assert_eq!(f64::from_bits(INFINITY), f64::INFINITY);
    assert_eq!(f64::from_bits(NEG_INFINITY), f64::NEG_INFINITY);
}

#[test]
fn max_ignores_nan_and_keeps_the_first_of_equals() {
    assert_eq!(max(b(1.0), b(2.0)), b(2.0));
    assert_eq!(max(b(2.0), b(1.0)), b(2.0));
    assert_eq!(max(b(f64::NAN), b(-7.0)), b(-7.0));
    assert_eq!(max(b(-7.0), b(f64::NAN)), b(-7.0));
    assert_eq!(max(b(-0.0), b(0.0)), b(-0.0));
    assert_eq!(max(b(0.0), b(-0.0)), b(0.0));
    assert_eq!(max(NEG_INFINITY, b(-1e300)), b(-1e300));
}

#[test]
fn matrices_must_be_rectangular() {
    assert!(Matrix::new(vec![vec![1, 2], vec![3]], 2).is_none());
    let m = Matrix::new(vec![vec![1, 2], vec![3, 4]], 2).unwrap();
    assert_eq!(m.nrows(), 2);
    assert_eq!(m.row(1), vec![3, 4]);
    assert_eq!(m.rows_from(1).rows, vec![vec![3, 4]]);
    assert_eq!(m.select_rows(&vec![1, 1, 0]).rows, vec![vec![3, 4], vec![3, 4], vec![1, 2]]);
}
