//! Utilities: ordering helpers, rounding, and the derivative transform.

use tsdistances::utils::{derivate, filled, max, min, next_multiple_of_n};

fn derivative_rule(prev: f64, cur: f64, next: f64) -> f64 {
    ((cur - prev) + (next - prev) / 2.0) / 2.0
}

#[test]
fn min_max_basic() {
    assert_eq!(min(3, 5), 3);
    assert_eq!(min(5, 3), 3);
    assert_eq!(min(4, 4), 4);
    assert_eq!(max(3, 5), 5);
    assert_eq!(max(5, 3), 5);
    assert_eq!(max(4, 4), 4);
}

#[test]
fn next_multiple_basic() {
    assert_eq!(next_multiple_of_n(0, 5), 0);
    assert_eq!(next_multiple_of_n(1, 5), 5);
    assert_eq!(next_multiple_of_n(5, 5), 5);
    assert_eq!(next_multiple_of_n(7, 5), 10);
    assert_eq!(next_multiple_of_n(10, 5), 10);
    assert_eq!(next_multiple_of_n(11, 1), 11);
}

#[test]
fn filled_basic() {
    let v = filled(4, 7u64);
    assert_eq!(v, vec![7, 7, 7, 7]);
}

#[test]
fn derivative_length_is_input_minus_two() {
    for len in [2usize, 3, 4, 10, 33] {
        let x = vec![(0..len).map(|i| i as f64).collect::<Vec<f64>>()];
        let d = derivate(&x, derivative_rule);
        assert_eq!(d.len(), 1);
        assert_eq!(d[0].len(), len - 2, "length {len}");
    }
}

#[test]
fn derivative_known_values() {
    let x = vec![vec![1.0, 2.0, 4.0, 7.0, 11.0]];
    let d = derivate(&x, derivative_rule);
    assert_eq!(d[0].len(), 3);
    assert!((d[0][0] - 1.25).abs() < 1e-12);
    assert!((d[0][1] - 2.25).abs() < 1e-12);
    assert!((d[0][2] - 3.25).abs() < 1e-12);
}

#[test]
fn derivative_per_sequence_lengths() {
    let x = vec![
        vec![0.0, 1.0, 2.0],
        vec![5.0, 5.0, 5.0, 5.0, 5.0, 5.0],
        vec![1.0, -1.0],
    ];
    let d = derivate(&x, derivative_rule);
    assert_eq!(d.len(), 3);
    assert_eq!(d[0].len(), 1);
    assert_eq!(d[1].len(), 4);
    assert_eq!(d[2].len(), 0);
}
