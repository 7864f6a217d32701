//! The banded wavefront engine driven by the floating-point cost evaluators
//! of the elastic metric catalog.

use tsdistances::diagonal::diagonal_distance;

const TOL: f64 = 1e-9;

fn ordered<'a>(a: &'a [f64], b: &'a [f64]) -> (&'a [f64], &'a [f64]) {
    if a.len() > b.len() {
        (b, a)
    } else {
        (a, b)
    }
}

fn dtw(a: &[f64], b: &[f64], band_w: usize) -> f64 {
    let (a, b) = ordered(a, b);
    let cost = |i: usize, j: usize, x: f64, y: f64, z: f64| -> f64 {
        (a[i] - b[j]).powi(2) + x.min(y).min(z)
    };
    diagonal_distance(a.len(), b.len(), f64::INFINITY, 0.0, band_w, cost, cost)
}

fn erp(a: &[f64], b: &[f64], band_w: usize, gap: f64) -> f64 {
    let (a, b) = ordered(a, b);
    let cost = |i: usize, j: usize, x: f64, y: f64, z: f64| -> f64 {
        (y + (a[i] - b[j]).abs())
            .min(z + (a[i] - gap).abs())
            .min(x + (b[j] - gap).abs())
    };
    diagonal_distance(a.len(), b.len(), f64::INFINITY, 0.0, band_w, cost, cost)
}

fn lcss(a: &[f64], b: &[f64], band_w: usize, epsilon: f64) -> f64 {
    let (a, b) = ordered(a, b);
    let cost = |i: usize, j: usize, x: f64, y: f64, z: f64| -> f64 {
        if (a[i] - b[j]).abs() <= epsilon {
            y + 1.0
        } else {
            x.max(z)
        }
    };
    let similarity = diagonal_distance(a.len(), b.len(), 0.0, 0.0, band_w, cost, cost);
    1.0 - similarity / (a.len().max(b.len()) as f64)
}

fn adtw(a: &[f64], b: &[f64], band_w: usize, warp_penalty: f64) -> f64 {
    let (a, b) = ordered(a, b);
    let cost = |i: usize, j: usize, x: f64, y: f64, z: f64| -> f64 {
        (a[i] - b[j]).powi(2) + (z + warp_penalty).min(x + warp_penalty).min(y)
    };
    diagonal_distance(a.len(), b.len(), f64::INFINITY, 0.0, band_w, cost, cost)
}

fn wdtw(a: &[f64], b: &[f64], band_w: usize, g: f64) -> f64 {
    let (a, b) = ordered(a, b);
    let len = a.len().max(b.len());
    let half_len = len as f64 / 2.0;
    let weights: Vec<f64> = (0..len)
        .map(|i| 1.0 / (1.0 + std::f64::consts::E.powf(-g * (i as f64 - half_len))))
        .collect();
    let weights = &weights;
    let cost = move |i: usize, j: usize, x: f64, y: f64, z: f64| -> f64 {
        (a[i] - b[j]).powi(2) * weights[(i as i32 - j as i32).unsigned_abs() as usize]
            + z.min(x).min(y)
    };
    diagonal_distance(a.len(), b.len(), f64::INFINITY, 0.0, band_w, cost, cost)
}

fn msm_c(x: f64, y: f64, z: f64) -> f64 {
    1.0 + (y.min(z) - x).max(x - y.max(z)).max(0.0)
}

fn msm(a: &[f64], b: &[f64], band_w: usize) -> f64 {
    let (a, b) = ordered(a, b);
    let cost = |i: usize, j: usize, x: f64, y: f64, z: f64| -> f64 {
        let a_i = a[i];
        let b_j = b[j];
        let a_prev = if i != 0 { a[i - 1] } else { 0.0 };
        let b_prev = if j != 0 { b[j - 1] } else { 0.0 };
        (y + (a_i - b_j).abs())
            .min(z + msm_c(a_i, a_prev, b_j))
            .min(x + msm_c(b_j, a_i, b_prev))
    };
    diagonal_distance(a.len(), b.len(), f64::INFINITY, 0.0, band_w, cost, cost)
}

fn twe(a: &[f64], b: &[f64], band_w: usize, stiffness: f64, penalty: f64) -> f64 {
    let (a, b) = ordered(a, b);
    let delete_addition = stiffness + penalty;
    let cost = move |i: usize, j: usize, x: f64, y: f64, z: f64| -> f64 {
        let a_i = a[i];
        let b_j = b[j];
        let a_prev = if i != 0 { a[i - 1] } else { 0.0 };
        let b_prev = if j != 0 { b[j - 1] } else { 0.0 };
        let del_a = z + (a_prev - a_i).abs() + delete_addition;
        let del_b = x + (b_prev - b_j).abs() + delete_addition;
        let match_a_b = y
            + (a_i - b_j).abs()
            + (a_prev - b_prev).abs()
            + stiffness * (2.0 * (i as isize - j as isize).abs() as f64);
        del_a.min(del_b).min(match_a_b)
    };
    diagonal_distance(a.len(), b.len(), f64::INFINITY, 0.0, band_w, cost, cost)
}

const A: [f64; 7] = [0.0, 1.0, 2.0, 3.0, 4.0, 2.0, 1.0];
const B: [f64; 7] = [1.0, 3.0, 2.0, 0.0, 4.0, 1.0, 0.0];

#[test]
fn dtw_identical_sequences_zero() {
    let d = dtw(&[0.0, 0.0, 0.0], &[0.0, 0.0, 0.0], 3);
    assert!(d.abs() < TOL, "dtw of identical zero sequences must be 0, got {d}");
}

#[test]
fn dtw_known_value() {
    // Full band: plain DTW between [1,2,3] and [2,3,4]:
    // optimal alignment costs 1 + 0 + 0 + 1 = 2.
    let d = dtw(&[1.0, 2.0, 3.0], &[2.0, 3.0, 4.0], 3);
    assert!((d - 2.0).abs() < TOL, "got {d}");
}

#[test]
fn dtw_unequal_lengths() {
    let d = dtw(&[0.0, 1.0], &[0.0, 1.0, 1.0, 1.0], 4);
    assert!(d.abs() < TOL, "got {d}");
}

#[test]
fn self_distance_zero_all_dp_metrics() {
    let s = A;
    assert!(dtw(&s, &s, 7).abs() < TOL);
    assert!(erp(&s, &s, 7, 0.5).abs() < TOL);
    assert!(adtw(&s, &s, 7, 0.4).abs() < TOL);
    assert!(wdtw(&s, &s, 7, 0.05).abs() < TOL);
    assert!(msm(&s, &s, 7).abs() < TOL);
    assert!(twe(&s, &s, 7, 0.0, 0.0).abs() < TOL);
    assert!(lcss(&s, &s, 7, 0.0).abs() < TOL);
}

#[test]
fn lcss_perfect_match_normalized_zero() {
    let d = lcss(&[0.0, 1.0, 2.0], &[0.0, 1.0, 2.0], 3, 0.0);
    assert!(d.abs() < TOL, "got {d}");
}

#[test]
fn lcss_no_match_normalized_one() {
    let d = lcss(&[0.0, 0.0, 0.0], &[9.0, 9.0, 9.0], 3, 0.1);
    assert!((d - 1.0).abs() < TOL, "got {d}");
}

#[test]
fn twe_and_msm_zero_parameters_identical_sequences() {
    let s = [1.5, -2.0, 3.25, 0.5];
    assert!(twe(&s, &s, 4, 0.0, 0.0).abs() < TOL);
    assert!(msm(&s, &s, 4).abs() < TOL);
}

#[test]
fn band_monotonicity_minimization() {
    // Widening the corridor can only help a minimization metric.
    let mut prev = f64::INFINITY;
    for w in 0..=7usize {
        let d = dtw(&A, &B, w);
        assert!(
            d <= prev + TOL,
            "dtw with width {w} gave {d}, larger than {prev} with a narrower band"
        );
        prev = d;
    }
}

#[test]
fn band_monotonicity_erp_msm_twe() {
    for (name, f) in [
        ("erp", Box::new(|w: usize| erp(&A, &B, w, 0.3)) as Box<dyn Fn(usize) -> f64>),
        ("msm", Box::new(|w: usize| msm(&A, &B, w))),
        ("twe", Box::new(|w: usize| twe(&A, &B, w, 0.2, 0.7))),
        ("adtw", Box::new(|w: usize| adtw(&A, &B, w, 0.1))),
    ] {
        let mut prev = f64::INFINITY;
        for w in 0..=7usize {
            let d = f(w);
            assert!(d <= prev + TOL, "{name} not monotone at width {w}: {d} > {prev}");
            prev = d;
        }
    }
}

#[test]
fn band_monotonicity_maximization() {
    // Widening the corridor can only increase the LCSS similarity, so the
    // normalized distance can only shrink.
    let a = [0.0, 1.0, 2.0, 3.0, 4.0, 5.0, 6.0];
    let b = [6.0, 5.0, 4.0, 3.0, 2.0, 1.0, 0.0];
    let mut prev = f64::INFINITY;
    for w in 0..=7usize {
        let d = lcss(&a, &b, w, 0.5);
        assert!(d <= prev + TOL, "lcss distance grew at width {w}: {d} > {prev}");
        prev = d;
    }
}

#[test]
fn symmetry_within_tolerance() {
    assert!((dtw(&A, &B, 7) - dtw(&B, &A, 7)).abs() < TOL);
    assert!((erp(&A, &B, 7, 0.3) - erp(&B, &A, 7, 0.3)).abs() < TOL);
    assert!((msm(&A, &B, 7) - msm(&B, &A, 7)).abs() < TOL);
    assert!((twe(&A, &B, 7, 0.2, 0.7) - twe(&B, &A, 7, 0.2, 0.7)).abs() < TOL);
    assert!((lcss(&A, &B, 7, 0.5) - lcss(&B, &A, 7, 0.5)).abs() < TOL);
    assert!((adtw(&A, &B, 7, 0.1) - adtw(&B, &A, 7, 0.1)).abs() < TOL);
    assert!((wdtw(&A, &B, 7, 0.05) - wdtw(&B, &A, 7, 0.05)).abs() < TOL);
}

#[test]
fn symmetry_unequal_lengths() {
    let a = [0.5, 2.0, -1.0];
    let b = [1.0, 0.0, 2.0, 4.0, -2.0];
    assert!((dtw(&a, &b, 5) - dtw(&b, &a, 5)).abs() < TOL);
    assert!((erp(&a, &b, 5, 0.0) - erp(&b, &a, 5, 0.0)).abs() < TOL);
}

#[test]
fn engine_determinism() {
    // Two runs over the same inputs are bit-identical.
    let d1 = dtw(&A, &B, 3);
    let d2 = dtw(&A, &B, 3);
    assert!(d1 == d2);
}

#[test]
fn zero_band_is_diagonal_path() {
    // A corridor of width 0 over equal-length sequences restricts the
    // alignment to the main diagonal: plain pointwise accumulation.
    let d = dtw(&[1.0, 2.0, 3.0], &[2.0, 3.0, 4.0], 0);
    assert!((d - 3.0).abs() < TOL, "got {d}");
}

#[test]
fn edge_cells_use_the_edge_evaluator() {
    // With a corridor of width 0 the single cell of a 1x1 grid lies on the
    // corridor boundary, so the edge evaluator is the one that runs.
    let interior = |_i: usize, _j: usize, _x: f64, _y: f64, _z: f64| 7.0;
    let edge = |_i: usize, _j: usize, _x: f64, _y: f64, _z: f64| 9.0;
    let on_edge = diagonal_distance(1, 1, f64::INFINITY, 0.0, 0, interior, edge);
    assert_eq!(on_edge, 9.0);
    // With a wider corridor the same cell is interior.
    let inside = diagonal_distance(1, 1, f64::INFINITY, 0.0, 1, interior, edge);
    assert_eq!(inside, 7.0);
}

#[test]
fn first_cell_sees_the_origin_boundary() {
    // A cost evaluator that just hands back its diagonal predecessor
    // exposes the virtual boundary value at the first cell.
    let pass_diag = |_i: usize, _j: usize, _x: f64, y: f64, _z: f64| y;
    let r = diagonal_distance(1, 1, f64::INFINITY, 42.5, 1, pass_diag, pass_diag);
    assert_eq!(r, 42.5);
}

#[test]
fn generic_cells_longest_common_subsequence() {
    // The engine is generic in the cell type: an integer-valued recurrence
    // computes the longest common subsequence of two symbol sequences.
    let a: Vec<u8> = b"gattaca".to_vec();
    let b: Vec<u8> = b"tacgacg".to_vec();
    let (a, b) = if a.len() > b.len() { (b, a) } else { (a, b) };
    let (a, b) = (&a, &b);
    let cost = |i: usize, j: usize, x: u64, y: u64, z: u64| -> u64 {
        if a[i] == b[j] {
            y + 1
        } else {
            x.max(z)
        }
    };
    let lcs = diagonal_distance(a.len(), b.len(), 0u64, 0u64, b.len(), cost, cost);
    // One longest common subsequence of "gattaca" and "tacgacg" is "taca".
    assert_eq!(lcs, 4);
}

#[test]
fn narrow_band_clamps_to_length_difference() {
    // With a requested width of 0 and unequal lengths, the corridor is
    // clamped so that a path to the final cell still exists.
    let a = [0.0, 0.0];
    let b = [0.0, 0.0, 0.0, 0.0, 0.0];
    let d = dtw(&a, &b, 0);
    assert!(d.is_finite());
    assert!(d.abs() < TOL);
}
