use hptt::{transpose, transpose_simple};
use num_complex::{Complex32, Complex64};
use std::fmt::Debug;

fn check_transposed_equality<T>(input: &[T], transposed: &[T], permutated_indices: &[usize])
where
    T: Debug + PartialEq,
{
    assert_eq!(transposed.len(), permutated_indices.len());
    for (i, &j) in permutated_indices.iter().enumerate() {
        assert_eq!(transposed[i], input[j]);
    }
}

fn close_f32(a: f32, b: f32, ulps: u32) -> bool {
    if (a - b).abs() <= f32::EPSILON {
        return true;
    }
    if a.is_sign_negative() != b.is_sign_negative() {
        return false;
    }
    let (x, y) = (a.to_bits(), b.to_bits());
    x.max(y) - x.min(y) <= ulps
}

fn close_f64(a: f64, b: f64, ulps: u64) -> bool {
    if (a - b).abs() <= f64::EPSILON {
        return true;
    }
    if a.is_sign_negative() != b.is_sign_negative() {
        return false;
    }
    let (x, y) = (a.to_bits(), b.to_bits());
    x.max(y) - x.min(y) <= ulps
}

fn check_approx_equality_f32(a: &[f32], b: &[f32]) {
    assert_eq!(a.len(), b.len());
    for (&ai, &bi) in a.iter().zip(b.iter()) {
        assert!(close_f32(ai, bi, 4), "{} != {}", ai, bi);
    }
}

fn check_approx_equality_f64(a: &[f64], b: &[f64]) {
    assert_eq!(a.len(), b.len());
    for (&ai, &bi) in a.iter().zip(b.iter()) {
        assert!(close_f64(ai, bi, 4), "{} != {}", ai, bi);
    }
}

#[test]
fn test_f64_tensor() {
    let a = &[
        0.1, 0.65, 0.34, 0.76, 0.54, 0.17, 0.0, 0.63, 0.37, 0.22, 0.05, 0.17,
    ];

    let b = transpose_simple(&[3, 2, 0, 1], a, &[2, 2, 3, 1]).unwrap();

    check_transposed_equality(a, &b, &[0, 3, 6, 9, 1, 4, 7, 10, 2, 5, 8, 11]);
}

#[test]
fn test_simple_f64_tensor() {
    let a = &[
        0.1, 0.65, 0.34, 0.76, 0.54, 0.17, 0.0, 0.63, 0.37, 0.22, 0.05, 0.17,
    ];

    let b = transpose(
        &[3, 2, 0, 1],
        1.0,
        a,
        &[2, 2, 3, 1],
        None,
        0.0,
        None,
        None,
        1,
        false,
    )
    .unwrap();

    check_transposed_equality(a, &b, &[0, 4, 8, 1, 5, 9, 2, 6, 10, 3, 7, 11]);
}

#[test]
fn test_complex64_matrix() {
    let a = &[
        Complex64::new(1.0, 2.0),
        Complex64::new(3.0, 0.0),
        Complex64::new(0.0, -1.0),
        Complex64::new(0.0, 0.0),
        Complex64::new(0.42, 1.5),
        Complex64::new(-2.0, -4.0),
    ];

    let b = transpose(
        &[1, 0],
        Complex64::new(1.0, 0.0),
        a,
        &[3, 2],
        None,
        Complex64::new(0.0, 0.0),
        None,
        None,
        1,
        true,
    )
    .unwrap();

    check_transposed_equality(a, &b, &[0, 2, 4, 1, 3, 5]);
}

#[test]
fn test_multithreaded_f32() {
    let a = &[
        2.4f32, 3.5, 4.6, 5.7, 6.8, 7.9, 8.0, 9.1, 10.2, 11.3, 12.4, 13.5,
    ];
    let b = transpose(
        &[2, 0, 1],
        1.0f32,
        a,
        &[2, 3, 2],
        None,
        0.0f32,
        None,
        None,
        4,
        false,
    )
    .unwrap();

    check_transposed_equality(a, &b, &[0, 6, 1, 7, 2, 8, 3, 9, 4, 10, 5, 11]);
}

#[test]
fn test_outer_size_a_f32() {
    let a = &[
        2.4f32, 3.5, 4.6, 5.7, 6.8, 7.9, 8., 9.1, 10.2, 11.3, 12.4, 13.5,
    ];
    let b = transpose(
        &[2, 0, 1],
        1.0f32,
        a,
        &[2, 2, 1],
        Some(&[2, 3, 2]),
        0.0f32,
        None,
        None,
        1,
        false,
    )
    .unwrap();

    let solution = vec![2.4f32, 3.5, 4.6, 5.7];

    check_approx_equality_f32(&b, &solution);
}

#[test]
fn test_outer_size_b_f64() {
    let a = &[5.0, -3., 7.5, 0., 6.8, -3.1];
    let b = transpose(
        &[1, 0],
        1.0,
        a,
        &[3, 2],
        None,
        0.0,
        None,
        Some(&[3, 3]),
        1,
        false,
    )
    .unwrap();

    let solution = vec![5.0, 0., 0., -3., 6.8, 0., 7.5, -3.1, 0.];

    check_approx_equality_f64(&b, &solution);
}

#[test]
fn test_outer_sizes_f64() {
    // Input: a 4x4 matrix
    // Output: twice the transpose of the left lower 2x2 sub-matrix + b, written
    // into the left upper 2x2 sub-matrix of b (3x3)
    let a = &[
        -1.0, 2.5, 7.5, -3.0, //
        0.0, 4.2, 3.7, 1.2, //
        4.5, 6.1, -2.3, 0.5, //
        1.2, 3.4, 5.6, 7.8,
    ];

    let b = vec![
        1.0, 2.0, 3.0, //
        4.0, 5.0, 6.0, //
        7.0, 8.0, 9.0,
    ];

    let b = transpose(
        &[1, 0],
        2.0,
        &a[8..], // start from the upper left element of the lower 2x2 sub-matrix
        &[2, 2],
        Some(&[4, 4]),
        1.0,
        Some(b),
        Some(&[3, 3]),
        1,
        true,
    )
    .unwrap();

    let solution = [
        10.0, 4.4, 3.0, //
        16.2, 11.8, 6.0, //
        7.0, 8.0, 9.0,
    ];

    assert_eq!(b.len(), solution.len());
}

#[test]
fn test_alpha_beta_complex32() {
    let a = &[
        Complex32::new(1.0, 2.0),
        Complex32::new(0.0, -1.0),
        Complex32::new(0.1, 2.5),
        Complex32::new(0.0, 0.0),
        Complex32::new(-3.0, 0.0),
        Complex32::new(0.0, 3.0),
    ];

    let b = vec![
        Complex32::new(1.0, -0.5),
        Complex32::new(2.0, 0.0),
        Complex32::new(0.5, 1.0),
        Complex32::new(0.0, -2.0),
        Complex32::new(-2.0, 0.0),
        Complex32::new(-0.5, 1.0),
    ];

    let c = transpose(
        &[1, 0],
        Complex32::new(1.0, 0.5),
        a,
        &[3, 2],
        None,
        Complex32::new(0.5, 1.0),
        Some(b),
        None,
        1,
        true,
    )
    .unwrap();

    let solution = [
        Complex32::new(1.0, 3.25),
        Complex32::new(-0.15, 4.55),
        Complex32::new(-3.75, -0.5),
        Complex32::new(2.5, -2.0),
        Complex32::new(-1.0, -2.0),
        Complex32::new(-2.75, 3.0),
    ];

    assert_eq!(c.len(), solution.len());
    for (i, &s) in solution.iter().enumerate() {
        assert!(close_f32(c[i].re, s.re, 2), "{} != {}", c[i].re, s.re);
        assert!(close_f32(c[i].im, s.im, 2), "{} != {}", c[i].im, s.im);
    }
}
