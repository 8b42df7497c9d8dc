use hptt::sys::{transpose, transpose_simple};
use num_complex::Complex64;
use std::fmt::Debug;

fn test_transposed<T>(input: &[T], transposed: &[T], permutated_indices: &[usize])
where
    T: Debug + PartialEq,
{
    assert_eq!(transposed.len(), permutated_indices.len());
    for (i, j) in permutated_indices.iter().enumerate() {
        assert_eq!(transposed[i], input[*j]);
    }
}

#[test]
fn f64_tensor() {
    let a = &[
        0.1, 0.65, 0.34, 0.76, 0.54, 0.17, 0.0, 0.63, 0.37, 0.22, 0.05, 0.17,
    ];

    let b = transpose(&[3, 2, 0, 1], 1.0, a, &[2, 2, 3, 1], 0.0, None, 1, true).unwrap();

    test_transposed(a, &b, &[0, 3, 6, 9, 1, 4, 7, 10, 2, 5, 8, 11]);
}

#[test]
fn f64_tensor_simple() {
    // transpose_simple uses default column-major setting
    let a = &[
        0.1, 0.65, 0.34, 0.76, 0.54, 0.17, 0.0, 0.63, 0.37, 0.22, 0.05, 0.17,
    ];

    let b = transpose_simple(&[3, 2, 0, 1], a, &[2, 2, 3, 1]).unwrap();

    test_transposed(a, &b, &[0, 4, 8, 1, 5, 9, 2, 6, 10, 3, 7, 11]);
}

#[test]
fn complex64_matrix() {
    let a = &[
        Complex64::new(1.0, 2.0),
        Complex64::new(3.0, 0.0),
        Complex64::new(0.0, -1.0),
        Complex64::new(0.0, 0.0),
        Complex64::new(0.42, 1.5),
        Complex64::new(-2.0, -4.0),
    ];

    let b = transpose(
        &[1, 0],
        Complex64::new(1.0, 0.0),
        a,
        &[3, 2],
        Complex64::new(0.0, 0.0),
        None,
        1,
        true,
    )
    .unwrap();

    test_transposed(a, &b, &[0, 2, 4, 1, 3, 5]);
}
