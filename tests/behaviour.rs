use hptt::kernel::partition;
use hptt::perm::inverse_of;
use hptt::sys::{transpose_configured, Settings};
use hptt::{inv_permute, permute, transpose, transpose_simple, TransposeError};
use num_complex::Complex64;

fn dense(
    perm: &[i32],
    a: &[f64],
    shape: &[i32],
    threads: u32,
    row_major: bool,
) -> Result<Vec<f64>, TransposeError> {
    transpose(perm, 1.0, a, shape, None, 0.0, None, None, threads, row_major)
}

fn ramp(n: usize) -> Vec<f64> {
    (0..n).map(|i| i as f64 * 0.5 - 3.0).collect()
}

#[test]
fn identity_permutation_returns_input() {
    let a = ramp(24);
    for &threads in &[0u32, 1, 3, 4, 16] {
        for &row_major in &[true, false] {
            let b = dense(&[0, 1, 2], &a, &[2, 3, 4], threads, row_major).unwrap();
            assert_eq!(b, a);
        }
    }
}

#[test]
fn inverse_round_trip_returns_input() {
    let a = ramp(60);
    let shape = [3, 4, 5];
    let perm = [2, 0, 1];
    let inverse = inv_permute(&perm, &[0, 1, 2]);
    assert_eq!(inverse, vec![1, 2, 0]);
    let permuted_shape = permute(&perm, &shape);
    assert_eq!(permuted_shape, vec![5, 3, 4]);
    for &row_major in &[true, false] {
        let b = dense(&perm, &a, &shape, 2, row_major).unwrap();
        assert_ne!(b, a);
        let c = dense(&inverse, &b, &permuted_shape, 3, row_major).unwrap();
        assert_eq!(c, a);
    }
}

#[test]
fn permute_and_inv_permute_undo_each_other() {
    let arr = [2, 4, 3, 1];
    let perm = [3, 2, 0, 1];
    let out = permute(&perm, &arr);
    assert_eq!(out, vec![1, 3, 2, 4]);
    assert_eq!(inv_permute(&perm, &out), vec![2, 4, 3, 1]);
    assert_eq!(permute(&perm, &inv_permute(&perm, &arr)), vec![2, 4, 3, 1]);
    let empty: [u8; 0] = [];
    assert_eq!(inv_permute(&[], &empty), Vec::<u8>::new());
}

#[test]
fn thread_count_does_not_change_result() {
    let a = ramp(120);
    let shape = [2, 3, 4, 5];
    let perm = [3, 1, 0, 2];
    let one = transpose(&perm, 1.5, &a, &shape, None, 0.0, None, None, 1, true).unwrap();
    for &threads in &[0u32, 4, 16, 200] {
        let many = transpose(&perm, 1.5, &a, &shape, None, 0.0, None, None, threads, true).unwrap();
        assert_eq!(many, one);
    }
}

#[test]
fn complex_matrix_swap_axes() {
    let a = [
        Complex64::new(1.0, 2.0),
        Complex64::new(3.0, 0.0),
        Complex64::new(0.0, -1.0),
        Complex64::new(0.0, 0.0),
        Complex64::new(0.42, 1.5),
        Complex64::new(-2.0, -4.0),
    ];
    let b = transpose(
        &[1, 0],
        Complex64::new(1.0, 0.0),
        &a,
        &[3, 2],
        None,
        Complex64::new(0.0, 0.0),
        None,
        None,
        1,
        true,
    )
    .unwrap();
    let expected = vec![
        Complex64::new(1.0, 2.0),
        Complex64::new(0.0, -1.0),
        Complex64::new(0.42, 1.5),
        Complex64::new(3.0, 0.0),
        Complex64::new(0.0, 0.0),
        Complex64::new(-2.0, -4.0),
    ];
    assert_eq!(b, expected);
}

#[test]
fn input_sub_view_f64() {
    let a = [2.4, 3.5, 4.6, 5.7, 6.8, 7.9, 8.0, 9.1, 10.2, 11.3, 12.4, 13.5];
    let b = transpose(&[2, 0, 1], 1.0, &a, &[2, 2, 1], Some(&[2, 3, 2]), 0.0, None, None, 1, false).unwrap();
    assert_eq!(b, vec![2.4, 3.5, 4.6, 5.7]);
}

#[test]
fn padding_of_larger_output_is_zero() {
    let a = [5.0, -3.0, 7.5, 0.0, 6.8, -3.1];
    let b = transpose(&[1, 0], 1.0, &a, &[3, 2], None, 0.0, None, Some(&[3, 3]), 1, false).unwrap();
    assert_eq!(b, vec![5.0, 0.0, 0.0, -3.0, 6.8, 0.0, 7.5, -3.1, 0.0]);
    let empty: Vec<f64> = Vec::new();
    let c = transpose(&[1, 0], 1.0, &a, &[3, 2], None, 0.0, Some(empty), Some(&[3, 3]), 2, false).unwrap();
    assert_eq!(c, b);
}

#[test]
fn accumulate_into_sub_view_of_output() {
    let a = [
        -1.0, 2.5, 7.5, -3.0, //
        0.0, 4.2, 3.7, 1.2, //
        4.5, 6.1, -2.3, 0.5, //
        1.2, 3.4, 5.6, 7.8,
    ];
    let b = vec![1.0, 2.0, 3.0, 4.0, 5.0, 6.0, 7.0, 8.0, 9.0];
    let c = transpose(&[1, 0], 2.0, &a[8..], &[2, 2], Some(&[4, 4]), 1.0, Some(b), Some(&[3, 3]), 1, true)
        .unwrap();
    let expected: [f64; 9] = [10.0, 4.4, 3.0, 16.2, 11.8, 6.0, 7.0, 8.0, 9.0];
    assert_eq!(c.len(), expected.len());
    for (x, y) in c.iter().zip(expected.iter()) {
        assert!((x - y).abs() < 1e-12, "{} != {}", x, y);
    }
}

#[test]
fn zero_beta_overwrites_without_reading() {
    let a = [1.0, 2.0, 3.0, 4.0, 5.0, 6.0];
    let b = vec![f64::NAN; 6];
    let c = transpose(&[1, 0], 2.0, &a, &[2, 3], None, 0.0, Some(b), None, 1, true).unwrap();
    assert_eq!(c, vec![2.0, 8.0, 4.0, 10.0, 6.0, 12.0]);
}

#[test]
fn longer_output_buffer_is_cut_to_length() {
    let a = [1.0, 2.0, 3.0, 4.0];
    let b = vec![10.0, 20.0, 30.0, 40.0, 50.0, 60.0];
    let c = transpose(&[1, 0], 1.0, &a, &[2, 2], None, 1.0, Some(b), None, 1, true).unwrap();
    assert_eq!(c, vec![11.0, 23.0, 32.0, 44.0]);
}

#[test]
fn repeated_or_out_of_range_permutation_is_refused() {
    let a = ramp(6);
    assert_eq!(dense(&[0, 0], &a, &[2, 3], 1, true), Err(TransposeError::InvalidPermutation));
    assert_eq!(dense(&[0, 2], &a, &[2, 3], 1, true), Err(TransposeError::InvalidPermutation));
    assert_eq!(dense(&[-1, 0], &a, &[2, 3], 1, true), Err(TransposeError::InvalidPermutation));
    assert_eq!(dense(&[1, 0, 2], &a, &[2, 3], 1, true), Err(TransposeError::InvalidPermutation));
    let b = vec![7.0; 3];
    let r = transpose(&[1, 1], 1.0, &a, &[2, 3], None, 0.0, Some(b), None, 1, true);
    assert_eq!(r, Err(TransposeError::InvalidPermutation));
}

#[test]
fn bad_extents_are_refused() {
    let a = ramp(6);
    assert_eq!(dense(&[1, 0], &a, &[0, 3], 1, true), Err(TransposeError::InvalidShape));
    assert_eq!(dense(&[1, 0], &a, &[-2, 3], 1, true), Err(TransposeError::InvalidShape));
    let r = transpose(&[1, 0], 1.0, &a, &[2, 3], Some(&[2, 2]), 0.0, None, None, 1, true);
    assert_eq!(r, Err(TransposeError::InvalidShape));
    let r = transpose(&[1, 0], 1.0, &a, &[2, 3], Some(&[2]), 0.0, None, None, 1, true);
    assert_eq!(r, Err(TransposeError::InvalidShape));
    let huge = [i32::MAX, i32::MAX, i32::MAX];
    let r = transpose(&[0, 1, 2], 1.0, &a, &huge, None, 0.0, None, None, 1, true);
    assert_eq!(r, Err(TransposeError::InvalidShape));
}

#[test]
fn small_output_outer_size_is_refused() {
    let a = ramp(6);
    let r = transpose(&[1, 0], 1.0, &a, &[2, 3], None, 0.0, None, Some(&[2, 2]), 1, true);
    assert_eq!(r, Err(TransposeError::IncompatibleOuterSize));
    let r = transpose(&[1, 0], 1.0, &a, &[2, 3], None, 0.0, None, Some(&[3, 2, 1]), 1, true);
    assert_eq!(r, Err(TransposeError::IncompatibleOuterSize));
}

#[test]
fn short_input_is_refused() {
    let a = ramp(5);
    assert_eq!(dense(&[1, 0], &a, &[2, 3], 1, true), Err(TransposeError::InvalidInputBuffer));
    let b = ramp(12);
    let r = transpose(&[1, 0], 1.0, &b[7..], &[2, 2], Some(&[4, 4]), 0.0, None, None, 1, true);
    assert_eq!(r, Err(TransposeError::InvalidInputBuffer));
    let r = transpose(&[1, 0], 1.0, &b[6..], &[2, 2], Some(&[4, 4]), 0.0, None, None, 1, true);
    assert_eq!(r, Ok(vec![b[6], b[10], b[7], b[11]]));
}

#[test]
fn partly_filled_output_is_refused() {
    let a = ramp(6);
    let b = vec![1.0; 5];
    let r = transpose(&[1, 0], 1.0, &a, &[2, 3], None, 1.0, Some(b), None, 1, true);
    assert_eq!(r, Err(TransposeError::InvalidOutputBuffer));
}

#[test]
fn simple_forms_use_their_memory_order() {
    let a = [1.0, 2.0, 3.0, 4.0, 5.0, 6.0];
    assert_eq!(transpose_simple(&[1, 0], &a, &[2, 3]).unwrap(), vec![1.0, 4.0, 2.0, 5.0, 3.0, 6.0]);
    assert_eq!(hptt::sys::transpose_simple(&[1, 0], &a, &[2, 3]).unwrap(), vec![1.0, 3.0, 5.0, 2.0, 4.0, 6.0]);
    let settings = Settings { num_threads: 4, use_row_major: true };
    assert_eq!(transpose_configured(&settings, &[1, 0], &a, &[2, 3]).unwrap(), vec![1.0, 4.0, 2.0, 5.0, 3.0, 6.0]);
    let defaults = Settings::default();
    assert_eq!(defaults, Settings { num_threads: 1, use_row_major: false });
}

#[test]
fn scalar_tensor_has_one_element() {
    let a = [4.5];
    let r = transpose(&[], 2.0, &a, &[], None, 0.0, None, None, 1, true).unwrap();
    assert_eq!(r, vec![9.0]);
}

#[test]
fn partition_cuts_into_disjoint_blocks() {
    assert_eq!(partition(10, 4), vec![(0, 3), (3, 6), (6, 9), (9, 10)]);
    assert_eq!(partition(5, 0), vec![(0, 5)]);
    assert_eq!(partition(3, 8), vec![(0, 1), (1, 2), (2, 3)]);
    assert_eq!(partition(0, 3), Vec::<(usize, usize)>::new());
}

#[test]
fn inverse_of_checks_and_inverts() {
    assert_eq!(inverse_of(&[2, 0, 1]), Some(vec![1, 2, 0]));
    assert_eq!(inverse_of(&[3, 2, 0, 1]), Some(vec![2, 3, 1, 0]));
    assert_eq!(inverse_of(&[]), Some(vec![]));
    assert_eq!(inverse_of(&[0, 0]), None);
    assert_eq!(inverse_of(&[0, 2]), None);
    assert_eq!(inverse_of(&[-1]), None);
}
