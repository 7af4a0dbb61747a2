use gemm_engine::engine::{try_multiply_accumulate, GemmError};
use gemm_engine::kernel::MAX_ENTRY;
use gemm_engine::matrix::Matrix;

fn small_matrix(rows: usize, cols: usize, seed: i64) -> Matrix {
    let mut m = Matrix::zeros(rows, cols);
    for i in 0..rows {
        for j in 0..cols {
            m.set(i, j, ((i as i64) * 7 + (j as i64) * 5 + seed) % 19 - 9);
        }
    }
    m
}

fn snapshot(m: &Matrix) -> Vec<i64> {
    let mut out = Vec::new();
    for i in 0..m.rows {
        for j in 0..m.cols {
            out.push(m.get(i, j));
        }
    }
    out
}

#[test]
fn shape_mismatch_is_rejected_without_writes() {
    // A 3x4, B 5x6, C 3x6: the shared dimension does not match.
    let a = small_matrix(3, 4, 1);
    let b = small_matrix(5, 6, 2);
    let mut c = small_matrix(3, 6, 3);
    let before = snapshot(&c);
    let r = try_multiply_accumulate(&a, &b, &mut c);
    assert_eq!(r, Err(GemmError::ShapeMismatch));
    assert_eq!(snapshot(&c), before);

    // Wrong row count of C.
    let a2 = small_matrix(3, 4, 1);
    let b2 = small_matrix(4, 6, 2);
    let mut c2 = small_matrix(2, 6, 3);
    let before2 = snapshot(&c2);
    assert_eq!(try_multiply_accumulate(&a2, &b2, &mut c2), Err(GemmError::ShapeMismatch));
    assert_eq!(snapshot(&c2), before2);

    // Wrong column count of C.
    let a3 = small_matrix(3, 4, 1);
    let b3 = small_matrix(4, 6, 2);
    let mut c3 = small_matrix(3, 5, 3);
    let before3 = snapshot(&c3);
    assert_eq!(try_multiply_accumulate(&a3, &b3, &mut c3), Err(GemmError::ShapeMismatch));
    assert_eq!(snapshot(&c3), before3);
}

#[test]
fn compatible_shapes_are_accepted() {
    let a = small_matrix(3, 4, 1);
    let b = small_matrix(4, 6, 2);
    let mut c = small_matrix(3, 6, 3);
    assert_eq!(try_multiply_accumulate(&a, &b, &mut c), Ok(()));
}

#[test]
fn entry_out_of_range_is_rejected_without_writes() {
    let mut a = small_matrix(2, 2, 1);
    a.set(1, 1, MAX_ENTRY + 1);
    let b = small_matrix(2, 2, 2);
    let mut c = small_matrix(2, 2, 3);
    let before = snapshot(&c);
    assert_eq!(try_multiply_accumulate(&a, &b, &mut c), Err(GemmError::EntryOutOfRange));
    assert_eq!(snapshot(&c), before);

    let a2 = small_matrix(2, 2, 1);
    let mut b2 = small_matrix(2, 2, 2);
    b2.set(0, 0, -(MAX_ENTRY + 1));
    let mut c2 = small_matrix(2, 2, 3);
    let before2 = snapshot(&c2);
    assert_eq!(try_multiply_accumulate(&a2, &b2, &mut c2), Err(GemmError::EntryOutOfRange));
    assert_eq!(snapshot(&c2), before2);

    // An output element with no room left for the accumulation.
    let a3 = small_matrix(2, 2, 1);
    let b3 = small_matrix(2, 2, 2);
    let mut c3 = small_matrix(2, 2, 3);
    c3.set(0, 1, i64::MAX - 1);
    let before3 = snapshot(&c3);
    assert_eq!(try_multiply_accumulate(&a3, &b3, &mut c3), Err(GemmError::EntryOutOfRange));
    assert_eq!(snapshot(&c3), before3);
}

#[test]
fn empty_matrices_are_noops() {
    // Zero-sized output: nothing to do, nothing touched.
    let a = Matrix::zeros(0, 0);
    let b = Matrix::zeros(0, 0);
    let mut c = Matrix::zeros(0, 0);
    assert_eq!(try_multiply_accumulate(&a, &b, &mut c), Ok(()));
    assert_eq!(c.rows, 0);
    assert_eq!(c.cols, 0);

    // Zero rows in A and C.
    let a2 = Matrix::zeros(0, 5);
    let b2 = small_matrix(5, 3, 1);
    let mut c2 = Matrix::zeros(0, 3);
    assert_eq!(try_multiply_accumulate(&a2, &b2, &mut c2), Ok(()));

    // Empty shared dimension: C keeps exactly its old values.
    let a3 = Matrix::zeros(3, 0);
    let b3 = Matrix::zeros(0, 4);
    let mut c3 = small_matrix(3, 4, 6);
    let before3 = snapshot(&c3);
    assert_eq!(try_multiply_accumulate(&a3, &b3, &mut c3), Ok(()));
    assert_eq!(snapshot(&c3), before3);
}
