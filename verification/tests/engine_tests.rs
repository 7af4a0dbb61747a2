use gemm_engine::engine::{gemm_optimized, gemm_reference, multiply_accumulate};
use gemm_engine::kernel::gemm_base;
use gemm_engine::matrix::Matrix;

fn formula_matrix(rows: usize, cols: usize, seed: i64) -> Matrix {
    let mut m = Matrix::zeros(rows, cols);
    for i in 0..rows {
        for j in 0..cols {
            let v = ((i as i64) * 31 + (j as i64) * 17 + seed) % 97 - 48;
            m.set(i, j, v);
        }
    }
    m
}

fn dense(m: &Matrix) -> Vec<Vec<i64>> {
    let mut out = Vec::new();
    for i in 0..m.rows {
        let mut row = Vec::new();
        for j in 0..m.cols {
            row.push(m.get(i, j));
        }
        out.push(row);
    }
    out
}

/// A straightforward triple-nested-loop reference: C0 + A * B.
fn reference_product_plus(c0: &Matrix, a: &Matrix, b: &Matrix) -> Vec<Vec<i64>> {
    let ad = dense(a);
    let bd = dense(b);
    let mut out = dense(c0);
    for i in 0..c0.rows {
        for j in 0..c0.cols {
            let mut acc = out[i][j];
            for k in 0..a.cols {
                acc += ad[i][k] * bd[k][j];
            }
            out[i][j] = acc;
        }
    }
    out
}

fn assert_matrix_eq(m: &Matrix, expect: &Vec<Vec<i64>>) {
    assert_eq!(m.rows, expect.len());
    for i in 0..m.rows {
        assert_eq!(m.cols, expect[i].len());
        for j in 0..m.cols {
            assert_eq!(m.get(i, j), expect[i][j], "mismatch at ({}, {})", i, j);
        }
    }
}

fn check_engine_matches_reference(mdim: usize, pdim: usize, ndim: usize) {
    let a = formula_matrix(mdim, pdim, 3);
    let b = formula_matrix(pdim, ndim, 11);
    let mut c = formula_matrix(mdim, ndim, 7);
    let expect = reference_product_plus(&c, &a, &b);
    multiply_accumulate(&a, &b, &mut c);
    assert_matrix_eq(&c, &expect);
}

#[test]
fn multiply_matches_reference_1x1() {
    check_engine_matches_reference(1, 1, 1);
}

#[test]
fn multiply_matches_reference_2x2() {
    check_engine_matches_reference(2, 2, 2);
}

#[test]
fn multiply_matches_reference_33x33() {
    // Odd and not a power of two.
    check_engine_matches_reference(33, 33, 33);
}

#[test]
fn multiply_matches_reference_rectangular() {
    // Extents that clip the 8x32 output tiles and the depth slices.
    check_engine_matches_reference(10, 33, 40);
}

#[test]
fn multiply_above_threshold_matches_reference() {
    // 260 exceeds the recursion threshold of 256, so the engine splits and
    // runs its parallel waves; a result equal to the triple loop on
    // non-trivial inputs also shows the parallel tasks really computed.
    check_engine_matches_reference(260, 260, 260);
}

#[test]
fn multiply_exact_small_values() {
    let mut a = Matrix::zeros(2, 2);
    a.set(0, 0, 1);
    a.set(0, 1, 2);
    a.set(1, 0, 3);
    a.set(1, 1, 4);
    let mut b = Matrix::zeros(2, 2);
    b.set(0, 0, 5);
    b.set(0, 1, 6);
    b.set(1, 0, 7);
    b.set(1, 1, 8);
    let mut c = Matrix::zeros(2, 2);
    c.set(0, 0, 10);
    c.set(0, 1, 20);
    c.set(1, 0, 30);
    c.set(1, 1, 40);
    multiply_accumulate(&a, &b, &mut c);
    assert_eq!(c.get(0, 0), 10 + 19);
    assert_eq!(c.get(0, 1), 20 + 22);
    assert_eq!(c.get(1, 0), 30 + 43);
    assert_eq!(c.get(1, 1), 40 + 50);
}

#[test]
fn base_kernel_matches_reference() {
    let a = formula_matrix(20, 33, 5);
    let b = formula_matrix(33, 40, 13);
    let mut c = formula_matrix(20, 40, 1);
    let expect = reference_product_plus(&c, &a, &b);
    let ra = a.region();
    let rb = b.region();
    let rc = c.region();
    gemm_base(&a, ra, &b, rb, &mut c, rc);
    assert_matrix_eq(&c, &expect);
}

#[test]
fn serial_and_parallel_paths_agree_at_threshold() {
    // Straddle a threshold of 4 with sizes 3, 4 and 5, and force the base
    // path with a large threshold: every path must give the same result.
    for dim in [3usize, 4, 5] {
        let a = formula_matrix(dim, dim, 9);
        let b = formula_matrix(dim, dim, 23);
        let c0 = formula_matrix(dim, dim, 2);
        let expect = reference_product_plus(&c0, &a, &b);
        for threshold in [1usize, 4, 100] {
            let mut c_ser = formula_matrix(dim, dim, 2);
            let ra = a.region();
            let rb = b.region();
            let rc = c_ser.region();
            gemm_reference(&a, ra, &b, rb, &mut c_ser, rc, threshold);
            assert_matrix_eq(&c_ser, &expect);

            let mut c_par = formula_matrix(dim, dim, 2);
            let rc2 = c_par.region();
            gemm_optimized(&a, ra, &b, rb, &mut c_par, rc2, threshold);
            assert_matrix_eq(&c_par, &expect);
        }
    }
}

#[test]
fn accumulate_twice_adds_product_twice() {
    // C is not re-zeroed between the two calls, so the final output is the
    // initial one plus twice the product.
    let a = formula_matrix(6, 5, 4);
    let b = formula_matrix(5, 7, 8);
    let c0 = formula_matrix(6, 7, 15);
    let mut c = formula_matrix(6, 7, 15);
    multiply_accumulate(&a, &b, &mut c);
    multiply_accumulate(&a, &b, &mut c);
    let ad = dense(&a);
    let bd = dense(&b);
    for i in 0..6 {
        for j in 0..7 {
            let mut prod = 0i64;
            for k in 0..5 {
                prod += ad[i][k] * bd[k][j];
            }
            assert_eq!(c.get(i, j), c0.get(i, j) + 2 * prod);
        }
    }
}

#[test]
fn product_into_zeroed_output() {
    let a = formula_matrix(4, 4, 1);
    let b = formula_matrix(4, 4, 2);
    let mut c = Matrix::zeros(4, 4);
    let expect = reference_product_plus(&c, &a, &b);
    multiply_accumulate(&a, &b, &mut c);
    assert_matrix_eq(&c, &expect);
}
