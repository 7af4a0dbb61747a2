use gemm_engine::matrix::Matrix;
use gemm_engine::region::Region;

#[test]
fn quadrant_split_partitions_region() {
    // Split a 5 by 7 region at row 2 and column 3: the four quadrants must
    // cover every buffer position exactly once.
    let m = Matrix::zeros(5, 7);
    let r = m.region();
    let len = 5 * 7;
    let q11 = r.sub(0, 2, 0, 3, len);
    let q12 = r.sub(0, 2, 3, 7, len);
    let q21 = r.sub(2, 5, 0, 3, len);
    let q22 = r.sub(2, 5, 3, 7, len);
    let mut positions: Vec<usize> = Vec::new();
    for q in [q11, q12, q21, q22] {
        for i in 0..q.rows {
            for j in 0..q.cols {
                positions.push(q.index_of(i, j, len));
            }
        }
    }
    positions.sort();
    let expected: Vec<usize> = (0..len).collect();
    assert_eq!(positions, expected);
}

#[test]
fn half_sizes_sum_to_parent() {
    // Splitting an odd dimension sends the remainder to the second half,
    // and the halves always sum back to the whole.
    for dim in [1usize, 2, 3, 7, 8, 33] {
        let half = dim / 2;
        assert_eq!(half + (dim - half), dim);
    }
    let m = Matrix::zeros(9, 5);
    let r = m.region();
    let len = 9 * 5;
    let top = r.sub(0, 4, 0, 5, len);
    let bottom = r.sub(4, 9, 0, 5, len);
    assert_eq!(top.rows + bottom.rows, r.rows);
    let left = r.sub(0, 9, 0, 2, len);
    let right = r.sub(0, 9, 2, 5, len);
    assert_eq!(left.cols + right.cols, r.cols);
}

#[test]
fn region_indexing_is_row_major() {
    let m = Matrix::zeros(4, 6);
    let r = m.region();
    assert_eq!(r.index_of(0, 0, 24), 0);
    assert_eq!(r.index_of(0, 5, 24), 5);
    assert_eq!(r.index_of(1, 0, 24), 6);
    assert_eq!(r.index_of(3, 5, 24), 23);
    let sub = r.sub(1, 3, 2, 5, 24);
    assert_eq!(sub.index_of(0, 0, 24), 8);
    assert_eq!(sub.index_of(1, 2, 24), 16);
}

#[test]
fn matrix_get_set_round_trip() {
    let mut m = Matrix::zeros(3, 4);
    m.set(2, 3, 17);
    m.set(0, 0, -5);
    assert_eq!(m.get(2, 3), 17);
    assert_eq!(m.get(0, 0), -5);
    assert_eq!(m.get(1, 2), 0);
    let r: Region = m.region();
    assert_eq!(r.rows, 3);
    assert_eq!(r.cols, 4);
    assert_eq!(r.stride, 4);
    assert_eq!(r.off, 0);
}
