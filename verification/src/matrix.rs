//! An owned dense row-major matrix of 64-bit integer elements, and the
//! copy-in / copy-out operations the parallel scheduler uses to hand
//! disjoint output quadrants to independent tasks.

use crate::region::{
    lemma_idx_in_region, lemma_idx_injective, Region,
};
use vstd::pervasive::VecAdditionalExecFns;
use vstd::prelude::*;

verus! {

/// A dense matrix: `rows * cols` elements in one row-major buffer.
pub struct Matrix {
    pub data: Vec<i64>,
    pub rows: usize,
    pub cols: usize,
}

impl Matrix {
    /// The backing buffer holds exactly one element per coordinate.
    pub open spec fn wf(self) -> bool {
        self.data@.len() == self.rows * self.cols
    }

    /// The region describing the whole matrix inside its own buffer.
    pub open spec fn region_spec(self) -> Region {
        if self.cols == 0 {
            Region { off: 0, stride: 1, rows: self.rows, cols: 0 }
        } else {
            Region { off: 0, stride: self.cols, rows: self.rows, cols: self.cols }
        }
    }

    /// Element (i, j) of the matrix.
    pub open spec fn at_spec(self, i: int, j: int) -> i64 {
        self.data@[self.region_spec().idx(i, j)]
    }

    /// A well-formed matrix has a well-formed whole-buffer region.
    pub proof fn lemma_region_wf(self)
        requires
            self.wf(),
        ensures
            self.region_spec().wf(self.data@.len() as int),
    {
        if self.rows != 0 && self.cols != 0 {
            assert((self.rows - 1) * self.cols + self.cols == self.rows * self.cols)
                by (nonlinear_arith);
        }
    }

    /// The whole-buffer region, computed at run time.
    pub fn region(&self) -> (r: Region)
        ensures
            r == self.region_spec(),
    {
        if self.cols == 0 {
            Region { off: 0, stride: 1, rows: self.rows, cols: 0 }
        } else {
            Region { off: 0, stride: self.cols, rows: self.rows, cols: self.cols }
        }
    }

    /// An all-zero matrix of the given shape.
    pub fn zeros(rows: usize, cols: usize) -> (m: Matrix)
        requires
            rows * cols <= usize::MAX,
        ensures
            m.wf(),
            m.rows == rows,
            m.cols == cols,
            forall|i: int, j: int| 0 <= i < rows && 0 <= j < cols ==> m.at_spec(i, j) == 0,
    {
        let n = rows * cols;
        let mut data: Vec<i64> = Vec::new();
        while data.len() < n
            invariant
                data@.len() <= n,
                forall|p: int| 0 <= p < data@.len() ==> data@[p] == 0i64,
            decreases n - data@.len(),
        {
            data.push(0i64);
        }
        let m = Matrix { data, rows, cols };
        proof {
            assert forall|i: int, j: int|
                0 <= i < rows && 0 <= j < cols implies m.at_spec(i, j) == 0i64 by {
                assert(0 <= i * cols + j < rows * cols) by (nonlinear_arith)
                    requires
                        0 <= i < rows as int,
                        0 <= j < cols as int,
                ;
            }
        }
        m
    }

    /// Read element (i, j).
    pub fn get(&self, i: usize, j: usize) -> (v: i64)
        requires
            self.wf(),
            i < self.rows,
            j < self.cols,
        ensures
            v == self.at_spec(i as int, j as int),
    {
        proof {
            self.lemma_region_wf();
        }
        let r = self.region();
        let pos = r.index_of(i, j, self.data.len());
        self.data[pos]
    }

    /// Overwrite element (i, j); no other element moves.
    pub fn set(&mut self, i: usize, j: usize, v: i64)
        requires
            old(self).wf(),
            i < old(self).rows,
            j < old(self).cols,
        ensures
            final(self).wf(),
            final(self).rows == old(self).rows,
            final(self).cols == old(self).cols,
            final(self).at_spec(i as int, j as int) == v,
            forall|x: int, y: int|
                0 <= x < old(self).rows && 0 <= y < old(self).cols && !(x == i as int && y
                    == j as int) ==> final(self).at_spec(x, y) == old(self).at_spec(x, y),
    {
        proof {
            self.lemma_region_wf();
        }
        let r = self.region();
        let pos = r.index_of(i, j, self.data.len());
        self.data.set(pos, v);
        proof {
            let len = self.data@.len() as int;
            assert forall|x: int, y: int|
                0 <= x < self.rows && 0 <= y < self.cols && !(x == i as int && y
                    == j as int) implies self.at_spec(x, y) == old(self).at_spec(x, y) by {
                lemma_idx_in_region(r, len, x, y);
                if r.idx(x, y) == pos as int {
                    lemma_idx_injective(r, len, x, y, i as int, j as int);
                    assert(false);
                }
            }
        }
    }
}

/// Copy the contents of a region out into a fresh owned matrix.
#[verifier::loop_isolation(false)]
pub fn copy_region(src: &Vec<i64>, r: Region) -> (m: Matrix)
    requires
        r.wf(src@.len() as int),
    ensures
        m.wf(),
        m.rows == r.rows,
        m.cols == r.cols,
        forall|i: int, j: int|
            0 <= i < r.rows && 0 <= j < r.cols ==> m.at_spec(i, j) == src@[#[trigger] r.idx(i, j)],
{
    let ghost len = src@.len() as int;
    let mut data: Vec<i64> = Vec::new();
    if r.rows == 0 || r.cols == 0 {
        let m = Matrix { data, rows: r.rows, cols: r.cols };
        proof {
            assert(m.rows * m.cols == 0) by (nonlinear_arith)
                requires
                    m.rows == 0 || m.cols == 0,
            ;
        }
        return m;
    }
    let mut i: usize = 0;
    while i < r.rows
        invariant
            i <= r.rows,
            data@.len() == i * r.cols,
            forall|x: int, y: int|
                0 <= x < i && 0 <= y < r.cols ==> data@[x * r.cols + y] == src@[#[trigger] r.idx(
                    x,
                    y,
                )],
        decreases r.rows - i,
    {
        let mut j: usize = 0;
        while j < r.cols
            invariant
                i < r.rows,
                j <= r.cols,
                data@.len() == i * r.cols + j,
                forall|x: int, y: int|
                    0 <= x < i && 0 <= y < r.cols ==> data@[x * r.cols + y] == src@[
                        #[trigger] r.idx(x, y)
                    ],
                forall|y: int|
                    0 <= y < j ==> data@[i as int * r.cols + y] == src@[#[trigger] r.idx(
                        i as int,
                        y,
                    )],
        decreases r.cols - j,
        {
            let pos = r.index_of(i, j, src.len());
            proof {
                assert(i * r.cols + j < r.rows * r.cols) by (nonlinear_arith)
                    requires
                        0 <= i < r.rows,
                        0 <= j < r.cols,
                ;
                assert(r.rows * r.cols <= r.off + (r.rows - 1) * r.stride + r.cols)
                    by (nonlinear_arith)
                    requires
                        r.rows >= 1,
                        r.cols <= r.stride,
                        r.off >= 0,
                ;
            }
            data.push(src[pos]);
            proof {
                assert forall|x: int, y: int|
                    0 <= x < i && 0 <= y < r.cols implies data@[x * r.cols + y] == src@[
                    #[trigger] r.idx(x, y)
                ] by {
                    assert(0 <= x * r.cols + y < i * r.cols + j) by (nonlinear_arith)
                        requires
                            0 <= x,
                            x < i as int,
                            0 <= y,
                            y < r.cols as int,
                            0 <= j,
                    ;
                }
            }
            j = j + 1;
        }
        proof {
            assert((i as int + 1) * r.cols == i as int * r.cols + r.cols) by (nonlinear_arith);
        }
        i = i + 1;
    }
    let m = Matrix { data, rows: r.rows, cols: r.cols };
    proof {
        assert forall|i2: int, j2: int|
            0 <= i2 < r.rows && 0 <= j2 < r.cols implies m.at_spec(i2, j2) == src@[r.idx(
            i2,
            j2,
        )] by {
            assert(m.region_spec().idx(i2, j2) == i2 * r.cols + j2);
        }
    }
    m
}

/// Write an owned matrix back over a region of another matrix's buffer;
/// positions outside the region keep their values.
#[verifier::loop_isolation(false)]
pub fn write_region(dstm: &mut Matrix, r: Region, src: &Matrix)
    requires
        r.wf(old(dstm).data@.len() as int),
        src.wf(),
        src.rows == r.rows,
        src.cols == r.cols,
    ensures
        final(dstm).data@.len() == old(dstm).data@.len(),
        final(dstm).rows == old(dstm).rows,
        final(dstm).cols == old(dstm).cols,
        forall|pos: int|
            0 <= pos < old(dstm).data@.len() && !(#[trigger] r.in_region(pos)) ==> final(dstm).data@[pos] == old(dstm).data@[pos],
        forall|i: int, j: int|
            0 <= i < r.rows && 0 <= j < r.cols ==> final(dstm).data@[#[trigger] r.idx(i, j)]
                == src.at_spec(i, j),
{
    let ghost d0 = old(dstm).data@;
    let ghost len = old(dstm).data@.len() as int;
    let mut i: usize = 0;
    while i < r.rows
        invariant
            i <= r.rows,
            dstm.data@.len() == d0.len(),
            dstm.rows == old(dstm).rows,
            dstm.cols == old(dstm).cols,
            forall|pos: int|
                0 <= pos < len && !(#[trigger] r.in_region(pos)) ==> dstm.data@[pos] == d0[pos],
            forall|x: int, y: int|
                0 <= x < i && 0 <= y < r.cols ==> dstm.data@[#[trigger] r.idx(x, y)] == src.at_spec(x, y),
            forall|x: int, y: int|
                i <= x < r.rows && 0 <= y < r.cols ==> dstm.data@[#[trigger] r.idx(x, y)] == d0[r.idx(
                    x,
                    y,
                )],
        decreases r.rows - i,
    {
        let mut j: usize = 0;
        while j < r.cols
            invariant
                i < r.rows,
                j <= r.cols,
                dstm.data@.len() == d0.len(),
                dstm.rows == old(dstm).rows,
                dstm.cols == old(dstm).cols,
                forall|pos: int|
                    0 <= pos < len && !(#[trigger] r.in_region(pos)) ==> dstm.data@[pos] == d0[pos],
                forall|x: int, y: int|
                    0 <= x < i && 0 <= y < r.cols ==> dstm.data@[#[trigger] r.idx(x, y)] == src.at_spec(
                        x,
                        y,
                    ),
                forall|y: int|
                    0 <= y < j ==> dstm.data@[#[trigger] r.idx(i as int, y)] == src.at_spec(i as int, y),
                forall|x: int, y: int|
                    i <= x < r.rows && 0 <= y < r.cols && !(x == i as int && y < j) ==> dstm.data@[
                        #[trigger] r.idx(x, y)
                    ] == d0[r.idx(x, y)],
            decreases r.cols - j,
        {
            let pos = r.index_of(i, j, dstm.data.len());
            let v = src.get(i, j);
            let ghost before = dstm.data@;
            dstm.data.set(pos, v);
            proof {
                assert forall|x: int, y: int|
                    0 <= x < r.rows && 0 <= y < r.cols && !(x == i as int && y
                        == j as int) implies dstm.data@[r.idx(x, y)] == before[r.idx(x, y)] by {
                    lemma_idx_in_region(r, len, x, y);
                    if r.idx(x, y) == pos as int {
                        lemma_idx_injective(r, len, x, y, i as int, j as int);
                        assert(false);
                    }
                }
            }
            j = j + 1;
        }
        i = i + 1;
    }
}

} // verus!
