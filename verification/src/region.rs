//! Region descriptors: rectangular windows into one flat row-major buffer.
//!
//! Every view the engine works on — a whole matrix, a quadrant, a tile — is a
//! `Region`: an offset, a row stride and two extents.  Splitting a region
//! yields sub-regions that are disjoint and together cover it exactly, which
//! is the invariant that lets sibling updates run without coordination.

use vstd::prelude::*;
use vstd::arithmetic::div_mod::{
    lemma_fundamental_div_mod, lemma_fundamental_div_mod_converse, lemma_mod_pos_bound,
};
use vstd::arithmetic::mul::{lemma_mul_inequality, lemma_mul_nonnegative};

verus! {

/// A rectangular window into a flat buffer: element (i, j) of the region
/// lives at buffer position `off + i * stride + j`.
#[derive(Clone, Copy, PartialEq, Eq, Structural, Debug)]
pub struct Region {
    pub off: usize,
    pub stride: usize,
    pub rows: usize,
    pub cols: usize,
}

impl Region {
    /// Buffer position of region element (i, j).
    pub open spec fn idx(self, i: int, j: int) -> int {
        self.off + i * self.stride + j
    }

    /// Well-formed with respect to a buffer of length `len`: rows of the
    /// window cannot overlap (`cols <= stride`) and every element position
    /// is in bounds.
    pub open spec fn wf(self, len: int) -> bool {
        &&& self.stride >= 1
        &&& self.cols <= self.stride
        &&& self.off <= len
        &&& (self.rows >= 1 && self.cols >= 1 ==> self.off + (self.rows - 1) * self.stride
            + self.cols <= len)
    }

    /// Whether buffer position `pos` falls inside the region.
    pub open spec fn in_region(self, pos: int) -> bool {
        &&& self.off <= pos
        &&& (pos - self.off) / (self.stride as int) < self.rows
        &&& (pos - self.off) % (self.stride as int) < self.cols
    }

    /// Buffer position of element (i, j), computed at run time.
    pub fn index_of(self, i: usize, j: usize, len: usize) -> (pos: usize)
        requires
            self.wf(len as int),
            i < self.rows,
            j < self.cols,
        ensures
            pos == self.idx(i as int, j as int),
            pos < len,
            self.in_region(pos as int),
    {
        proof {
            lemma_idx_in_region(self, len as int, i as int, j as int);
        }
        self.off + i * self.stride + j
    }

    /// The sub-region covering rows [i0, i1) and columns [j0, j1) of `self`.
    pub fn sub(self, i0: usize, i1: usize, j0: usize, j1: usize, len: usize) -> (r: Region)
        requires
            self.wf(len as int),
            self.rows >= 1,
            self.cols >= 1,
            i0 < self.rows,
            j0 < self.cols,
            i0 <= i1 <= self.rows,
            j0 <= j1 <= self.cols,
        ensures
            is_sub(r, self, i0 as int, i1 as int, j0 as int, j1 as int),
            r.wf(len as int),
    {
        proof {
            lemma_idx_in_region(self, len as int, i0 as int, j0 as int);
            lemma_sub_wf(
                Region {
                    off: (self.off + i0 * self.stride + j0) as usize,
                    stride: self.stride,
                    rows: (i1 - i0) as usize,
                    cols: (j1 - j0) as usize,
                },
                self,
                len as int,
                i0 as int,
                i1 as int,
                j0 as int,
                j1 as int,
            );
        }
        Region { off: self.off + i0 * self.stride + j0, stride: self.stride, rows: i1 - i0, cols: j1
            - j0 }
    }
}

/// `sub` describes rows [i0, i1) and columns [j0, j1) of region `r`.
pub open spec fn is_sub(sub: Region, r: Region, i0: int, i1: int, j0: int, j1: int) -> bool {
    &&& sub.stride == r.stride
    &&& sub.off == r.off + i0 * r.stride + j0
    &&& sub.rows == i1 - i0
    &&& sub.cols == j1 - j0
}

/// An element position is inside the region and inside the buffer, and the
/// division/remainder pair recovers its coordinates.
pub proof fn lemma_idx_in_region(r: Region, len: int, i: int, j: int)
    requires
        r.wf(len),
        0 <= i < r.rows,
        0 <= j < r.cols,
    ensures
        r.in_region(r.idx(i, j)),
        r.off <= r.idx(i, j) < len,
        (r.idx(i, j) - r.off) / (r.stride as int) == i,
        (r.idx(i, j) - r.off) % (r.stride as int) == j,
{
    let s = r.stride as int;
    lemma_mul_nonnegative(i, s);
    lemma_fundamental_div_mod_converse(i * s + j, s, i, j);
    lemma_mul_inequality(i, r.rows - 1, s);
}

/// Every position inside a region is the position of an element, with
/// coordinates given by division and remainder.
pub proof fn lemma_in_region_coords(r: Region, len: int, pos: int)
    requires
        r.wf(len),
        r.in_region(pos),
    ensures
        0 <= (pos - r.off) / (r.stride as int) < r.rows,
        0 <= (pos - r.off) % (r.stride as int) < r.cols,
        pos == r.idx((pos - r.off) / (r.stride as int), (pos - r.off) % (r.stride as int)),
        pos < len,
{
    let s = r.stride as int;
    let d = pos - r.off;
    lemma_fundamental_div_mod(d, s);
    lemma_mod_pos_bound(d, s);
    assert(d / s >= 0) by (nonlinear_arith)
        requires d >= 0 && s >= 1,
    ;
    assert(d == s * (d / s) + d % s);
    assert(r.idx(d / s, d % s) == r.off + (d / s) * s + d % s);
    assert(s * (d / s) == (d / s) * s) by (nonlinear_arith);
    lemma_idx_in_region(r, len, d / s, d % s);
}

/// Distinct coordinates occupy distinct buffer positions.
pub proof fn lemma_idx_injective(
    r: Region,
    len: int,
    i1: int,
    j1: int,
    i2: int,
    j2: int,
)
    requires
        r.wf(len),
        0 <= i1 < r.rows,
        0 <= j1 < r.cols,
        0 <= i2 < r.rows,
        0 <= j2 < r.cols,
        r.idx(i1, j1) == r.idx(i2, j2),
    ensures
        i1 == i2,
        j1 == j2,
{
    lemma_idx_in_region(r, len, i1, j1);
    lemma_idx_in_region(r, len, i2, j2);
}

/// Element (i, j) of a sub-region is element (i0 + i, j0 + j) of the parent.
pub proof fn lemma_sub_idx(
    sub: Region,
    r: Region,
    i0: int,
    i1: int,
    j0: int,
    j1: int,
    i: int,
    j: int,
)
    requires
        is_sub(sub, r, i0, i1, j0, j1),
    ensures
        sub.idx(i, j) == r.idx(i0 + i, j0 + j),
{
    let s = r.stride as int;
    assert((i0 + i) * s == i0 * s + i * s) by (nonlinear_arith);
}

/// A sub-region of a well-formed non-empty region is well-formed.
pub proof fn lemma_sub_wf(
    sub: Region,
    r: Region,
    len: int,
    i0: int,
    i1: int,
    j0: int,
    j1: int,
)
    requires
        r.wf(len),
        r.rows >= 1,
        r.cols >= 1,
        is_sub(sub, r, i0, i1, j0, j1),
        0 <= i0 < r.rows,
        0 <= j0 < r.cols,
        i0 <= i1 <= r.rows,
        j0 <= j1 <= r.cols,
    ensures
        sub.wf(len),
{
    let s = r.stride as int;
    lemma_idx_in_region(r, len, i0, j0);
    if i1 > i0 && j1 > j0 {
        // sub.off + (sub.rows - 1) * s + sub.cols == r.off + (i1 - 1) * s + j1
        assert(i0 * s + (i1 - 1 - i0) * s == (i1 - 1) * s) by (nonlinear_arith);
        lemma_mul_inequality(i1 - 1, r.rows - 1, s);
    }
}

/// Positions of a sub-region lie inside the parent region.
pub proof fn lemma_sub_in_region(
    sub: Region,
    r: Region,
    len: int,
    i0: int,
    i1: int,
    j0: int,
    j1: int,
    pos: int,
)
    requires
        r.wf(len),
        r.rows >= 1,
        r.cols >= 1,
        is_sub(sub, r, i0, i1, j0, j1),
        0 <= i0 < r.rows,
        0 <= j0 < r.cols,
        i0 <= i1 <= r.rows,
        j0 <= j1 <= r.cols,
        sub.in_region(pos),
    ensures
        r.in_region(pos),
{
    lemma_sub_wf(sub, r, len, i0, i1, j0, j1);
    lemma_in_region_coords(sub, len, pos);
    let s = r.stride as int;
    let i = (pos - sub.off) / s;
    let j = (pos - sub.off) % s;
    lemma_sub_idx(sub, r, i0, i1, j0, j1, i, j);
    lemma_idx_in_region(r, len, i0 + i, j0 + j);
}

/// Two sub-regions whose coordinate rectangles do not overlap share no
/// buffer position.
pub proof fn lemma_subs_disjoint(
    s1: Region,
    s2: Region,
    r: Region,
    len: int,
    a0: int,
    a1: int,
    b0: int,
    b1: int,
    c0: int,
    c1: int,
    d0: int,
    d1: int,
    pos: int,
)
    requires
        r.wf(len),
        r.rows >= 1,
        r.cols >= 1,
        is_sub(s1, r, a0, a1, b0, b1),
        is_sub(s2, r, c0, c1, d0, d1),
        0 <= a0 < r.rows,
        0 <= b0 < r.cols,
        a0 <= a1 <= r.rows,
        b0 <= b1 <= r.cols,
        0 <= c0 < r.rows,
        0 <= d0 < r.cols,
        c0 <= c1 <= r.rows,
        d0 <= d1 <= r.cols,
        a1 <= c0 || c1 <= a0 || b1 <= d0 || d1 <= b0,
        s1.in_region(pos),
    ensures
        !s2.in_region(pos),
{
    if s2.in_region(pos) {
        let s = r.stride as int;
        lemma_sub_wf(s1, r, len, a0, a1, b0, b1);
        lemma_sub_wf(s2, r, len, c0, c1, d0, d1);
        lemma_in_region_coords(s1, len, pos);
        lemma_in_region_coords(s2, len, pos);
        let x1 = (pos - s1.off) / s;
        let y1 = (pos - s1.off) % s;
        let x2 = (pos - s2.off) / s;
        let y2 = (pos - s2.off) % s;
        lemma_sub_idx(s1, r, a0, a1, b0, b1, x1, y1);
        lemma_sub_idx(s2, r, c0, c1, d0, d1, x2, y2);
        lemma_idx_injective(r, len, a0 + x1, b0 + y1, c0 + x2, d0 + y2);
        assert(false);
    }
}

/// The four quadrants produced by splitting a region at row `m2` and column
/// `n2` partition it exactly: the half sizes sum to the full sizes, every
/// position of the parent lies in some quadrant, and no position lies in two
/// quadrants.
pub proof fn lemma_quadrants_partition(
    r: Region,
    len: int,
    q11: Region,
    q12: Region,
    q21: Region,
    q22: Region,
    m2: int,
    n2: int,
)
    requires
        r.wf(len),
        r.rows >= 1,
        r.cols >= 1,
        0 <= m2 < r.rows,
        0 <= n2 < r.cols,
        is_sub(q11, r, 0, m2, 0, n2),
        is_sub(q12, r, 0, m2, n2, r.cols as int),
        is_sub(q21, r, m2, r.rows as int, 0, n2),
        is_sub(q22, r, m2, r.rows as int, n2, r.cols as int),
    ensures
        m2 + (r.rows - m2) == r.rows,
        n2 + (r.cols - n2) == r.cols,
        forall|pos: int|
            r.in_region(pos) <==> (q11.in_region(pos) || q12.in_region(pos) || q21.in_region(pos)
                || q22.in_region(pos)),
        forall|pos: int| !(q11.in_region(pos) && q12.in_region(pos)),
        forall|pos: int| !(q11.in_region(pos) && q21.in_region(pos)),
        forall|pos: int| !(q11.in_region(pos) && q22.in_region(pos)),
        forall|pos: int| !(q12.in_region(pos) && q21.in_region(pos)),
        forall|pos: int| !(q12.in_region(pos) && q22.in_region(pos)),
        forall|pos: int| !(q21.in_region(pos) && q22.in_region(pos)),
{
    let s = r.stride as int;
    assert forall|pos: int|
        r.in_region(pos) <==> (q11.in_region(pos) || q12.in_region(pos) || q21.in_region(pos)
            || q22.in_region(pos)) by {
        if r.in_region(pos) {
            lemma_in_region_coords(r, len, pos);
            let i = (pos - r.off) / s;
            let j = (pos - r.off) % s;
            if i < m2 && j < n2 {
                lemma_sub_idx(q11, r, 0, m2, 0, n2, i, j);
                lemma_sub_wf(q11, r, len, 0, m2, 0, n2);
                lemma_idx_in_region(q11, len, i, j);
            } else if i < m2 {
                lemma_sub_idx(q12, r, 0, m2, n2, r.cols as int, i, j - n2);
                lemma_sub_wf(q12, r, len, 0, m2, n2, r.cols as int);
                lemma_idx_in_region(q12, len, i, j - n2);
            } else if j < n2 {
                lemma_sub_idx(q21, r, m2, r.rows as int, 0, n2, i - m2, j);
                lemma_sub_wf(q21, r, len, m2, r.rows as int, 0, n2);
                lemma_idx_in_region(q21, len, i - m2, j);
            } else {
                lemma_sub_idx(q22, r, m2, r.rows as int, n2, r.cols as int, i - m2, j - n2);
                lemma_sub_wf(q22, r, len, m2, r.rows as int, n2, r.cols as int);
                lemma_idx_in_region(q22, len, i - m2, j - n2);
            }
        }
        if q11.in_region(pos) {
            lemma_sub_in_region(q11, r, len, 0, m2, 0, n2, pos);
        }
        if q12.in_region(pos) {
            lemma_sub_in_region(q12, r, len, 0, m2, n2, r.cols as int, pos);
        }
        if q21.in_region(pos) {
            lemma_sub_in_region(q21, r, len, m2, r.rows as int, 0, n2, pos);
        }
        if q22.in_region(pos) {
            lemma_sub_in_region(q22, r, len, m2, r.rows as int, n2, r.cols as int, pos);
        }
    }
    assert forall|pos: int| !(q11.in_region(pos) && q12.in_region(pos)) by {
        if q11.in_region(pos) {
            lemma_subs_disjoint(q11, q12, r, len, 0, m2, 0, n2, 0, m2, n2, r.cols as int, pos);
        }
    }
    assert forall|pos: int| !(q11.in_region(pos) && q21.in_region(pos)) by {
        if q11.in_region(pos) {
            lemma_subs_disjoint(q11, q21, r, len, 0, m2, 0, n2, m2, r.rows as int, 0, n2, pos);
        }
    }
    assert forall|pos: int| !(q11.in_region(pos) && q22.in_region(pos)) by {
        if q11.in_region(pos) {
            lemma_subs_disjoint(
                q11, q22, r, len, 0, m2, 0, n2, m2, r.rows as int, n2, r.cols as int, pos,
            );
        }
    }
    assert forall|pos: int| !(q12.in_region(pos) && q21.in_region(pos)) by {
        if q12.in_region(pos) {
            lemma_subs_disjoint(
                q12, q21, r, len, 0, m2, n2, r.cols as int, m2, r.rows as int, 0, n2, pos,
            );
        }
    }
    assert forall|pos: int| !(q12.in_region(pos) && q22.in_region(pos)) by {
        if q12.in_region(pos) {
            lemma_subs_disjoint(
                q12, q22, r, len, 0, m2, n2, r.cols as int, m2, r.rows as int, n2, r.cols as int,
                pos,
            );
        }
    }
    assert forall|pos: int| !(q21.in_region(pos) && q22.in_region(pos)) by {
        if q21.in_region(pos) {
            lemma_subs_disjoint(
                q21, q22, r, len, m2, r.rows as int, 0, n2, m2, r.rows as int, n2, r.cols as int,
                pos,
            );
        }
    }
}

} // verus!
