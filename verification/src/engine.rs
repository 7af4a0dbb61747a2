//! The recursive partitioner and parallel scheduler.
//!
//! A multiply problem whose output is larger than the threshold along either
//! axis is split at the half-points of all three dimensions into four output
//! quadrants, each needing two partial products along the shared dimension;
//! small problems go straight to the base kernel.  `gemm_reference` runs the
//! eight sub-problems sequentially; `gemm_optimized` runs each wave of four
//! same-depth-range quadrant updates as parallel tasks over disjoint owned
//! quadrant buffers, merged back between the two waves.

use crate::kernel::{
    acc_ok, bound_sq, dot, entries_bounded, gemm_base, lemma_dot_bound, lemma_dot_concat,
    lemma_dot_shift, mul_post, mul_pre, MAX_ENTRY,
};
use crate::matrix::{copy_region, write_region, Matrix};
use crate::region::{
    is_sub, lemma_idx_in_region, lemma_idx_injective, lemma_in_region_coords, lemma_sub_idx,
    lemma_sub_in_region, lemma_sub_wf, Region,
};
use vstd::prelude::*;

verus! {

/// Output sizes above this bound are split recursively; at or below it the
/// base kernel runs.
pub const RECURSION_THRESHOLD: usize = 256;

/// Admissible elements of a sub-region are admissible elements of its
/// parent.
pub proof fn lemma_entries_bounded_sub(
    buf: Seq<i64>,
    r: Region,
    sub: Region,
    i0: int,
    i1: int,
    j0: int,
    j1: int,
    bound: int,
)
    requires
        entries_bounded(buf, r, bound),
        is_sub(sub, r, i0, i1, j0, j1),
        0 <= i0,
        i1 <= r.rows,
        0 <= j0,
        j1 <= r.cols,
    ensures
        entries_bounded(buf, sub, bound),
{
    assert forall|u: int, v: int|
        0 <= u < sub.rows && 0 <= v < sub.cols implies -bound <= buf[#[trigger] sub.idx(u, v)]
        <= bound by {
        lemma_sub_idx(sub, r, i0, i1, j0, j1, u, v);
        assert(-bound <= buf[r.idx(i0 + u, j0 + v)] <= bound);
    }
}

/// A quadrant of the output whose elements have absorbed the inner products
/// of depth range [0, p0) still has room for the remaining `p1 - p0`
/// products.
pub proof fn lemma_acc_ok_sub_buf(
    a: Seq<i64>,
    ra: Region,
    b: Seq<i64>,
    rb: Region,
    c_in: Seq<i64>,
    c_cur: Seq<i64>,
    rc: Region,
    sc: Region,
    i0: int,
    i1: int,
    j0: int,
    j1: int,
    p0: int,
    p1: int,
)
    requires
        entries_bounded(a, ra, MAX_ENTRY as int),
        entries_bounded(b, rb, MAX_ENTRY as int),
        acc_ok(c_in, rc, ra.cols as int),
        ra.rows == rc.rows,
        rb.cols == rc.cols,
        ra.cols == rb.rows,
        is_sub(sc, rc, i0, i1, j0, j1),
        0 <= i0,
        i1 <= rc.rows,
        0 <= j0,
        j1 <= rc.cols,
        0 <= p0 <= p1 <= ra.cols,
        forall|x: int, y: int|
            i0 <= x < i1 && j0 <= y < j1 ==> c_cur[#[trigger] rc.idx(x, y)] as int == c_in[rc.idx(
                x,
                y,
            )] + dot(a, ra, b, rb, x, y, 0, p0),
    ensures
        acc_ok(c_cur, sc, p1 - p0),
{
    let p = ra.cols as int;
    assert forall|u: int, v: int|
        0 <= u < sc.rows && 0 <= v < sc.cols implies i64::MIN + (p1 - p0) * bound_sq() <= c_cur[
        #[trigger] sc.idx(u, v)
    ] <= i64::MAX - (p1 - p0) * bound_sq() by {
        lemma_sub_idx(sc, rc, i0, i1, j0, j1, u, v);
        let x = i0 + u;
        let y = j0 + v;
        lemma_dot_bound(a, ra, b, rb, x, y, 0, p0);
        assert(i64::MIN + p * bound_sq() <= c_in[rc.idx(x, y)] <= i64::MAX - p * bound_sq());
        assert((p1 - p0) * bound_sq() + p0 * bound_sq() <= p * bound_sq()) by (nonlinear_arith)
            requires
                p1 <= p,
                0 <= p0,
                bound_sq() > 0,
        ;
    }
}

/// Effect of one quadrant update, restated over the parent regions: the
/// update adds the depth-range [p0, p1) inner products to rows [i0, i1) by
/// columns [j0, j1) of the parent output region and leaves every other
/// buffer position unchanged.
pub proof fn lemma_sub_call_effect(
    a: Seq<i64>,
    ra: Region,
    b: Seq<i64>,
    rb: Region,
    c_pre: Seq<i64>,
    c_post: Seq<i64>,
    rc: Region,
    sa: Region,
    sb: Region,
    sc: Region,
    i0: int,
    i1: int,
    j0: int,
    j1: int,
    p0: int,
    p1: int,
)
    requires
        rc.wf(c_pre.len() as int),
        rc.rows >= 1,
        rc.cols >= 1,
        ra.rows == rc.rows,
        rb.cols == rc.cols,
        ra.cols == rb.rows,
        is_sub(sa, ra, i0, i1, p0, p1),
        is_sub(sb, rb, p0, p1, j0, j1),
        is_sub(sc, rc, i0, i1, j0, j1),
        0 <= i0 < rc.rows,
        i0 <= i1 <= rc.rows,
        0 <= j0 < rc.cols,
        j0 <= j1 <= rc.cols,
        0 <= p0 <= p1 <= ra.cols,
        mul_post(a, sa, b, sb, c_pre, c_post, sc),
    ensures
        c_post.len() == c_pre.len(),
        forall|pos: int|
            0 <= pos < c_pre.len() && !(#[trigger] rc.in_region(pos)) ==> c_post[pos] == c_pre[pos],
        forall|x: int, y: int|
            0 <= x < rc.rows && 0 <= y < rc.cols && i0 <= x < i1 && j0 <= y < j1 ==> c_post[
                #[trigger] rc.idx(x, y)
            ] as int == c_pre[rc.idx(x, y)] + dot(a, ra, b, rb, x, y, p0, p1),
        forall|x: int, y: int|
            0 <= x < rc.rows && 0 <= y < rc.cols && !(i0 <= x < i1 && j0 <= y < j1) ==> c_post[
                #[trigger] rc.idx(x, y)
            ] == c_pre[rc.idx(x, y)],
{
    let len = c_pre.len() as int;
    lemma_sub_wf(sc, rc, len, i0, i1, j0, j1);
    assert forall|pos: int|
        0 <= pos < c_pre.len() && !(#[trigger] rc.in_region(pos)) implies c_post[pos]
        == c_pre[pos] by {
        if sc.in_region(pos) {
            lemma_sub_in_region(sc, rc, len, i0, i1, j0, j1, pos);
            assert(false);
        }
    }
    assert forall|x: int, y: int|
        0 <= x < rc.rows && 0 <= y < rc.cols && i0 <= x < i1 && j0 <= y < j1 implies c_post[
        #[trigger] rc.idx(x, y)
    ] as int == c_pre[rc.idx(x, y)] + dot(a, ra, b, rb, x, y, p0, p1) by {
        let u = x - i0;
        let v = y - j0;
        lemma_sub_idx(sc, rc, i0, i1, j0, j1, u, v);
        assert(c_post[sc.idx(u, v)] as int == c_pre[sc.idx(u, v)] + dot(
            a,
            sa,
            b,
            sb,
            u,
            v,
            0,
            sa.cols as int,
        ));
        lemma_dot_shift(a, sa, ra, b, sb, rb, i0, i1, p0, p1, j0, j1, u, v, p1 - p0);
    }
    assert forall|x: int, y: int|
        0 <= x < rc.rows && 0 <= y < rc.cols && !(i0 <= x < i1 && j0 <= y < j1) implies c_post[
        #[trigger] rc.idx(x, y)
    ] == c_pre[rc.idx(x, y)] by {
        lemma_idx_in_region(rc, len, x, y);
        let pos = rc.idx(x, y);
        if sc.in_region(pos) {
            lemma_in_region_coords(sc, len, pos);
            let s = rc.stride as int;
            let u = (pos - sc.off) / s;
            let v = (pos - sc.off) % s;
            lemma_sub_idx(sc, rc, i0, i1, j0, j1, u, v);
            lemma_idx_injective(rc, len, x, y, i0 + u, j0 + v);
            assert(false);
        }
    }
}

/// The serial recursive partitioner: splits the problem at the half-points
/// of all three dimensions into four output quadrants with two partial
/// products each, recursing until the output fits under the threshold, then
/// runs the base kernel.  Sub-problems run one after another.
pub fn gemm_reference(
    a: &Matrix,
    ra: Region,
    b: &Matrix,
    rb: Region,
    c: &mut Matrix,
    rc: Region,
    threshold: usize,
)
    requires
        threshold >= 1,
        mul_pre(a.data@, ra, b.data@, rb, old(c).data@, rc),
    ensures
        final(c).rows == old(c).rows,
        final(c).cols == old(c).cols,
        mul_post(a.data@, ra, b.data@, rb, old(c).data@, final(c).data@, rc),
    decreases rc.rows + rc.cols,
{
    if rc.rows == 0 || rc.cols == 0 || ra.cols == 0 {
        // Empty output region, or empty shared dimension: every inner
        // product is empty, so there is nothing to add.
        return ;
    }
    if rc.rows <= threshold && rc.cols <= threshold {
        gemm_base(a, ra, b, rb, c, rc);
        return ;
    }
    let ghost c_in = c.data@;
    let m = rc.rows;
    let n = rc.cols;
    let p = ra.cols;
    let m2 = m / 2;
    let n2 = n / 2;
    let p2 = p / 2;
    let alen = a.data.len();
    let blen = b.data.len();
    let clen = c.data.len();
    let c11 = rc.sub(0, m2, 0, n2, clen);
    let c12 = rc.sub(0, m2, n2, n, clen);
    let c21 = rc.sub(m2, m, 0, n2, clen);
    let c22 = rc.sub(m2, m, n2, n, clen);
    let a_tl = ra.sub(0, m2, 0, p2, alen);
    let a_tr = ra.sub(0, m2, p2, p, alen);
    let a_bl = ra.sub(m2, m, 0, p2, alen);
    let a_br = ra.sub(m2, m, p2, p, alen);
    let b_tl = rb.sub(0, p2, 0, n2, blen);
    let b_tr = rb.sub(0, p2, n2, n, blen);
    let b_bl = rb.sub(p2, p, 0, n2, blen);
    let b_br = rb.sub(p2, p, n2, n, blen);
    proof {
        lemma_entries_bounded_sub(a.data@, ra, a_tl, 0, m2 as int, 0, p2 as int, MAX_ENTRY as int);
        lemma_entries_bounded_sub(
            a.data@, ra, a_tr, 0, m2 as int, p2 as int, p as int, MAX_ENTRY as int,
        );
        lemma_entries_bounded_sub(
            a.data@, ra, a_bl, m2 as int, m as int, 0, p2 as int, MAX_ENTRY as int,
        );
        lemma_entries_bounded_sub(
            a.data@, ra, a_br, m2 as int, m as int, p2 as int, p as int, MAX_ENTRY as int,
        );
        lemma_entries_bounded_sub(b.data@, rb, b_tl, 0, p2 as int, 0, n2 as int, MAX_ENTRY as int);
        lemma_entries_bounded_sub(
            b.data@, rb, b_tr, 0, p2 as int, n2 as int, n as int, MAX_ENTRY as int,
        );
        lemma_entries_bounded_sub(
            b.data@, rb, b_bl, p2 as int, p as int, 0, n2 as int, MAX_ENTRY as int,
        );
        lemma_entries_bounded_sub(
            b.data@, rb, b_br, p2 as int, p as int, n2 as int, n as int, MAX_ENTRY as int,
        );
        lemma_acc_ok_sub_buf(
            a.data@, ra, b.data@, rb, c_in, c.data@, rc, c11, 0, m2 as int, 0, n2 as int, 0,
            p2 as int,
        );
    }
    // First output quadrant: both shared-dimension contributions.
    gemm_reference(a, a_tl, b, b_tl, c, c11, threshold);
    let ghost g1 = c.data@;
    proof {
        lemma_sub_call_effect(
            a.data@, ra, b.data@, rb, c_in, g1, rc, a_tl, b_tl, c11, 0, m2 as int, 0, n2 as int, 0,
            p2 as int,
        );
        lemma_acc_ok_sub_buf(
            a.data@, ra, b.data@, rb, c_in, g1, rc, c11, 0, m2 as int, 0, n2 as int, p2 as int,
            p as int,
        );
    }
    gemm_reference(a, a_tr, b, b_bl, c, c11, threshold);
    let ghost g2 = c.data@;
    proof {
        lemma_sub_call_effect(
            a.data@, ra, b.data@, rb, g1, g2, rc, a_tr, b_bl, c11, 0, m2 as int, 0, n2 as int,
            p2 as int, p as int,
        );
        lemma_acc_ok_sub_buf(
            a.data@, ra, b.data@, rb, c_in, g2, rc, c12, 0, m2 as int, n2 as int, n as int, 0,
            p2 as int,
        );
    }
    // Second output quadrant.
    gemm_reference(a, a_tl, b, b_tr, c, c12, threshold);
    let ghost g3 = c.data@;
    proof {
        lemma_sub_call_effect(
            a.data@, ra, b.data@, rb, g2, g3, rc, a_tl, b_tr, c12, 0, m2 as int, n2 as int,
            n as int, 0, p2 as int,
        );
        lemma_acc_ok_sub_buf(
            a.data@, ra, b.data@, rb, c_in, g3, rc, c12, 0, m2 as int, n2 as int, n as int,
            p2 as int, p as int,
        );
    }
    gemm_reference(a, a_tr, b, b_br, c, c12, threshold);
    let ghost g4 = c.data@;
    proof {
        lemma_sub_call_effect(
            a.data@, ra, b.data@, rb, g3, g4, rc, a_tr, b_br, c12, 0, m2 as int, n2 as int,
            n as int, p2 as int, p as int,
        );
        lemma_acc_ok_sub_buf(
            a.data@, ra, b.data@, rb, c_in, g4, rc, c21, m2 as int, m as int, 0, n2 as int, 0,
            p2 as int,
        );
    }
    // Third output quadrant.
    gemm_reference(a, a_bl, b, b_tl, c, c21, threshold);
    let ghost g5 = c.data@;
    proof {
        lemma_sub_call_effect(
            a.data@, ra, b.data@, rb, g4, g5, rc, a_bl, b_tl, c21, m2 as int, m as int, 0,
            n2 as int, 0, p2 as int,
        );
        lemma_acc_ok_sub_buf(
            a.data@, ra, b.data@, rb, c_in, g5, rc, c21, m2 as int, m as int, 0, n2 as int,
            p2 as int, p as int,
        );
    }
    gemm_reference(a, a_br, b, b_bl, c, c21, threshold);
    let ghost g6 = c.data@;
    proof {
        lemma_sub_call_effect(
            a.data@, ra, b.data@, rb, g5, g6, rc, a_br, b_bl, c21, m2 as int, m as int, 0,
            n2 as int, p2 as int, p as int,
        );
        lemma_acc_ok_sub_buf(
            a.data@, ra, b.data@, rb, c_in, g6, rc, c22, m2 as int, m as int, n2 as int, n as int,
            0, p2 as int,
        );
    }
    // Fourth output quadrant.
    gemm_reference(a, a_bl, b, b_tr, c, c22, threshold);
    let ghost g7 = c.data@;
    proof {
        lemma_sub_call_effect(
            a.data@, ra, b.data@, rb, g6, g7, rc, a_bl, b_tr, c22, m2 as int, m as int, n2 as int,
            n as int, 0, p2 as int,
        );
        lemma_acc_ok_sub_buf(
            a.data@, ra, b.data@, rb, c_in, g7, rc, c22, m2 as int, m as int, n2 as int, n as int,
            p2 as int, p as int,
        );
    }
    gemm_reference(a, a_br, b, b_br, c, c22, threshold);
    let ghost g8 = c.data@;
    proof {
        lemma_sub_call_effect(
            a.data@, ra, b.data@, rb, g7, g8, rc, a_br, b_br, c22, m2 as int, m as int, n2 as int,
            n as int, p2 as int, p as int,
        );
        assert forall|x: int, y: int|
            0 <= x < rc.rows && 0 <= y < rc.cols implies g8[#[trigger] rc.idx(x, y)] as int
            == c_in[rc.idx(x, y)] + dot(a.data@, ra, b.data@, rb, x, y, 0, p as int) by {
            lemma_dot_concat(a.data@, ra, b.data@, rb, x, y, 0, p2 as int, p as int);
        }
    }
}


/// Bounds carried over from a region of a larger buffer to the owned matrix
/// that holds a copy of it.
pub proof fn lemma_acc_ok_matrix(q: Matrix, sc: Region, c_cur: Seq<i64>, psub: int)
    requires
        q.wf(),
        q.rows == sc.rows,
        q.cols == sc.cols,
        forall|u: int, v: int|
            0 <= u < sc.rows && 0 <= v < sc.cols ==> q.at_spec(u, v) == c_cur[#[trigger] sc.idx(
                u,
                v,
            )],
        acc_ok(c_cur, sc, psub),
    ensures
        acc_ok(q.data@, q.region_spec(), psub),
{
    let reg = q.region_spec();
    assert forall|u: int, v: int|
        0 <= u < reg.rows && 0 <= v < reg.cols implies i64::MIN + psub * bound_sq() <= q.data@[
        #[trigger] reg.idx(u, v)
    ] <= i64::MAX - psub * bound_sq() by {
        assert(q.at_spec(u, v) == q.data@[reg.idx(u, v)]);
        assert(q.at_spec(u, v) == c_cur[sc.idx(u, v)]);
        assert(i64::MIN + psub * bound_sq() <= c_cur[sc.idx(u, v)] <= i64::MAX - psub
            * bound_sq());
    }
}

/// Shape and bound conditions under which one owned quadrant can absorb the
/// products of its A-piece and B-piece.
pub open spec fn quad_pre(a: Seq<i64>, sa: Region, b: Seq<i64>, sb: Region, c: Matrix) -> bool {
    &&& c.wf()
    &&& mul_pre(a, sa, b, sb, c.data@, c.region_spec())
}

/// What one owned quadrant update returns: the input matrix with the
/// products of its A-piece and B-piece accumulated into every element.
pub open spec fn quad_post(
    a: Seq<i64>,
    sa: Region,
    b: Seq<i64>,
    sb: Region,
    c_in: Matrix,
    c_out: Matrix,
) -> bool {
    &&& c_out.wf()
    &&& c_out.rows == c_in.rows
    &&& c_out.cols == c_in.cols
    &&& mul_post(a, sa, b, sb, c_in.data@, c_out.data@, c_in.region_spec())
}

/// One quadrant update over an owned buffer: runs the parallel engine on
/// the whole of `c` and hands the updated matrix back.
pub fn gemm_quad(
    a: &Matrix,
    sa: Region,
    b: &Matrix,
    sb: Region,
    c: Matrix,
    threshold: usize,
) -> (r: Matrix)
    requires
        threshold >= 1,
        quad_pre(a.data@, sa, b.data@, sb, c),
    ensures
        quad_post(a.data@, sa, b.data@, sb, c, r),
{
    let mut m = c;
    let rc = m.region();
    gemm_optimized(a, sa, b, sb, &mut m, rc, threshold);
    m
}

/// One fork-join wave: the four quadrant updates of one depth range, run as
/// two parallel task groups of two sequential updates each, exactly the
/// grouping of the scheduling discipline.  The groups write only their own
/// owned quadrant buffers, so they share nothing mutable.
///
/// Relies on rayon::join: it runs both closures to completion, possibly in
/// parallel, and returns precisely the pair of their results; the results
/// here are those of `gemm_quad`, whose contract is verified.
#[verifier::external_body]
fn par_quads(
    a: &Matrix,
    sa1: Region,
    sa2: Region,
    sa3: Region,
    sa4: Region,
    b: &Matrix,
    sb1: Region,
    sb2: Region,
    sb3: Region,
    sb4: Region,
    c1: Matrix,
    c2: Matrix,
    c3: Matrix,
    c4: Matrix,
    threshold: usize,
) -> (r: (Matrix, Matrix, Matrix, Matrix))
    requires
        threshold >= 1,
        quad_pre(a.data@, sa1, b.data@, sb1, c1),
        quad_pre(a.data@, sa2, b.data@, sb2, c2),
        quad_pre(a.data@, sa3, b.data@, sb3, c3),
        quad_pre(a.data@, sa4, b.data@, sb4, c4),
    ensures
        quad_post(a.data@, sa1, b.data@, sb1, c1, r.0),
        quad_post(a.data@, sa2, b.data@, sb2, c2, r.1),
        quad_post(a.data@, sa3, b.data@, sb3, c3, r.2),
        quad_post(a.data@, sa4, b.data@, sb4, c4, r.3),
{
    let ((r1, r2), (r3, r4)) = rayon::join(
        || (gemm_quad(a, sa1, b, sb1, c1, threshold), gemm_quad(a, sa2, b, sb2, c2, threshold)),
        || (gemm_quad(a, sa3, b, sb3, c3, threshold), gemm_quad(a, sa4, b, sb4, c4, threshold)),
    );
    (r1, r2, r3, r4)
}


/// The parallel partitioner: the same splitting as `gemm_reference`, but
/// each wave of four same-depth-range quadrant updates runs as parallel
/// tasks over disjoint owned quadrant buffers.  The first wave's results
/// are merged back before the second wave starts, so the two contributions
/// to each quadrant never run against each other.
#[verifier::rlimit(100)]
pub fn gemm_optimized(
    a: &Matrix,
    ra: Region,
    b: &Matrix,
    rb: Region,
    c: &mut Matrix,
    rc: Region,
    threshold: usize,
)
    requires
        threshold >= 1,
        mul_pre(a.data@, ra, b.data@, rb, old(c).data@, rc),
    ensures
        final(c).rows == old(c).rows,
        final(c).cols == old(c).cols,
        mul_post(a.data@, ra, b.data@, rb, old(c).data@, final(c).data@, rc),
{
    if rc.rows == 0 || rc.cols == 0 || ra.cols == 0 {
        // Empty output region, or empty shared dimension: every inner
        // product is empty, so there is nothing to add.
        return ;
    }
    if rc.rows <= threshold && rc.cols <= threshold {
        gemm_base(a, ra, b, rb, c, rc);
        return ;
    }
    let ghost c_in = c.data@;
    let m = rc.rows;
    let n = rc.cols;
    let p = ra.cols;
    let m2 = m / 2;
    let n2 = n / 2;
    let p2 = p / 2;
    let alen = a.data.len();
    let blen = b.data.len();
    let clen = c.data.len();
    let c11 = rc.sub(0, m2, 0, n2, clen);
    let c12 = rc.sub(0, m2, n2, n, clen);
    let c21 = rc.sub(m2, m, 0, n2, clen);
    let c22 = rc.sub(m2, m, n2, n, clen);
    let a_tl = ra.sub(0, m2, 0, p2, alen);
    let a_tr = ra.sub(0, m2, p2, p, alen);
    let a_bl = ra.sub(m2, m, 0, p2, alen);
    let a_br = ra.sub(m2, m, p2, p, alen);
    let b_tl = rb.sub(0, p2, 0, n2, blen);
    let b_tr = rb.sub(0, p2, n2, n, blen);
    let b_bl = rb.sub(p2, p, 0, n2, blen);
    let b_br = rb.sub(p2, p, n2, n, blen);
    proof {
        lemma_entries_bounded_sub(a.data@, ra, a_tl, 0, m2 as int, 0, p2 as int, MAX_ENTRY as int);
        lemma_entries_bounded_sub(
            a.data@, ra, a_tr, 0, m2 as int, p2 as int, p as int, MAX_ENTRY as int,
        );
        lemma_entries_bounded_sub(
            a.data@, ra, a_bl, m2 as int, m as int, 0, p2 as int, MAX_ENTRY as int,
        );
        lemma_entries_bounded_sub(
            a.data@, ra, a_br, m2 as int, m as int, p2 as int, p as int, MAX_ENTRY as int,
        );
        lemma_entries_bounded_sub(b.data@, rb, b_tl, 0, p2 as int, 0, n2 as int, MAX_ENTRY as int);
        lemma_entries_bounded_sub(
            b.data@, rb, b_tr, 0, p2 as int, n2 as int, n as int, MAX_ENTRY as int,
        );
        lemma_entries_bounded_sub(
            b.data@, rb, b_bl, p2 as int, p as int, 0, n2 as int, MAX_ENTRY as int,
        );
        lemma_entries_bounded_sub(
            b.data@, rb, b_br, p2 as int, p as int, n2 as int, n as int, MAX_ENTRY as int,
        );
        lemma_acc_ok_sub_buf(
            a.data@, ra, b.data@, rb, c_in, c.data@, rc, c11, 0, m2 as int, 0, n2 as int, 0,
            p2 as int,
        );
        lemma_acc_ok_sub_buf(
            a.data@, ra, b.data@, rb, c_in, c.data@, rc, c12, 0, m2 as int, n2 as int, n as int, 0,
            p2 as int,
        );
        lemma_acc_ok_sub_buf(
            a.data@, ra, b.data@, rb, c_in, c.data@, rc, c21, m2 as int, m as int, 0, n2 as int, 0,
            p2 as int,
        );
        lemma_acc_ok_sub_buf(
            a.data@, ra, b.data@, rb, c_in, c.data@, rc, c22, m2 as int, m as int, n2 as int,
            n as int, 0, p2 as int,
        );
    }
    // Wave one: depth range [0, p2) into all four quadrants.
    let q11 = copy_region(&c.data, c11);
    let q12 = copy_region(&c.data, c12);
    let q21 = copy_region(&c.data, c21);
    let q22 = copy_region(&c.data, c22);
    proof {
        lemma_acc_ok_matrix(q11, c11, c.data@, p2 as int);
        lemma_acc_ok_matrix(q12, c12, c.data@, p2 as int);
        lemma_acc_ok_matrix(q21, c21, c.data@, p2 as int);
        lemma_acc_ok_matrix(q22, c22, c.data@, p2 as int);
        q11.lemma_region_wf();
        q12.lemma_region_wf();
        q21.lemma_region_wf();
        q22.lemma_region_wf();
        assert(quad_pre(a.data@, a_tl, b.data@, b_tl, q11));
        assert(quad_pre(a.data@, a_tl, b.data@, b_tr, q12));
        assert(quad_pre(a.data@, a_bl, b.data@, b_tl, q21));
        assert(quad_pre(a.data@, a_bl, b.data@, b_tr, q22));
    }
    let (r11, r21, r12, r22) = par_quads(
        a, a_tl, a_bl, a_tl, a_bl, b, b_tl, b_tl, b_tr, b_tr, q11, q21, q12, q22, threshold,
    );
    let ghost s0 = c.data@;
    write_region(c, c11, &r11);
    let ghost s1 = c.data@;
    proof {
        assert forall|u: int, v: int|
            0 <= u < c11.rows && 0 <= v < c11.cols implies s1[#[trigger] c11.idx(u, v)] as int
            == s0[c11.idx(u, v)] + dot(a.data@, a_tl, b.data@, b_tl, u, v, 0, a_tl.cols as int) by {
            let reg = q11.region_spec();
            assert(r11.region_spec() == reg);
            assert(r11.at_spec(u, v) == r11.data@[reg.idx(u, v)]);
            assert(q11.at_spec(u, v) == q11.data@[reg.idx(u, v)]);
        }
        assert(mul_post(a.data@, a_tl, b.data@, b_tl, s0, s1, c11));
        lemma_sub_call_effect(
            a.data@, ra, b.data@, rb, s0, s1, rc, a_tl, b_tl, c11, 0, m2 as int, 0, n2 as int, 0,
            p2 as int,
        );
    }
    write_region(c, c12, &r12);
    let ghost s2 = c.data@;
    proof {
        assert forall|u: int, v: int|
            0 <= u < c12.rows && 0 <= v < c12.cols implies s2[#[trigger] c12.idx(u, v)] as int
            == s1[c12.idx(u, v)] + dot(a.data@, a_tl, b.data@, b_tr, u, v, 0, a_tl.cols as int) by {
            let reg = q12.region_spec();
            assert(r12.region_spec() == reg);
            assert(r12.at_spec(u, v) == r12.data@[reg.idx(u, v)]);
            assert(q12.at_spec(u, v) == q12.data@[reg.idx(u, v)]);
            lemma_sub_idx(c12, rc, 0, m2 as int, n2 as int, n as int, u, v);
        }
        assert(mul_post(a.data@, a_tl, b.data@, b_tr, s1, s2, c12));
        lemma_sub_call_effect(
            a.data@, ra, b.data@, rb, s1, s2, rc, a_tl, b_tr, c12, 0, m2 as int, n2 as int,
            n as int, 0, p2 as int,
        );
    }
    write_region(c, c21, &r21);
    let ghost s3 = c.data@;
    proof {
        assert forall|u: int, v: int|
            0 <= u < c21.rows && 0 <= v < c21.cols implies s3[#[trigger] c21.idx(u, v)] as int
            == s2[c21.idx(u, v)] + dot(a.data@, a_bl, b.data@, b_tl, u, v, 0, a_bl.cols as int) by {
            let reg = q21.region_spec();
            assert(r21.region_spec() == reg);
            assert(r21.at_spec(u, v) == r21.data@[reg.idx(u, v)]);
            assert(q21.at_spec(u, v) == q21.data@[reg.idx(u, v)]);
            lemma_sub_idx(c21, rc, m2 as int, m as int, 0, n2 as int, u, v);
        }
        assert(mul_post(a.data@, a_bl, b.data@, b_tl, s2, s3, c21));
        lemma_sub_call_effect(
            a.data@, ra, b.data@, rb, s2, s3, rc, a_bl, b_tl, c21, m2 as int, m as int, 0,
            n2 as int, 0, p2 as int,
        );
    }
    write_region(c, c22, &r22);
    let ghost s4 = c.data@;
    proof {
        assert forall|u: int, v: int|
            0 <= u < c22.rows && 0 <= v < c22.cols implies s4[#[trigger] c22.idx(u, v)] as int
            == s3[c22.idx(u, v)] + dot(a.data@, a_bl, b.data@, b_tr, u, v, 0, a_bl.cols as int) by {
            let reg = q22.region_spec();
            assert(r22.region_spec() == reg);
            assert(r22.at_spec(u, v) == r22.data@[reg.idx(u, v)]);
            assert(q22.at_spec(u, v) == q22.data@[reg.idx(u, v)]);
            lemma_sub_idx(c22, rc, m2 as int, m as int, n2 as int, n as int, u, v);
        }
        assert(mul_post(a.data@, a_bl, b.data@, b_tr, s3, s4, c22));
        lemma_sub_call_effect(
            a.data@, ra, b.data@, rb, s3, s4, rc, a_bl, b_tr, c22, m2 as int, m as int, n2 as int,
            n as int, 0, p2 as int,
        );
    }
    // Wave two: depth range [p2, p), after a full merge of wave one.
    proof {
        lemma_acc_ok_sub_buf(
            a.data@, ra, b.data@, rb, c_in, c.data@, rc, c11, 0, m2 as int, 0, n2 as int,
            p2 as int, p as int,
        );
        lemma_acc_ok_sub_buf(
            a.data@, ra, b.data@, rb, c_in, c.data@, rc, c12, 0, m2 as int, n2 as int, n as int,
            p2 as int, p as int,
        );
        lemma_acc_ok_sub_buf(
            a.data@, ra, b.data@, rb, c_in, c.data@, rc, c21, m2 as int, m as int, 0, n2 as int,
            p2 as int, p as int,
        );
        lemma_acc_ok_sub_buf(
            a.data@, ra, b.data@, rb, c_in, c.data@, rc, c22, m2 as int, m as int, n2 as int,
            n as int, p2 as int, p as int,
        );
    }
    let t11 = copy_region(&c.data, c11);
    let t12 = copy_region(&c.data, c12);
    let t21 = copy_region(&c.data, c21);
    let t22 = copy_region(&c.data, c22);
    proof {
        lemma_acc_ok_matrix(t11, c11, c.data@, p as int - p2 as int);
        lemma_acc_ok_matrix(t12, c12, c.data@, p as int - p2 as int);
        lemma_acc_ok_matrix(t21, c21, c.data@, p as int - p2 as int);
        lemma_acc_ok_matrix(t22, c22, c.data@, p as int - p2 as int);
        t11.lemma_region_wf();
        t12.lemma_region_wf();
        t21.lemma_region_wf();
        t22.lemma_region_wf();
        assert(quad_pre(a.data@, a_tr, b.data@, b_bl, t11));
        assert(quad_pre(a.data@, a_tr, b.data@, b_br, t12));
        assert(quad_pre(a.data@, a_br, b.data@, b_bl, t21));
        assert(quad_pre(a.data@, a_br, b.data@, b_br, t22));
    }
    let (w11, w21, w12, w22) = par_quads(
        a, a_tr, a_br, a_tr, a_br, b, b_bl, b_bl, b_br, b_br, t11, t21, t12, t22, threshold,
    );
    let ghost s5 = c.data@;
    write_region(c, c11, &w11);
    let ghost s6 = c.data@;
    proof {
        assert forall|u: int, v: int|
            0 <= u < c11.rows && 0 <= v < c11.cols implies s6[#[trigger] c11.idx(u, v)] as int
            == s5[c11.idx(u, v)] + dot(a.data@, a_tr, b.data@, b_bl, u, v, 0, a_tr.cols as int) by {
            let reg = t11.region_spec();
            assert(w11.region_spec() == reg);
            assert(w11.at_spec(u, v) == w11.data@[reg.idx(u, v)]);
            assert(t11.at_spec(u, v) == t11.data@[reg.idx(u, v)]);
        }
        assert(mul_post(a.data@, a_tr, b.data@, b_bl, s5, s6, c11));
        lemma_sub_call_effect(
            a.data@, ra, b.data@, rb, s5, s6, rc, a_tr, b_bl, c11, 0, m2 as int, 0, n2 as int,
            p2 as int, p as int,
        );
    }
    write_region(c, c12, &w12);
    let ghost s7 = c.data@;
    proof {
        assert forall|u: int, v: int|
            0 <= u < c12.rows && 0 <= v < c12.cols implies s7[#[trigger] c12.idx(u, v)] as int
            == s6[c12.idx(u, v)] + dot(a.data@, a_tr, b.data@, b_br, u, v, 0, a_tr.cols as int) by {
            let reg = t12.region_spec();
            assert(w12.region_spec() == reg);
            assert(w12.at_spec(u, v) == w12.data@[reg.idx(u, v)]);
            assert(t12.at_spec(u, v) == t12.data@[reg.idx(u, v)]);
            lemma_sub_idx(c12, rc, 0, m2 as int, n2 as int, n as int, u, v);
        }
        assert(mul_post(a.data@, a_tr, b.data@, b_br, s6, s7, c12));
        lemma_sub_call_effect(
            a.data@, ra, b.data@, rb, s6, s7, rc, a_tr, b_br, c12, 0, m2 as int, n2 as int,
            n as int, p2 as int, p as int,
        );
    }
    write_region(c, c21, &w21);
    let ghost s8 = c.data@;
    proof {
        assert forall|u: int, v: int|
            0 <= u < c21.rows && 0 <= v < c21.cols implies s8[#[trigger] c21.idx(u, v)] as int
            == s7[c21.idx(u, v)] + dot(a.data@, a_br, b.data@, b_bl, u, v, 0, a_br.cols as int) by {
            let reg = t21.region_spec();
            assert(w21.region_spec() == reg);
            assert(w21.at_spec(u, v) == w21.data@[reg.idx(u, v)]);
            assert(t21.at_spec(u, v) == t21.data@[reg.idx(u, v)]);
            lemma_sub_idx(c21, rc, m2 as int, m as int, 0, n2 as int, u, v);
        }
        assert(mul_post(a.data@, a_br, b.data@, b_bl, s7, s8, c21));
        lemma_sub_call_effect(
            a.data@, ra, b.data@, rb, s7, s8, rc, a_br, b_bl, c21, m2 as int, m as int, 0,
            n2 as int, p2 as int, p as int,
        );
    }
    write_region(c, c22, &w22);
    let ghost s9 = c.data@;
    proof {
        assert forall|u: int, v: int|
            0 <= u < c22.rows && 0 <= v < c22.cols implies s9[#[trigger] c22.idx(u, v)] as int
            == s8[c22.idx(u, v)] + dot(a.data@, a_br, b.data@, b_br, u, v, 0, a_br.cols as int) by {
            let reg = t22.region_spec();
            assert(w22.region_spec() == reg);
            assert(w22.at_spec(u, v) == w22.data@[reg.idx(u, v)]);
            assert(t22.at_spec(u, v) == t22.data@[reg.idx(u, v)]);
            lemma_sub_idx(c22, rc, m2 as int, m as int, n2 as int, n as int, u, v);
        }
        assert(mul_post(a.data@, a_br, b.data@, b_br, s8, s9, c22));
        lemma_sub_call_effect(
            a.data@, ra, b.data@, rb, s8, s9, rc, a_br, b_br, c22, m2 as int, m as int, n2 as int,
            n as int, p2 as int, p as int,
        );
        assert forall|x: int, y: int|
            0 <= x < rc.rows && 0 <= y < rc.cols implies s9[#[trigger] rc.idx(x, y)] as int
            == c_in[rc.idx(x, y)] + dot(a.data@, ra, b.data@, rb, x, y, 0, p as int) by {
            lemma_dot_concat(a.data@, ra, b.data@, rb, x, y, 0, p2 as int, p as int);
        }
    }
}


/// Shape compatibility of one multiply problem: A is m by p, B is p by n,
/// C is m by n.
pub open spec fn shapes_compatible(a: Matrix, b: Matrix, c: Matrix) -> bool {
    &&& a.cols == b.rows
    &&& a.rows == c.rows
    &&& b.cols == c.cols
}

/// Element bounds of one multiply problem: the factors hold admissible
/// elements and the output has room for the whole accumulation.
pub open spec fn values_admissible(a: Matrix, b: Matrix, c: Matrix) -> bool {
    &&& entries_bounded(a.data@, a.region_spec(), MAX_ENTRY as int)
    &&& entries_bounded(b.data@, b.region_spec(), MAX_ENTRY as int)
    &&& acc_ok(c.data@, c.region_spec(), a.cols as int)
}

/// Whether every element of the matrix has magnitude at most `bound`.
#[verifier::loop_isolation(false)]
pub fn entries_within(m: &Matrix, bound: i64) -> (r: bool)
    requires
        m.wf(),
        bound >= 0,
    ensures
        r == entries_bounded(m.data@, m.region_spec(), bound as int),
{
    proof {
        m.lemma_region_wf();
    }
    let ghost reg = m.region_spec();
    let mut i: usize = 0;
    while i < m.rows
        invariant
            i <= m.rows,
            forall|x: int, y: int|
                0 <= x < i && 0 <= y < m.cols ==> -(bound as int) <= m.data@[#[trigger] reg.idx(
                    x,
                    y,
                )] <= bound as int,
        decreases m.rows - i,
    {
        let mut j: usize = 0;
        while j < m.cols
            invariant
                i < m.rows,
                j <= m.cols,
                forall|x: int, y: int|
                    0 <= x < i && 0 <= y < m.cols ==> -(bound as int) <= m.data@[
                        #[trigger] reg.idx(x, y)
                    ] <= bound as int,
                forall|y: int|
                    0 <= y < j ==> -(bound as int) <= m.data@[#[trigger] reg.idx(i as int, y)]
                        <= bound as int,
            decreases m.cols - j,
        {
            let v = m.get(i, j);
            proof {
                assert(m.at_spec(i as int, j as int) == m.data@[reg.idx(i as int, j as int)]);
            }
            if v < -bound || v > bound {
                return false;
            }
            j = j + 1;
        }
        i = i + 1;
    }
    true
}

/// Whether every element of the output matrix has room for `p` products of
/// admissible elements.
#[verifier::loop_isolation(false)]
pub fn acc_within(m: &Matrix, p: usize) -> (r: bool)
    requires
        m.wf(),
    ensures
        r == acc_ok(m.data@, m.region_spec(), p as int),
{
    proof {
        m.lemma_region_wf();
        assert(bound_sq() == 1_000_000_000_000) by (nonlinear_arith)
            requires
                bound_sq() == (MAX_ENTRY as int) * (MAX_ENTRY as int),
                MAX_ENTRY == 1_000_000i64,
        ;
    }
    if m.rows == 0 || m.cols == 0 {
        return true;
    }
    if p > 9_223_372 {
        // The accumulation margin alone exceeds the 64-bit range: no value
        // can be far enough from both limits.
        proof {
            assert(p as int * bound_sq() >= 9_223_373_000_000_000_000) by (nonlinear_arith)
                requires
                    p as int >= 9_223_373,
                    bound_sq() == 1_000_000_000_000,
            ;
            if acc_ok(m.data@, m.region_spec(), p as int) {
                let reg = m.region_spec();
                assert(i64::MIN + p as int * bound_sq() <= m.data@[reg.idx(0, 0)] <= i64::MAX - p
                    as int * bound_sq());
                assert(false);
            }
        }
        return false;
    }
    let margin: i64 = (p as i64) * 1_000_000_000_000i64;
    proof {
        assert(p as int * 1_000_000_000_000 <= 9_223_372_000_000_000_000) by (nonlinear_arith)
            requires
                0 <= p as int <= 9_223_372,
        ;
        assert(margin as int == p as int * bound_sq());
    }
    let lo = i64::MIN + margin;
    let hi = i64::MAX - margin;
    let ghost reg = m.region_spec();
    let mut i: usize = 0;
    while i < m.rows
        invariant
            i <= m.rows,
            lo as int == i64::MIN + p as int * bound_sq(),
            hi as int == i64::MAX - p as int * bound_sq(),
            forall|x: int, y: int|
                0 <= x < i && 0 <= y < m.cols ==> lo as int <= m.data@[#[trigger] reg.idx(x, y)]
                    <= hi as int,
        decreases m.rows - i,
    {
        let mut j: usize = 0;
        while j < m.cols
            invariant
                i < m.rows,
                j <= m.cols,
                lo as int == i64::MIN + p as int * bound_sq(),
                hi as int == i64::MAX - p as int * bound_sq(),
                forall|x: int, y: int|
                    0 <= x < i && 0 <= y < m.cols ==> lo as int <= m.data@[#[trigger] reg.idx(
                        x,
                        y,
                    )] <= hi as int,
                forall|y: int|
                    0 <= y < j ==> lo as int <= m.data@[#[trigger] reg.idx(i as int, y)]
                        <= hi as int,
            decreases m.cols - j,
        {
            let v = m.get(i, j);
            proof {
                assert(m.at_spec(i as int, j as int) == m.data@[reg.idx(i as int, j as int)]);
            }
            if v < lo || v > hi {
                return false;
            }
            j = j + 1;
        }
        i = i + 1;
    }
    true
}

/// The one operation the engine exposes: accumulate the product of A and B
/// into C in place, `C += A * B`.  C is not zeroed first: callers pre-zero
/// or pre-seed it as the surrounding computation requires.
pub fn multiply_accumulate(a: &Matrix, b: &Matrix, c: &mut Matrix)
    requires
        a.wf(),
        b.wf(),
        old(c).wf(),
        shapes_compatible(*a, *b, *old(c)),
        values_admissible(*a, *b, *old(c)),
    ensures
        final(c).wf(),
        final(c).rows == old(c).rows,
        final(c).cols == old(c).cols,
        mul_post(
            a.data@,
            a.region_spec(),
            b.data@,
            b.region_spec(),
            old(c).data@,
            final(c).data@,
            old(c).region_spec(),
        ),
{
    proof {
        a.lemma_region_wf();
        b.lemma_region_wf();
        c.lemma_region_wf();
    }
    let ra = a.region();
    let rb = b.region();
    let rcw = c.region();
    gemm_optimized(a, ra, b, rb, c, rcw, RECURSION_THRESHOLD);
}

/// Why a multiply request was rejected.
#[derive(Clone, Copy, Debug, PartialEq, Eq, Structural)]
pub enum GemmError {
    /// The three shapes do not describe one multiply problem.
    ShapeMismatch,
    /// Some element is too large in magnitude for overflow-free
    /// accumulation.
    EntryOutOfRange,
}

/// The checked entry point: rejects a mismatched or inadmissible problem
/// before touching any element, and otherwise accumulates `A * B` into C.
pub fn try_multiply_accumulate(a: &Matrix, b: &Matrix, c: &mut Matrix) -> (r: Result<
    (),
    GemmError,
>)
    requires
        a.wf(),
        b.wf(),
        old(c).wf(),
    ensures
        (r is Ok) <==> (shapes_compatible(*a, *b, *old(c)) && values_admissible(
            *a,
            *b,
            *old(c),
        )),
        (r == Err::<(), GemmError>(GemmError::ShapeMismatch)) <==> !shapes_compatible(
            *a,
            *b,
            *old(c),
        ),
        (r == Err::<(), GemmError>(GemmError::EntryOutOfRange)) <==> (shapes_compatible(
            *a,
            *b,
            *old(c),
        ) && !values_admissible(*a, *b, *old(c))),
        r is Err ==> *final(c) == *old(c),
        r is Ok ==> final(c).wf() && final(c).rows == old(c).rows && final(c).cols == old(c).cols
            && mul_post(
            a.data@,
            a.region_spec(),
            b.data@,
            b.region_spec(),
            old(c).data@,
            final(c).data@,
            old(c).region_spec(),
        ),
{
    if !(a.cols == b.rows && a.rows == c.rows && b.cols == c.cols) {
        return Err(GemmError::ShapeMismatch);
    }
    let ok_a = entries_within(a, MAX_ENTRY);
    let ok_b = entries_within(b, MAX_ENTRY);
    let ok_c = acc_within(c, a.cols);
    if !ok_a || !ok_b || !ok_c {
        return Err(GemmError::EntryOutOfRange);
    }
    multiply_accumulate(a, b, c);
    Ok(())
}

} // verus!
