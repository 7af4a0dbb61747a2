//! Laws of the engine, stated and proved over the contracts alone.
//!
//! Each law quantifies over buffers that satisfy the multiply
//! postcondition, so it holds of every routine of this crate that ends in
//! `mul_post` — base kernel, serial partitioner and parallel partitioner
//! alike.

use crate::kernel::{dot, mul_post};
use crate::region::{lemma_in_region_coords, Region};
use vstd::prelude::*;

verus! {

/// The multiply postcondition determines the output buffer completely: any
/// two results computed from the same inputs are equal.  In particular the
/// base-case path and the recursive paths agree wherever both apply, since
/// every one of them ends in the same postcondition.
pub proof fn lemma_multiply_deterministic(
    a: Seq<i64>,
    ra: Region,
    b: Seq<i64>,
    rb: Region,
    c0: Seq<i64>,
    x: Seq<i64>,
    y: Seq<i64>,
    rc: Region,
)
    requires
        rc.wf(c0.len() as int),
        mul_post(a, ra, b, rb, c0, x, rc),
        mul_post(a, ra, b, rb, c0, y, rc),
    ensures
        x == y,
{
    let len = c0.len() as int;
    let s = rc.stride as int;
    assert forall|pos: int| 0 <= pos < x.len() implies x[pos] == y[pos] by {
        if rc.in_region(pos) {
            lemma_in_region_coords(rc, len, pos);
            let i = (pos - rc.off) / s;
            let j = (pos - rc.off) % s;
            assert(x[rc.idx(i, j)] as int == c0[rc.idx(i, j)] + dot(
                a,
                ra,
                b,
                rb,
                i,
                j,
                0,
                ra.cols as int,
            ));
            assert(y[rc.idx(i, j)] as int == c0[rc.idx(i, j)] + dot(
                a,
                ra,
                b,
                rb,
                i,
                j,
                0,
                ra.cols as int,
            ));
        }
    }
    assert(x =~= y);
}

/// Accumulation semantics: running the multiply twice over the same factors
/// without clearing the output in between adds the product twice, so the
/// final output is the initial one plus two products.
pub proof fn lemma_accumulate_twice(
    a: Seq<i64>,
    ra: Region,
    b: Seq<i64>,
    rb: Region,
    c0: Seq<i64>,
    c1: Seq<i64>,
    c2: Seq<i64>,
    rc: Region,
)
    requires
        mul_post(a, ra, b, rb, c0, c1, rc),
        mul_post(a, ra, b, rb, c1, c2, rc),
    ensures
        c2.len() == c0.len(),
        forall|pos: int|
            0 <= pos < c0.len() && !(#[trigger] rc.in_region(pos)) ==> c2[pos] == c0[pos],
        forall|i: int, j: int|
            0 <= i < rc.rows && 0 <= j < rc.cols ==> c2[#[trigger] rc.idx(i, j)] as int == c0[
                rc.idx(i, j)
            ] + 2 * dot(a, ra, b, rb, i, j, 0, ra.cols as int),
{
}

/// Boundary sizes: a multiply whose output region is empty along either
/// axis is a no-op on the whole buffer; not one element changes.
pub proof fn lemma_empty_output_noop(
    a: Seq<i64>,
    ra: Region,
    b: Seq<i64>,
    rb: Region,
    c0: Seq<i64>,
    c1: Seq<i64>,
    rc: Region,
)
    requires
        rc.wf(c0.len() as int),
        rc.rows == 0 || rc.cols == 0,
        mul_post(a, ra, b, rb, c0, c1, rc),
    ensures
        c1 == c0,
{
    let s = rc.stride as int;
    assert forall|pos: int| 0 <= pos < c1.len() implies c1[pos] == c0[pos] by {
        if rc.in_region(pos) {
            let d = pos - rc.off;
            assert(d / s >= 0) by (nonlinear_arith)
                requires
                    d >= 0 && s >= 1,
            ;
            assert(d % s >= 0) by (nonlinear_arith)
                requires
                    d >= 0 && s >= 1,
            ;
            assert(false);
        }
    }
    assert(c1 =~= c0);
}

/// Boundary sizes: a multiply whose shared dimension is empty adds the
/// empty inner product everywhere, so the output buffer is unchanged.
pub proof fn lemma_empty_depth_noop(
    a: Seq<i64>,
    ra: Region,
    b: Seq<i64>,
    rb: Region,
    c0: Seq<i64>,
    c1: Seq<i64>,
    rc: Region,
)
    requires
        rc.wf(c0.len() as int),
        ra.cols == 0,
        mul_post(a, ra, b, rb, c0, c1, rc),
    ensures
        c1 == c0,
{
    let len = c0.len() as int;
    let s = rc.stride as int;
    assert forall|pos: int| 0 <= pos < c1.len() implies c1[pos] == c0[pos] by {
        if rc.in_region(pos) {
            lemma_in_region_coords(rc, len, pos);
            let i = (pos - rc.off) / s;
            let j = (pos - rc.off) % s;
            assert(c1[rc.idx(i, j)] as int == c0[rc.idx(i, j)] + dot(a, ra, b, rb, i, j, 0, 0));
        }
    }
    assert(c1 =~= c0);
}

} // verus!
