//! The base multiply kernel and the mathematical model of `C += A * B`.
//!
//! `dot` is the reference definition of one inner product; `mul_post` says
//! what any multiply routine of this crate does to the output region: every
//! element of C gains the corresponding inner product, and nothing outside
//! the region is touched.

use crate::engine::lemma_sub_call_effect;
use crate::matrix::{copy_region, write_region, Matrix};
use crate::region::{
    is_sub, lemma_idx_in_region, lemma_idx_injective, lemma_sub_idx, Region,
};
use vstd::prelude::*;

verus! {

/// Nominal tile height used by the base kernel.
pub const TILE_ROWS: usize = 8;

/// Nominal tile width used by the base kernel.
pub const TILE_COLS: usize = 32;

/// Nominal tile depth (extent along the shared dimension) used by the base
/// kernel.
pub const TILE_DEPTH: usize = 8;

/// Largest magnitude allowed for an element of A or B.  Together with
/// `acc_ok` this rules out overflow of the 64-bit accumulation.
pub const MAX_ENTRY: i64 = 1_000_000;

/// Largest magnitude of one product of two admissible elements.
pub open spec fn bound_sq() -> int {
    (MAX_ENTRY as int) * (MAX_ENTRY as int)
}

/// Every element of the region holds a value of magnitude at most `bound`.
pub open spec fn entries_bounded(buf: Seq<i64>, r: Region, bound: int) -> bool {
    forall|i: int, j: int|
        0 <= i < r.rows && 0 <= j < r.cols ==> -bound <= buf[#[trigger] r.idx(i, j)] <= bound
}

/// Every element of the output region is far enough from the 64-bit limits
/// to absorb `p` products of admissible elements.
pub open spec fn acc_ok(c: Seq<i64>, rc: Region, p: int) -> bool {
    forall|i: int, j: int|
        0 <= i < rc.rows && 0 <= j < rc.cols ==> i64::MIN + p * bound_sq() <= c[
            #[trigger] rc.idx(i, j)
        ] <= i64::MAX - p * bound_sq()
}

/// Every element of the given rectangle of the output region is far
/// enough from the 64-bit limits to absorb `p` products of admissible
/// elements.
pub open spec fn acc_ok_rect(
    c: Seq<i64>,
    rc: Region,
    i0: int,
    i1: int,
    j0: int,
    j1: int,
    p: int,
) -> bool {
    forall|i: int, j: int|
        0 <= i < rc.rows && 0 <= j < rc.cols && i0 <= i < i1 && j0 <= j < j1 ==> i64::MIN + p
            * bound_sq() <= c[#[trigger] rc.idx(i, j)] <= i64::MAX - p * bound_sq()
}

/// The inner product of row `i` of the A-region and column `j` of the
/// B-region, over depth indices `k0 <= k < k1`.  This triple-loop sum is the
/// reference meaning of matrix multiplication for the whole crate.
pub open spec fn dot(
    a: Seq<i64>,
    ra: Region,
    b: Seq<i64>,
    rb: Region,
    i: int,
    j: int,
    k0: int,
    k1: int,
) -> int
    decreases k1 - k0,
{
    if k1 <= k0 {
        0
    } else {
        dot(a, ra, b, rb, i, j, k0, k1 - 1) + a[ra.idx(i, k1 - 1)] * b[rb.idx(k1 - 1, j)]
    }
}

/// Shared precondition of every multiply routine: well-formed views,
/// compatible shapes, and element bounds that exclude overflow.
pub open spec fn mul_pre(
    a: Seq<i64>,
    ra: Region,
    b: Seq<i64>,
    rb: Region,
    c: Seq<i64>,
    rc: Region,
) -> bool {
    &&& ra.wf(a.len() as int)
    &&& rb.wf(b.len() as int)
    &&& rc.wf(c.len() as int)
    &&& ra.rows == rc.rows
    &&& rb.cols == rc.cols
    &&& ra.cols == rb.rows
    &&& entries_bounded(a, ra, MAX_ENTRY as int)
    &&& entries_bounded(b, rb, MAX_ENTRY as int)
    &&& acc_ok(c, rc, ra.cols as int)
}

/// Shared postcondition of every multiply routine: each element of the
/// output region gains the full inner product, and every buffer position
/// outside the region keeps its old value.
pub open spec fn mul_post(
    a: Seq<i64>,
    ra: Region,
    b: Seq<i64>,
    rb: Region,
    c0: Seq<i64>,
    c1: Seq<i64>,
    rc: Region,
) -> bool {
    &&& c1.len() == c0.len()
    &&& forall|pos: int|
        0 <= pos < c0.len() && !(#[trigger] rc.in_region(pos)) ==> c1[pos] == c0[pos]
    &&& forall|i: int, j: int|
        0 <= i < rc.rows && 0 <= j < rc.cols ==> c1[#[trigger] rc.idx(i, j)] as int == c0[rc.idx(
            i,
            j,
        )] + dot(a, ra, b, rb, i, j, 0, ra.cols as int)
}

/// Inner products over adjacent depth ranges add up.
pub proof fn lemma_dot_concat(
    a: Seq<i64>,
    ra: Region,
    b: Seq<i64>,
    rb: Region,
    i: int,
    j: int,
    k0: int,
    k1: int,
    k2: int,
)
    requires
        k0 <= k1 <= k2,
    ensures
        dot(a, ra, b, rb, i, j, k0, k2) == dot(a, ra, b, rb, i, j, k0, k1) + dot(
            a,
            ra,
            b,
            rb,
            i,
            j,
            k1,
            k2,
        ),
    decreases k2 - k1,
{
    if k2 > k1 {
        lemma_dot_concat(a, ra, b, rb, i, j, k0, k1, k2 - 1);
    }
}

/// An inner product over `k1 - k0` admissible elements has magnitude at most
/// `(k1 - k0)` times the largest product.
pub proof fn lemma_dot_bound(
    a: Seq<i64>,
    ra: Region,
    b: Seq<i64>,
    rb: Region,
    i: int,
    j: int,
    k0: int,
    k1: int,
)
    requires
        entries_bounded(a, ra, MAX_ENTRY as int),
        entries_bounded(b, rb, MAX_ENTRY as int),
        0 <= i < ra.rows,
        0 <= j < rb.cols,
        0 <= k0 <= k1,
        k1 <= ra.cols,
        k1 <= rb.rows,
    ensures
        -(k1 - k0) * bound_sq() <= dot(a, ra, b, rb, i, j, k0, k1) <= (k1 - k0) * bound_sq(),
    decreases k1 - k0,
{
    if k1 > k0 {
        lemma_dot_bound(a, ra, b, rb, i, j, k0, k1 - 1);
        let av = a[ra.idx(i, k1 - 1)] as int;
        let bv = b[rb.idx(k1 - 1, j)] as int;
        assert(-(MAX_ENTRY as int) <= av <= MAX_ENTRY as int);
        assert(-(MAX_ENTRY as int) <= bv <= MAX_ENTRY as int);
        assert(-bound_sq() <= av * bv <= bound_sq()) by (nonlinear_arith)
            requires
                -(MAX_ENTRY as int) <= av <= MAX_ENTRY as int,
                -(MAX_ENTRY as int) <= bv <= MAX_ENTRY as int,
                bound_sq() == (MAX_ENTRY as int) * (MAX_ENTRY as int),
        ;
        assert(dot(a, ra, b, rb, i, j, k0, k1) == dot(a, ra, b, rb, i, j, k0, k1 - 1) + av * bv);
        assert((k1 - k0) * bound_sq() == (k1 - 1 - k0) * bound_sq() + bound_sq())
            by (nonlinear_arith);
        assert(-((k1 - k0) * bound_sq()) == -((k1 - 1 - k0) * bound_sq()) - bound_sq())
            by (nonlinear_arith);
        assert(dot(a, ra, b, rb, i, j, k0, k1) <= (k1 - 1 - k0) * bound_sq() + bound_sq());
        assert(-((k1 - 1 - k0) * bound_sq()) - bound_sq() <= dot(a, ra, b, rb, i, j, k0, k1));
    }
}

/// An inner product over sub-regions equals the inner product over the
/// parent regions at the shifted coordinates and depth range.
pub proof fn lemma_dot_shift(
    a: Seq<i64>,
    sub_a: Region,
    ra: Region,
    b: Seq<i64>,
    sub_b: Region,
    rb: Region,
    r0: int,
    r1: int,
    k0: int,
    k1: int,
    c0: int,
    c1: int,
    i: int,
    j: int,
    kk: int,
)
    requires
        is_sub(sub_a, ra, r0, r1, k0, k1),
        is_sub(sub_b, rb, k0, k1, c0, c1),
        0 <= kk <= k1 - k0,
    ensures
        dot(a, sub_a, b, sub_b, i, j, 0, kk) == dot(a, ra, b, rb, r0 + i, c0 + j, k0, k0 + kk),
    decreases kk,
{
    if kk > 0 {
        lemma_dot_shift(a, sub_a, ra, b, sub_b, rb, r0, r1, k0, k1, c0, c1, i, j, kk - 1);
        lemma_sub_idx(sub_a, ra, r0, r1, k0, k1, i, kk - 1);
        lemma_sub_idx(sub_b, rb, k0, k1, c0, c1, kk - 1, j);
    }
}


/// Two inner products over element-wise equal rows and columns are equal,
/// even when the elements live in different buffers (as they do when a tile
/// is staged into contiguous scratch).
pub proof fn lemma_dot_congruent(
    a1: Seq<i64>,
    r1: Region,
    b1: Seq<i64>,
    s1: Region,
    a2: Seq<i64>,
    r2: Region,
    b2: Seq<i64>,
    s2: Region,
    i: int,
    j: int,
    kk: int,
)
    requires
        0 <= kk,
        forall|t: int| 0 <= t < kk ==> a1[#[trigger] r1.idx(i, t)] == a2[r2.idx(i, t)],
        forall|t: int| 0 <= t < kk ==> b1[#[trigger] s1.idx(t, j)] == b2[s2.idx(t, j)],
    ensures
        dot(a1, r1, b1, s1, i, j, 0, kk) == dot(a2, r2, b2, s2, i, j, 0, kk),
    decreases kk,
{
    if kk > 0 {
        lemma_dot_congruent(a1, r1, b1, s1, a2, r2, b2, s2, i, j, kk - 1);
        assert(a1[r1.idx(i, kk - 1)] == a2[r2.idx(i, kk - 1)]);
        assert(b1[s1.idx(kk - 1, j)] == b2[s2.idx(kk - 1, j)]);
    }
}

/// Multiply-accumulate over one block: for rows [i0, i1) and columns
/// [j0, j1) of the output region, add the inner products over depth range
/// [k0, k1).  Elements outside that block keep their values.  This direct
/// triple loop is the building block of the base kernel and handles clipped
/// boundary tiles as well as full ones.
#[verifier::loop_isolation(false)]
pub fn mac_block(
    a: &Matrix,
    ra: Region,
    b: &Matrix,
    rb: Region,
    c: &mut Matrix,
    rc: Region,
    i0: usize,
    i1: usize,
    j0: usize,
    j1: usize,
    k0: usize,
    k1: usize,
)
    requires
        ra.wf(a.data@.len() as int),
        rb.wf(b.data@.len() as int),
        rc.wf(old(c).data@.len() as int),
        ra.rows == rc.rows,
        rb.cols == rc.cols,
        ra.cols == rb.rows,
        entries_bounded(a.data@, ra, MAX_ENTRY as int),
        entries_bounded(b.data@, rb, MAX_ENTRY as int),
        acc_ok_rect(
            old(c).data@,
            rc,
            i0 as int,
            i1 as int,
            j0 as int,
            j1 as int,
            k1 as int - k0 as int,
        ),
        i0 <= i1 <= rc.rows,
        j0 <= j1 <= rc.cols,
        k0 <= k1 <= ra.cols,
    ensures
        final(c).data@.len() == old(c).data@.len(),
        final(c).rows == old(c).rows,
        final(c).cols == old(c).cols,
        forall|pos: int|
            0 <= pos < old(c).data@.len() && !(#[trigger] rc.in_region(pos)) ==> final(c).data@[pos] == old(c).data@[pos],
        forall|i: int, j: int|
            0 <= i < rc.rows && 0 <= j < rc.cols && i0 <= i < i1 && j0 <= j < j1 ==> final(c).data@[#[trigger] rc.idx(i, j)] as int == old(c).data@[rc.idx(i, j)] + dot(
                a.data@,
                ra,
                b.data@,
                rb,
                i,
                j,
                k0 as int,
                k1 as int,
            ),
        forall|i: int, j: int|
            0 <= i < rc.rows && 0 <= j < rc.cols && !(i0 <= i < i1 && j0 <= j < j1) ==> final(c).data@[#[trigger] rc.idx(i, j)] == old(c).data@[rc.idx(i, j)],
{
    let ghost c_in = old(c).data@;
    let ghost len = old(c).data@.len() as int;
    let mut i = i0;
    while i < i1
        invariant
            i0 <= i <= i1,
            c.data@.len() == c_in.len(),
            c.rows == old(c).rows,
            c.cols == old(c).cols,
            forall|pos: int|
                0 <= pos < len && !(#[trigger] rc.in_region(pos)) ==> c.data@[pos] == c_in[pos],
            forall|x: int, y: int|
                0 <= x < rc.rows && 0 <= y < rc.cols && i0 <= x < i && j0 <= y < j1 ==> c.data@[
                    #[trigger] rc.idx(x, y)
                ] as int == c_in[rc.idx(x, y)] + dot(
                    a.data@,
                    ra,
                    b.data@,
                    rb,
                    x,
                    y,
                    k0 as int,
                    k1 as int,
                ),
            forall|x: int, y: int|
                0 <= x < rc.rows && 0 <= y < rc.cols && !(i0 <= x < i && j0 <= y < j1) ==> c.data@[
                    #[trigger] rc.idx(x, y)
                ] == c_in[rc.idx(x, y)],
        decreases i1 - i,
    {
        let mut j = j0;
        while j < j1
            invariant
                i0 <= i < i1,
                j0 <= j <= j1,
                c.data@.len() == c_in.len(),
                c.rows == old(c).rows,
                c.cols == old(c).cols,
                forall|pos: int|
                    0 <= pos < len && !(#[trigger] rc.in_region(pos)) ==> c.data@[pos]
                        == c_in[pos],
                forall|x: int, y: int|
                    0 <= x < rc.rows && 0 <= y < rc.cols && (i0 <= x < i && j0 <= y < j1) ==> c
                        .data@[#[trigger] rc.idx(x, y)] as int == c_in[rc.idx(x, y)] + dot(
                        a.data@,
                        ra,
                        b.data@,
                        rb,
                        x,
                        y,
                        k0 as int,
                        k1 as int,
                    ),
                forall|x: int, y: int|
                    0 <= x < rc.rows && 0 <= y < rc.cols && x == i && j0 <= y < j ==> c.data@[
                        #[trigger] rc.idx(x, y)
                    ] as int == c_in[rc.idx(x, y)] + dot(
                        a.data@,
                        ra,
                        b.data@,
                        rb,
                        x,
                        y,
                        k0 as int,
                        k1 as int,
                    ),
                forall|x: int, y: int|
                    0 <= x < rc.rows && 0 <= y < rc.cols && !(i0 <= x < i && j0 <= y < j1) && !(x
                        == i && j0 <= y < j) ==> c.data@[#[trigger] rc.idx(x, y)] == c_in[rc.idx(
                        x,
                        y,
                    )],
            decreases j1 - j,
        {
            let pos = rc.index_of(i, j, c.data.len());
            proof {
                lemma_idx_in_region(rc, len, i as int, j as int);
            }
            let mut acc = c.data[pos];
            let ghost before = c.data@;
            let mut k = k0;
            while k < k1
                invariant
                    k0 <= k <= k1,
                    c.data@ == before,
                    acc as int == c_in[pos as int] + dot(
                        a.data@,
                        ra,
                        b.data@,
                        rb,
                        i as int,
                        j as int,
                        k0 as int,
                        k as int,
                    ),
                decreases k1 - k,
            {
                let apos = ra.index_of(i, k, a.data.len());
                let bpos = rb.index_of(k, j, b.data.len());
                let av = a.data[apos];
                let bv = b.data[bpos];
                proof {
                    lemma_dot_bound(
                        a.data@,
                        ra,
                        b.data@,
                        rb,
                        i as int,
                        j as int,
                        k0 as int,
                        k as int + 1,
                    );
                    lemma_dot_bound(
                        a.data@,
                        ra,
                        b.data@,
                        rb,
                        i as int,
                        j as int,
                        k0 as int,
                        k as int,
                    );
                    assert(-bound_sq() <= av as int * bv as int <= bound_sq()) by (nonlinear_arith)
                        requires
                            -(MAX_ENTRY as int) <= av as int <= MAX_ENTRY as int,
                            -(MAX_ENTRY as int) <= bv as int <= MAX_ENTRY as int,
                            bound_sq() == (MAX_ENTRY as int) * (MAX_ENTRY as int),
                    ;
                    assert((k as int + 1 - k0) * bound_sq() <= (k1 as int - k0 as int)
                        * bound_sq()) by (nonlinear_arith)
                        requires
                            k as int + 1 - k0 <= k1 as int - k0 as int,
                            bound_sq() > 0,
                    ;
                    assert(-((k1 as int - k0 as int) * bound_sq()) <= -((k as int + 1 - k0)
                        * bound_sq()));
                    assert(i64::MIN + (k1 as int - k0 as int) * bound_sq() <= c_in[rc.idx(
                        i as int,
                        j as int,
                    )] <= i64::MAX - (k1 as int - k0 as int) * bound_sq());
                }
                let prod = av * bv;
                acc = acc + prod;
                k = k + 1;
            }
            c.data.set(pos, acc);
            proof {
                assert forall|x: int, y: int|
                    0 <= x < rc.rows && 0 <= y < rc.cols && !(x == i as int && y
                        == j as int) implies c.data@[rc.idx(x, y)] == before[rc.idx(x, y)] by {
                    lemma_idx_in_region(rc, len, x, y);
                    if rc.idx(x, y) == pos as int {
                        lemma_idx_injective(rc, len, x, y, i as int, j as int);
                        assert(false);
                    }
                }
                assert(c.data@[rc.idx(i as int, j as int)] as int == c_in[rc.idx(
                    i as int,
                    j as int,
                )] + dot(a.data@, ra, b.data@, rb, i as int, j as int, k0 as int, k1 as int));
            }
            j = j + 1;
        }
        i = i + 1;
    }
}


/// Multiply-accumulate over one full-size tile through contiguous scratch
/// buffers: the A-tile, B-tile and C-tile are staged into fresh stride-1
/// matrices, the multiply runs entirely within them, and the C scratch
/// accumulator is written back.  The contract is that of `mac_block`.
pub fn mac_tile_scratch(
    a: &Matrix,
    ra: Region,
    b: &Matrix,
    rb: Region,
    c: &mut Matrix,
    rc: Region,
    i0: usize,
    i1: usize,
    j0: usize,
    j1: usize,
    k0: usize,
    k1: usize,
)
    requires
        ra.wf(a.data@.len() as int),
        rb.wf(b.data@.len() as int),
        rc.wf(old(c).data@.len() as int),
        ra.rows == rc.rows,
        rb.cols == rc.cols,
        ra.cols == rb.rows,
        entries_bounded(a.data@, ra, MAX_ENTRY as int),
        entries_bounded(b.data@, rb, MAX_ENTRY as int),
        acc_ok_rect(
            old(c).data@,
            rc,
            i0 as int,
            i1 as int,
            j0 as int,
            j1 as int,
            k1 as int - k0 as int,
        ),
        i0 < i1 <= rc.rows,
        j0 < j1 <= rc.cols,
        k0 < k1 <= ra.cols,
    ensures
        final(c).data@.len() == old(c).data@.len(),
        final(c).rows == old(c).rows,
        final(c).cols == old(c).cols,
        forall|pos: int|
            0 <= pos < old(c).data@.len() && !(#[trigger] rc.in_region(pos)) ==> final(c).data@[pos] == old(c).data@[pos],
        forall|i: int, j: int|
            0 <= i < rc.rows && 0 <= j < rc.cols && i0 <= i < i1 && j0 <= j < j1 ==> final(c).data@[#[trigger] rc.idx(i, j)] as int == old(c).data@[rc.idx(i, j)] + dot(
                a.data@,
                ra,
                b.data@,
                rb,
                i,
                j,
                k0 as int,
                k1 as int,
            ),
        forall|i: int, j: int|
            0 <= i < rc.rows && 0 <= j < rc.cols && !(i0 <= i < i1 && j0 <= j < j1) ==> final(c).data@[#[trigger] rc.idx(i, j)] == old(c).data@[rc.idx(i, j)],
{
    let ghost c_in = old(c).data@;
    let alen = a.data.len();
    let blen = b.data.len();
    let clen = c.data.len();
    let sa = ra.sub(i0, i1, k0, k1, alen);
    let sb = rb.sub(k0, k1, j0, j1, blen);
    let scq = rc.sub(i0, i1, j0, j1, clen);
    let at = copy_region(&a.data, sa);
    let bt = copy_region(&b.data, sb);
    let mut ct = copy_region(&c.data, scq);
    let at_reg = at.region();
    let bt_reg = bt.region();
    let ct_reg = ct.region();
    proof {
        at.lemma_region_wf();
        bt.lemma_region_wf();
        ct.lemma_region_wf();
        assert forall|u: int, v: int|
            0 <= u < at_reg.rows && 0 <= v < at_reg.cols implies -(MAX_ENTRY as int) <= at.data@[
            #[trigger] at_reg.idx(u, v)
        ] <= MAX_ENTRY as int by {
            assert(at.at_spec(u, v) == at.data@[at_reg.idx(u, v)]);
            assert(at.at_spec(u, v) == a.data@[sa.idx(u, v)]);
            lemma_sub_idx(sa, ra, i0 as int, i1 as int, k0 as int, k1 as int, u, v);
            assert(-(MAX_ENTRY as int) <= a.data@[ra.idx(i0 + u, k0 + v)] <= MAX_ENTRY as int);
        }
        assert forall|u: int, v: int|
            0 <= u < bt_reg.rows && 0 <= v < bt_reg.cols implies -(MAX_ENTRY as int) <= bt.data@[
            #[trigger] bt_reg.idx(u, v)
        ] <= MAX_ENTRY as int by {
            assert(bt.at_spec(u, v) == bt.data@[bt_reg.idx(u, v)]);
            assert(bt.at_spec(u, v) == b.data@[sb.idx(u, v)]);
            lemma_sub_idx(sb, rb, k0 as int, k1 as int, j0 as int, j1 as int, u, v);
            assert(-(MAX_ENTRY as int) <= b.data@[rb.idx(k0 + u, j0 + v)] <= MAX_ENTRY as int);
        }
        let td = k1 as int - k0 as int;
        assert forall|u: int, v: int|
            0 <= u < ct_reg.rows && 0 <= v < ct_reg.cols implies i64::MIN + td * bound_sq() <= ct.data@[#[trigger] ct_reg.idx(
            u,
            v,
        )] <= i64::MAX - td * bound_sq() by {
            assert(ct.at_spec(u, v) == ct.data@[ct_reg.idx(u, v)]);
            assert(ct.at_spec(u, v) == c.data@[scq.idx(u, v)]);
            lemma_sub_idx(scq, rc, i0 as int, i1 as int, j0 as int, j1 as int, u, v);
            assert(i64::MIN + td * bound_sq() <= c_in[rc.idx(i0 + u, j0 + v)] <= i64::MAX - td
                * bound_sq());
        }
        assert(acc_ok_rect(
            ct.data@,
            ct_reg,
            0,
            ct_reg.rows as int,
            0,
            ct_reg.cols as int,
            k1 as int - k0 as int,
        ));
    }
    let ghost ct_in = ct.data@;
    let trows = ct.rows;
    let tcols = ct.cols;
    let tdepth = at.cols;
    mac_block(&at, at_reg, &bt, bt_reg, &mut ct, ct_reg, 0, trows, 0, tcols, 0, tdepth);
    write_region(c, scq, &ct);
    proof {
        let td = k1 as int - k0 as int;
        assert forall|u: int, v: int|
            0 <= u < scq.rows && 0 <= v < scq.cols implies c.data@[#[trigger] scq.idx(u, v)] as int
            == c_in[scq.idx(u, v)] + dot(a.data@, sa, b.data@, sb, u, v, 0, sa.cols as int) by {
            assert(ct.at_spec(u, v) == ct.data@[ct_reg.idx(u, v)]);
            assert(ct.data@[ct_reg.idx(u, v)] as int == ct_in[ct_reg.idx(u, v)] + dot(
                at.data@,
                at_reg,
                bt.data@,
                bt_reg,
                u,
                v,
                0,
                td,
            ));
            assert forall|t: int| 0 <= t < td implies a.data@[#[trigger] sa.idx(u, t)] == at.data@[
                at_reg.idx(u, t)
            ] by {
                assert(at.at_spec(u, t) == at.data@[at_reg.idx(u, t)]);
                assert(at.at_spec(u, t) == a.data@[sa.idx(u, t)]);
            }
            assert forall|t: int| 0 <= t < td implies b.data@[#[trigger] sb.idx(t, v)] == bt.data@[
                bt_reg.idx(t, v)
            ] by {
                assert(bt.at_spec(t, v) == bt.data@[bt_reg.idx(t, v)]);
                assert(bt.at_spec(t, v) == b.data@[sb.idx(t, v)]);
            }
            lemma_dot_congruent(
                a.data@, sa, b.data@, sb, at.data@, at_reg, bt.data@, bt_reg, u, v, td,
            );
        }
        assert(mul_post(a.data@, sa, b.data@, sb, c_in, c.data@, scq));
        lemma_sub_call_effect(
            a.data@,
            ra,
            b.data@,
            rb,
            c_in,
            c.data@,
            rc,
            sa,
            sb,
            scq,
            i0 as int,
            i1 as int,
            j0 as int,
            j1 as int,
            k0 as int,
            k1 as int,
        );
    }
}

/// The base kernel: accumulate `A * B` into `C` for one small problem,
/// sweeping the output in `TILE_ROWS` by `TILE_COLS` blocks and the shared
/// dimension in `TILE_DEPTH` slices, so that each inner multiply works on a
/// cache-sized piece.  Full-size tiles are staged through contiguous
/// scratch buffers; clipped boundary tiles fall back to the direct triple
/// loop.
#[verifier::loop_isolation(false)]
pub fn gemm_base(a: &Matrix, ra: Region, b: &Matrix, rb: Region, c: &mut Matrix, rc: Region)
    requires
        mul_pre(a.data@, ra, b.data@, rb, old(c).data@, rc),
    ensures
        final(c).rows == old(c).rows,
        final(c).cols == old(c).cols,
        mul_post(a.data@, ra, b.data@, rb, old(c).data@, final(c).data@, rc),
{
    let ghost c_in = old(c).data@;
    let ghost len = old(c).data@.len() as int;
    let m = rc.rows;
    let n = rc.cols;
    let p = ra.cols;
    let mut i0: usize = 0;
    while i0 < m
        invariant
            i0 <= m,
            c.data@.len() == c_in.len(),
            c.rows == old(c).rows,
            c.cols == old(c).cols,
            forall|pos: int|
                0 <= pos < len && !(#[trigger] rc.in_region(pos)) ==> c.data@[pos] == c_in[pos],
            forall|x: int, y: int|
                0 <= x < rc.rows && 0 <= y < rc.cols && x < i0 ==> c.data@[#[trigger] rc.idx(
                    x,
                    y,
                )] as int == c_in[rc.idx(x, y)] + dot(a.data@, ra, b.data@, rb, x, y, 0, p as int),
            forall|x: int, y: int|
                0 <= x < rc.rows && 0 <= y < rc.cols && x >= i0 ==> c.data@[#[trigger] rc.idx(
                    x,
                    y,
                )] == c_in[rc.idx(x, y)],
        decreases m - i0,
    {
        let i1 = if m - i0 > TILE_ROWS {
            i0 + TILE_ROWS
        } else {
            m
        };
        let mut j0: usize = 0;
        while j0 < n
            invariant
                i0 < i1 <= m,
                j0 <= n,
                c.data@.len() == c_in.len(),
                c.rows == old(c).rows,
                c.cols == old(c).cols,
                forall|pos: int|
                    0 <= pos < len && !(#[trigger] rc.in_region(pos)) ==> c.data@[pos] == c_in[pos],
                forall|x: int, y: int|
                    0 <= x < rc.rows && 0 <= y < rc.cols && x < i0 ==> c.data@[#[trigger] rc.idx(
                        x,
                        y,
                    )] as int == c_in[rc.idx(x, y)] + dot(
                        a.data@,
                        ra,
                        b.data@,
                        rb,
                        x,
                        y,
                        0,
                        p as int,
                    ),
                forall|x: int, y: int|
                    0 <= x < rc.rows && 0 <= y < rc.cols && i0 <= x < i1 && y < j0 ==> c.data@[
                        #[trigger] rc.idx(x, y)
                    ] as int == c_in[rc.idx(x, y)] + dot(
                        a.data@,
                        ra,
                        b.data@,
                        rb,
                        x,
                        y,
                        0,
                        p as int,
                    ),
                forall|x: int, y: int|
                    0 <= x < rc.rows && 0 <= y < rc.cols && i0 <= x < i1 && y >= j0 ==> c.data@[
                        #[trigger] rc.idx(x, y)
                    ] == c_in[rc.idx(x, y)],
                forall|x: int, y: int|
                    0 <= x < rc.rows && 0 <= y < rc.cols && x >= i1 ==> c.data@[#[trigger] rc.idx(
                        x,
                        y,
                    )] == c_in[rc.idx(x, y)],
            decreases n - j0,
        {
            let j1 = if n - j0 > TILE_COLS {
                j0 + TILE_COLS
            } else {
                n
            };
            let mut k0: usize = 0;
            while k0 < p
                invariant
                    i0 < i1 <= m,
                    j0 < j1 <= n,
                    k0 <= p,
                    c.data@.len() == c_in.len(),
                    c.rows == old(c).rows,
                    c.cols == old(c).cols,
                    forall|pos: int|
                        0 <= pos < len && !(#[trigger] rc.in_region(pos)) ==> c.data@[pos]
                            == c_in[pos],
                    forall|x: int, y: int|
                        0 <= x < rc.rows && 0 <= y < rc.cols && x < i0 ==> c.data@[
                            #[trigger] rc.idx(x, y)
                        ] as int == c_in[rc.idx(x, y)] + dot(
                            a.data@,
                            ra,
                            b.data@,
                            rb,
                            x,
                            y,
                            0,
                            p as int,
                        ),
                    forall|x: int, y: int|
                        0 <= x < rc.rows && 0 <= y < rc.cols && i0 <= x < i1 && y < j0 ==> c.data@[
                            #[trigger] rc.idx(x, y)
                        ] as int == c_in[rc.idx(x, y)] + dot(
                            a.data@,
                            ra,
                            b.data@,
                            rb,
                            x,
                            y,
                            0,
                            p as int,
                        ),
                    forall|x: int, y: int|
                        0 <= x < rc.rows && 0 <= y < rc.cols && i0 <= x < i1 && j0 <= y < j1
                            ==> c.data@[#[trigger] rc.idx(x, y)] as int == c_in[rc.idx(x, y)] + dot(
                            a.data@,
                            ra,
                            b.data@,
                            rb,
                            x,
                            y,
                            0,
                            k0 as int,
                        ),
                    forall|x: int, y: int|
                        0 <= x < rc.rows && 0 <= y < rc.cols && i0 <= x < i1 && y >= j1
                            ==> c.data@[#[trigger] rc.idx(x, y)] == c_in[rc.idx(x, y)],
                    forall|x: int, y: int|
                        0 <= x < rc.rows && 0 <= y < rc.cols && x >= i1 ==> c.data@[
                            #[trigger] rc.idx(x, y)
                        ] == c_in[rc.idx(x, y)],
                decreases p - k0,
            {
                let k1 = if p - k0 > TILE_DEPTH {
                    k0 + TILE_DEPTH
                } else {
                    p
                };
                let ghost c_pre = c.data@;
                proof {
                    assert forall|x: int, y: int|
                        0 <= x < rc.rows && 0 <= y < rc.cols && i0 <= x < i1 && j0 <= y
                            < j1 implies i64::MIN + (k1 as int - k0 as int) * bound_sq() <= c_pre[
                        #[trigger] rc.idx(x, y)
                    ] <= i64::MAX - (k1 as int - k0 as int) * bound_sq() by {
                        lemma_dot_bound(a.data@, ra, b.data@, rb, x, y, 0, k0 as int);
                        assert(i64::MIN + (ra.cols as int) * bound_sq() <= c_in[rc.idx(x, y)]
                            <= i64::MAX - (ra.cols as int) * bound_sq());
                        assert(c_pre[rc.idx(x, y)] as int == c_in[rc.idx(x, y)] + dot(
                            a.data@,
                            ra,
                            b.data@,
                            rb,
                            x,
                            y,
                            0,
                            k0 as int,
                        ));
                        assert((k1 as int - k0 as int) * bound_sq() + k0 as int * bound_sq() <= p
                            as int * bound_sq()) by (nonlinear_arith)
                            requires
                                k1 as int <= p as int,
                                0 <= k0 as int <= k1 as int,
                                bound_sq() > 0,
                        ;
                    }
                }
                if i1 - i0 == TILE_ROWS && j1 - j0 == TILE_COLS && k1 - k0 == TILE_DEPTH {
                    // A full-size tile goes through the contiguous scratch
                    // buffers; a clipped boundary tile takes the direct
                    // triple loop.
                    mac_tile_scratch(a, ra, b, rb, c, rc, i0, i1, j0, j1, k0, k1);
                } else {
                    mac_block(a, ra, b, rb, c, rc, i0, i1, j0, j1, k0, k1);
                }
                proof {
                    assert forall|x: int, y: int|
                        0 <= x < rc.rows && 0 <= y < rc.cols && i0 <= x < i1 && j0 <= y
                            < j1 implies c.data@[#[trigger] rc.idx(x, y)] as int == c_in[rc.idx(
                        x,
                        y,
                    )] + dot(a.data@, ra, b.data@, rb, x, y, 0, k1 as int) by {
                        lemma_dot_concat(a.data@, ra, b.data@, rb, x, y, 0, k0 as int, k1 as int);
                    }
                }
                k0 = k1;
            }
            j0 = j1;
        }
        i0 = i1;
    }
}

} // verus!
