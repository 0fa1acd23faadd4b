//! Row-major addressing of a `width` x `height` grid stored in a flat sequence.
use vstd::prelude::*;

verus! {

/// The flat position of the cell in column `x` and row `y` of a grid `w` cells wide.
pub open spec fn idx(w: int, x: int, y: int) -> int {
    y * w + x
}

/// A cell lies inside a `w` x `h` grid.
pub open spec fn in_grid(w: int, h: int, x: int, y: int) -> bool {
    0 <= x < w && 0 <= y < h
}

/// Every cell inside the grid has a flat position below `w * h`.
pub proof fn lemma_idx_bounds(w: int, h: int, x: int, y: int)
    requires
        in_grid(w, h, x, y),
    ensures
        0 <= idx(w, x, y) < w * h,
        0 <= y * w <= w * h,
{
    assert(0 <= y * w) by (nonlinear_arith)
        requires
            0 <= y,
            0 < w,
    ;
    assert(y * w + w <= w * h) by (nonlinear_arith)
        requires
            0 <= y < h,
            0 < w,
    ;
}

/// Two cells inside a grid of width `w` with the same flat position are the same cell.
pub proof fn lemma_idx_injective(w: int, x1: int, y1: int, x2: int, y2: int)
    requires
        0 <= x1 < w,
        0 <= x2 < w,
        0 <= y1,
        0 <= y2,
        idx(w, x1, y1) == idx(w, x2, y2),
    ensures
        x1 == x2,
        y1 == y2,
{
    if y1 < y2 {
        assert(y1 * w + w <= y2 * w) by (nonlinear_arith)
            requires
                y1 < y2,
                0 < w,
        ;
    } else if y2 < y1 {
        assert(y2 * w + w <= y1 * w) by (nonlinear_arith)
            requires
                y2 < y1,
                0 < w,
        ;
    }
}

/// Every flat position below `w * h` is the position of a cell inside the grid.
pub proof fn lemma_idx_onto(w: int, h: int, i: int)
    requires
        0 < w,
        0 <= i < w * h,
    ensures
        in_grid(w, h, i % w, i / w),
        idx(w, i % w, i / w) == i,
{
    assert(i == (i / w) * w + i % w && 0 <= i % w < w) by (nonlinear_arith)
        requires
            0 < w,
    ;
    assert(0 <= i / w < h) by (nonlinear_arith)
        requires
            0 < w,
            0 <= i < w * h,
    ;
}

/// A vector of `n` copies of `v`.
pub fn repeated(n: usize, v: i32) -> (res: Vec<i32>)
    ensures
        res@ == Seq::new(n as nat, |i: int| v),
{
    let mut res: Vec<i32> = Vec::new();
    let mut k: usize = 0;
    while k < n
        invariant
            k <= n,
            res@ == Seq::new(k as nat, |i: int| v),
        decreases n - k,
    {
        res.push(v);
        k = k + 1;
        assert(res@ =~= Seq::new(k as nat, |i: int| v));
    }
    res
}

} // verus!
