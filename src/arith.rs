use vstd::prelude::*;

verus! {

/// The flat index of a cell of a `w`-wide grid with `h` rows lies inside it.
pub proof fn lemma_grid_index(x: int, y: int, w: int, h: int)
    requires
        0 <= x < w,
        0 <= y < h,
    ensures
        0 <= y * w + x < h * w,
        y * w + x < w * h,
        y * w + x < y * w + w,
        (y + 1) * w == y * w + w,
{
    assert(0 <= y * w) by (nonlinear_arith)
        requires 0 <= y, 0 <= w;
    assert(y * w + w <= h * w) by (nonlinear_arith)
        requires y + 1 <= h, 0 <= w;
    assert((y + 1) * w == y * w + w) by (nonlinear_arith);
    assert(h * w == w * h) by (nonlinear_arith);
}

/// Row `y` of a `w`-wide grid with `h` rows lies inside it.
pub proof fn lemma_grid_row(y: int, w: int, h: int)
    requires
        0 <= w,
        0 <= y < h,
    ensures
        0 <= y * w,
        y * w + w <= w * h,
        (y + 1) * w == y * w + w,
{
    assert(0 <= y * w) by (nonlinear_arith)
        requires 0 <= y, 0 <= w;
    assert(y * w + w <= w * h) by (nonlinear_arith)
        requires y + 1 <= h, 0 <= w;
    assert((y + 1) * w == y * w + w) by (nonlinear_arith);
}

/// Splitting a flat index of a `w`-wide grid into column and row.
pub proof fn lemma_flat_split(i: int, w: int, h: int)
    requires
        0 <= i < w * h,
        0 < w,
    ensures
        0 <= i % w < w,
        0 <= i / w < h,
        (i / w) * w + i % w == i,
{
    assert(i == w * (i / w) + i % w) by (nonlinear_arith)
        requires 0 < w;
    assert(0 <= i / w) by (nonlinear_arith)
        requires 0 <= i, 0 < w;
    assert(i / w < h) by (nonlinear_arith)
        requires 0 <= i, i < w * h, 0 < w, i == w * (i / w) + i % w, 0 <= i % w;
    assert((i / w) * w == w * (i / w)) by (nonlinear_arith);
}

} // verus!
