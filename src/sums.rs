use vstd::prelude::*;
use crate::raster::Raster;

verus! {

/// The value that a summed-area grid accumulates at pixel `(x, y)`: the sample
/// of channel `c`, or its square.
pub open spec fn moment(img: Raster, c: int, sq: bool, x: int, y: int) -> int {
    let v = img.sample(x, y, c);
    if sq { v * v } else { v }
}

/// Sum of `moment` over the pixels `[l, r)` of row `y`.
pub open spec fn row_sum(img: Raster, c: int, sq: bool, y: int, l: int, r: int) -> int
    decreases r - l,
{
    if r <= l {
        0
    } else {
        row_sum(img, c, sq, y, l, r - 1) + moment(img, c, sq, r - 1, y)
    }
}

/// Sum of `moment` over the rectangle `[l, r) x [t, b)`.
pub open spec fn rect_sum(img: Raster, c: int, sq: bool, l: int, r: int, t: int, b: int) -> int
    decreases b - t,
{
    if b <= t {
        0
    } else {
        rect_sum(img, c, sq, l, r, t, b - 1) + row_sum(img, c, sq, b - 1, l, r)
    }
}

/// Sum of `moment` over the rectangle `[0, x) x [0, y)`.
pub open spec fn prefix_sum(img: Raster, c: int, sq: bool, x: int, y: int) -> int {
    rect_sum(img, c, sq, 0, x, 0, y)
}

/// The largest value `moment` can take.
pub open spec fn moment_max(sq: bool) -> int {
    if sq { 65025int } else { 255int }
}

pub proof fn lemma_moment_bounds(img: Raster, c: int, sq: bool, x: int, y: int)
    ensures
        0 <= moment(img, c, sq, x, y) <= moment_max(sq),
{
    let v = img.sample(x, y, c);
    assert(0 <= v <= 255);
    if sq {
        assert(0 <= v * v <= 255 * 255) by (nonlinear_arith)
            requires 0 <= v <= 255;
    }
}

pub proof fn lemma_row_split(img: Raster, c: int, sq: bool, y: int, l: int, m: int, r: int)
    requires
        l <= m <= r,
    ensures
        row_sum(img, c, sq, y, l, r) == row_sum(img, c, sq, y, l, m) + row_sum(img, c, sq, y, m, r),
    decreases r - m,
{
    if r > m {
        lemma_row_split(img, c, sq, y, l, m, r - 1);
    }
}

pub proof fn lemma_rect_split_rows(img: Raster, c: int, sq: bool, l: int, r: int, t: int, m: int, b: int)
    requires
        t <= m <= b,
    ensures
        rect_sum(img, c, sq, l, r, t, b) == rect_sum(img, c, sq, l, r, t, m) + rect_sum(img, c, sq, l, r, m, b),
    decreases b - m,
{
    if b > m {
        lemma_rect_split_rows(img, c, sq, l, r, t, m, b - 1);
    }
}

pub proof fn lemma_rect_split_cols(img: Raster, c: int, sq: bool, l: int, m: int, r: int, t: int, b: int)
    requires
        l <= m <= r,
    ensures
        rect_sum(img, c, sq, l, r, t, b) == rect_sum(img, c, sq, l, m, t, b) + rect_sum(img, c, sq, m, r, t, b),
    decreases b - t,
{
    if b > t {
        lemma_rect_split_cols(img, c, sq, l, m, r, t, b - 1);
        lemma_row_split(img, c, sq, b - 1, l, m, r);
    }
}

/// Any rectangle's sum is recovered from four prefix sums.
pub proof fn lemma_inclusion_exclusion(img: Raster, c: int, sq: bool, l: int, r: int, t: int, b: int)
    requires
        0 <= l <= r,
        0 <= t <= b,
    ensures
        rect_sum(img, c, sq, l, r, t, b) == prefix_sum(img, c, sq, r, b) - prefix_sum(img, c, sq, l, b)
            - prefix_sum(img, c, sq, r, t) + prefix_sum(img, c, sq, l, t),
{
    lemma_rect_split_rows(img, c, sq, 0, r, 0, t, b);
    lemma_rect_split_rows(img, c, sq, 0, l, 0, t, b);
    lemma_rect_split_cols(img, c, sq, 0, l, r, t, b);
}

/// The recurrence by which a prefix grid is filled.
pub proof fn lemma_prefix_step(img: Raster, c: int, sq: bool, x: int, y: int)
    requires
        0 <= x,
        0 <= y,
    ensures
        prefix_sum(img, c, sq, x + 1, y + 1) == prefix_sum(img, c, sq, x + 1, y) + prefix_sum(img, c, sq, x, y + 1)
            - prefix_sum(img, c, sq, x, y) + moment(img, c, sq, x, y),
{
    assert(row_sum(img, c, sq, y, 0, x + 1) == row_sum(img, c, sq, y, 0, x) + moment(img, c, sq, x, y));
}

pub proof fn lemma_row_bounds(img: Raster, c: int, sq: bool, y: int, l: int, r: int)
    requires
        l <= r,
    ensures
        0 <= row_sum(img, c, sq, y, l, r) <= (r - l) * moment_max(sq),
    decreases r - l,
{
    if r > l {
        lemma_row_bounds(img, c, sq, y, l, r - 1);
        lemma_moment_bounds(img, c, sq, r - 1, y);
    }
}

pub proof fn lemma_rect_bounds(img: Raster, c: int, sq: bool, l: int, r: int, t: int, b: int)
    requires
        l <= r,
        t <= b,
    ensures
        0 <= rect_sum(img, c, sq, l, r, t, b) <= (r - l) * (b - t) * moment_max(sq),
    decreases b - t,
{
    if b > t {
        lemma_rect_bounds(img, c, sq, l, r, t, b - 1);
        lemma_row_bounds(img, c, sq, b - 1, l, r);
        assert((r - l) * (b - 1 - t) * moment_max(sq) + (r - l) * moment_max(sq)
            == (r - l) * (b - t) * moment_max(sq)) by (nonlinear_arith);
    }
}

} // verus!
