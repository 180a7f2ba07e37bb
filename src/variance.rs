use vstd::prelude::*;
use crate::raster::Raster;
use crate::sat::{area, channel_spread, spread_of};
use crate::sums::{lemma_rect_split_cols, lemma_rect_split_rows, moment, rect_sum, row_sum};

verus! {

/// `s1^2 / n1 + s2^2 / n2 >= (s1 + s2)^2 / (n1 + n2)`, multiplied out.
proof fn lemma_square_means(n1: int, s1: int, n2: int, s2: int)
    requires
        n1 > 0,
        n2 > 0,
    ensures
        (n1 + n2) * n2 * (s1 * s1) + (n1 + n2) * n1 * (s2 * s2) >= (n1 * n2) * ((s1 + s2) * (s1 + s2)),
{
    let m = n1 * n2;
    let u = s1 * s1;
    let v = s2 * s2;
    let w = s1 * s2;
    let a = n2 * s1;
    let b = n1 * s2;
    assert((a - b) * (a - b) >= 0) by (nonlinear_arith);
    assert((a - b) * (a - b) == a * a - 2 * (a * b) + b * b) by (nonlinear_arith);
    assert(a * a == (n2 * n2) * u) by (nonlinear_arith) requires a == n2 * s1, u == s1 * s1;
    assert(b * b == (n1 * n1) * v) by (nonlinear_arith) requires b == n1 * s2, v == s2 * s2;
    assert(a * b == m * w) by (nonlinear_arith) requires a == n2 * s1, b == n1 * s2, m == n1 * n2, w == s1 * s2;
    assert((n1 + n2) * n2 * u == m * u + (n2 * n2) * u) by (nonlinear_arith) requires m == n1 * n2;
    assert((n1 + n2) * n1 * v == (n1 * n1) * v + m * v) by (nonlinear_arith) requires m == n1 * n2;
    assert((s1 + s2) * (s1 + s2) == u + 2 * w + v) by (nonlinear_arith) requires u == s1 * s1, v == s2 * s2, w == s1 * s2;
    assert(m * (u + 2 * w + v) == m * u + 2 * (m * w) + m * v) by (nonlinear_arith);
}

/// Pooling two groups of samples (counts `n`, sums `s`, sums of squares `q`):
/// the pooled scaled variance is at least the sum of the two groups' ones.
/// With `spread = n * q - s^2`, scaled variance is `spread / n`; stated multiplied out.
pub proof fn lemma_pool_spread(n1: int, s1: int, q1: int, n2: int, s2: int, q2: int)
    requires
        n1 > 0,
        n2 > 0,
    ensures
        (n1 * n2) * ((n1 + n2) * (q1 + q2) - (s1 + s2) * (s1 + s2))
            >= (n1 + n2) * (n2 * (n1 * q1 - s1 * s1) + n1 * (n2 * q2 - s2 * s2)),
{
    lemma_square_means(n1, s1, n2, s2);
    let m = n1 * n2;
    let nn = n1 + n2;
    let ss = (s1 + s2) * (s1 + s2);
    let u = s1 * s1;
    let v = s2 * s2;
    assert(m * (nn * (q1 + q2) - ss) == nn * (m * q1) + nn * (m * q2) - m * ss) by (nonlinear_arith);
    assert(n2 * (n1 * q1 - u) == m * q1 - n2 * u) by (nonlinear_arith) requires m == n1 * n2;
    assert(n1 * (n2 * q2 - v) == m * q2 - n1 * v) by (nonlinear_arith) requires m == n1 * n2;
    assert(nn * ((m * q1 - n2 * u) + (m * q2 - n1 * v)) == nn * (m * q1) + nn * (m * q2) - nn * n2 * u - nn * n1 * v)
        by (nonlinear_arith);
}

/// Scaled variance `whole / (a1 + a2)` is at least `s1 / a1 + s2 / a2`, multiplied out.
pub open spec fn pools_above(whole: int, a1: int, s1: int, a2: int, s2: int) -> bool {
    (a1 * a2) * whole >= (a1 + a2) * (a2 * s1 + a1 * s2)
}

proof fn lemma_pool_nonneg(n1: int, s1: int, q1: int, n2: int, s2: int, q2: int)
    requires
        n1 > 0,
        n2 > 0,
        n1 * q1 - s1 * s1 >= 0,
        n2 * q2 - s2 * s2 >= 0,
    ensures
        (n1 + n2) * (q1 + q2) - (s1 + s2) * (s1 + s2) >= 0,
{
    lemma_pool_spread(n1, s1, q1, n2, s2, q2);
    let sp = (n1 + n2) * (q1 + q2) - (s1 + s2) * (s1 + s2);
    assert((n1 + n2) * (n2 * (n1 * q1 - s1 * s1) + n1 * (n2 * q2 - s2 * s2)) >= 0) by (nonlinear_arith)
        requires n1 > 0, n2 > 0, n1 * q1 - s1 * s1 >= 0, n2 * q2 - s2 * s2 >= 0;
    assert(sp >= 0) by (nonlinear_arith)
        requires (n1 * n2) * sp >= 0, n1 > 0, n2 > 0;
}

proof fn lemma_row_spread_nonneg(img: Raster, c: int, y: int, l: int, r: int)
    requires
        l < r,
    ensures
        (r - l) * row_sum(img, c, true, y, l, r) - row_sum(img, c, false, y, l, r) * row_sum(img, c, false, y, l, r) >= 0,
    decreases r - l,
{
    let v = img.sample(r - 1, y, c);
    assert(moment(img, c, true, r - 1, y) == v * v);
    if r - 1 == l {
        assert(row_sum(img, c, true, y, l, r - 1) == 0);
        assert(row_sum(img, c, false, y, l, r - 1) == 0);
        assert(row_sum(img, c, true, y, l, r) == v * v);
        assert(row_sum(img, c, false, y, l, r) == v);
        assert(r - l == 1);
    } else {
        lemma_row_spread_nonneg(img, c, y, l, r - 1);
        let s0 = row_sum(img, c, false, y, l, r - 1);
        let q0 = row_sum(img, c, true, y, l, r - 1);
        assert(row_sum(img, c, false, y, l, r) == s0 + v);
        assert(row_sum(img, c, true, y, l, r) == q0 + v * v);
        assert(1 * (v * v) - v * v >= 0);
        lemma_pool_nonneg(r - 1 - l, s0, q0, 1, v, v * v);
        assert((r - 1 - l) + 1 == r - l);
    }
}

/// `n * sum(v^2) >= sum(v)^2` over any rectangle: its spread is never negative.
pub proof fn lemma_channel_spread_nonneg(img: Raster, c: int, l: int, r: int, t: int, b: int)
    requires
        l <= r,
        t <= b,
    ensures
        channel_spread(img, c, l, r, t, b) >= 0,
    decreases b - t,
{
    if l == r || t == b {
        assert(area(l, r, t, b) == 0) by (nonlinear_arith) requires l == r || t == b;
        assert(rect_sum(img, c, false, l, r, t, b) == 0) by {
            crate::sums::lemma_rect_bounds(img, c, false, l, r, t, b);
            assert(area(l, r, t, b) * 255 == 0);
        }
        assert(area(l, r, t, b) * rect_sum(img, c, true, l, r, t, b) == 0);
    } else {
        lemma_row_spread_nonneg(img, c, b - 1, l, r);
        if b - 1 == t {
            assert(rect_sum(img, c, true, l, r, t, b - 1) == 0);
            assert(rect_sum(img, c, false, l, r, t, b - 1) == 0);
            assert(area(l, r, t, b) == r - l) by (nonlinear_arith) requires b - 1 == t;
        } else {
            lemma_channel_spread_nonneg(img, c, l, r, t, b - 1);
            assert(area(l, r, t, b - 1) > 0) by (nonlinear_arith) requires l < r, t < b - 1;
            assert(area(l, r, t, b) == area(l, r, t, b - 1) + (r - l)) by (nonlinear_arith);
            lemma_pool_nonneg(area(l, r, t, b - 1), rect_sum(img, c, false, l, r, t, b - 1), rect_sum(img, c, true, l, r, t, b - 1),
                r - l, row_sum(img, c, false, b - 1, l, r), row_sum(img, c, true, b - 1, l, r));
        }
    }
}

/// The scaled variance of any rectangle is never negative.
pub proof fn lemma_spread_nonneg(img: Raster, l: int, r: int, t: int, b: int)
    requires
        l <= r,
        t <= b,
    ensures
        spread_of(img, l, r, t, b) >= 0,
{
    lemma_channel_spread_nonneg(img, 0, l, r, t, b);
    lemma_channel_spread_nonneg(img, 1, l, r, t, b);
    lemma_channel_spread_nonneg(img, 2, l, r, t, b);
}

proof fn lemma_pools_above_sum(a1: int, a2: int, w: Seq<int>, s1: Seq<int>, s2: Seq<int>)
    requires
        w.len() == 3 && s1.len() == 3 && s2.len() == 3,
        forall|k: int| 0 <= k < 3 ==> pools_above(#[trigger] w[k], a1, s1[k], a2, s2[k]),
    ensures
        pools_above(w[0] + w[1] + w[2], a1, s1[0] + s1[1] + s1[2], a2, s2[0] + s2[1] + s2[2]),
{
    assert(pools_above(w[0], a1, s1[0], a2, s2[0]));
    assert(pools_above(w[1], a1, s1[1], a2, s2[1]));
    assert(pools_above(w[2], a1, s1[2], a2, s2[2]));
    let m = a1 * a2;
    let n = a1 + a2;
    assert(m * (w[0] + w[1] + w[2]) == m * w[0] + m * w[1] + m * w[2]) by (nonlinear_arith);
    assert(n * (a2 * (s1[0] + s1[1] + s1[2]) + a1 * (s2[0] + s2[1] + s2[2]))
        == n * (a2 * s1[0] + a1 * s2[0]) + n * (a2 * s1[1] + a1 * s2[1]) + n * (a2 * s1[2] + a1 * s2[2])) by (nonlinear_arith);
}

/// Cutting a rectangle at column `m` never raises its scaled variance: the
/// whole's is at least the sum of the two parts'.
pub proof fn lemma_cut_columns(img: Raster, l: int, m: int, r: int, t: int, b: int)
    requires
        l < m < r,
        t < b,
    ensures
        pools_above(spread_of(img, l, r, t, b), area(l, m, t, b), spread_of(img, l, m, t, b),
            area(m, r, t, b), spread_of(img, m, r, t, b)),
{
    let a1 = area(l, m, t, b);
    let a2 = area(m, r, t, b);
    assert(a1 > 0 && a2 > 0) by (nonlinear_arith) requires l < m < r, t < b, a1 == (m - l) * (b - t), a2 == (r - m) * (b - t);
    assert(area(l, r, t, b) == a1 + a2) by (nonlinear_arith) requires a1 == (m - l) * (b - t), a2 == (r - m) * (b - t);
    let w = seq![channel_spread(img, 0, l, r, t, b), channel_spread(img, 1, l, r, t, b), channel_spread(img, 2, l, r, t, b)];
    let s1 = seq![channel_spread(img, 0, l, m, t, b), channel_spread(img, 1, l, m, t, b), channel_spread(img, 2, l, m, t, b)];
    let s2 = seq![channel_spread(img, 0, m, r, t, b), channel_spread(img, 1, m, r, t, b), channel_spread(img, 2, m, r, t, b)];
    assert forall|k: int| 0 <= k < 3 implies pools_above(#[trigger] w[k], a1, s1[k], a2, s2[k]) by {
        lemma_rect_split_cols(img, k, true, l, m, r, t, b);
        lemma_rect_split_cols(img, k, false, l, m, r, t, b);
        lemma_pool_spread(a1, rect_sum(img, k, false, l, m, t, b), rect_sum(img, k, true, l, m, t, b),
            a2, rect_sum(img, k, false, m, r, t, b), rect_sum(img, k, true, m, r, t, b));
    }
    lemma_pools_above_sum(a1, a2, w, s1, s2);
}

/// Cutting a rectangle at row `m` never raises its scaled variance: the
/// whole's is at least the sum of the two parts'.
pub proof fn lemma_cut_rows(img: Raster, l: int, r: int, t: int, m: int, b: int)
    requires
        l < r,
        t < m < b,
    ensures
        pools_above(spread_of(img, l, r, t, b), area(l, r, t, m), spread_of(img, l, r, t, m),
            area(l, r, m, b), spread_of(img, l, r, m, b)),
{
    let a1 = area(l, r, t, m);
    let a2 = area(l, r, m, b);
    assert(a1 > 0 && a2 > 0) by (nonlinear_arith) requires l < r, t < m < b, a1 == (r - l) * (m - t), a2 == (r - l) * (b - m);
    assert(area(l, r, t, b) == a1 + a2) by (nonlinear_arith) requires a1 == (r - l) * (m - t), a2 == (r - l) * (b - m);
    let w = seq![channel_spread(img, 0, l, r, t, b), channel_spread(img, 1, l, r, t, b), channel_spread(img, 2, l, r, t, b)];
    let s1 = seq![channel_spread(img, 0, l, r, t, m), channel_spread(img, 1, l, r, t, m), channel_spread(img, 2, l, r, t, m)];
    let s2 = seq![channel_spread(img, 0, l, r, m, b), channel_spread(img, 1, l, r, m, b), channel_spread(img, 2, l, r, m, b)];
    assert forall|k: int| 0 <= k < 3 implies pools_above(#[trigger] w[k], a1, s1[k], a2, s2[k]) by {
        lemma_rect_split_rows(img, k, true, l, r, t, m, b);
        lemma_rect_split_rows(img, k, false, l, r, t, m, b);
        lemma_pool_spread(a1, rect_sum(img, k, false, l, r, t, m), rect_sum(img, k, true, l, r, t, m),
            a2, rect_sum(img, k, false, l, r, m, b), rect_sum(img, k, true, l, r, m, b));
    }
    lemma_pools_above_sum(a1, a2, w, s1, s2);
}

} // verus!
