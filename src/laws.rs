use vstd::prelude::*;
use crate::frontier::{covered, disjoint, total_area, Frontier};
use crate::render::{is_rendering, painted};
use crate::raster::Raster;
use crate::sat::{area, rect_in, spread_of, SummedAreaTable};
use crate::variance::{lemma_cut_columns, lemma_cut_rows, lemma_spread_nonneg, pools_above};

verus! {

/// A well-formed frontier is a partition of the image: its rectangles are
/// pairwise disjoint and their areas add up to `width * height`. `Frontier::new`
/// establishes well-formedness and `Frontier::step` keeps it, so this holds
/// after every iteration.
pub proof fn lemma_frontier_is_partition(f: Frontier, sat: SummedAreaTable)
    requires
        f.wf(sat),
    ensures
        forall|i: int, j: int| 0 <= i < f.segments@.len() && 0 <= j < f.segments@.len() && i != j
            ==> disjoint(#[trigger] f.segments@[i], #[trigger] f.segments@[j]),
        total_area(f.segments@) == sat.width * sat.height,
{
}

/// Every segment of a well-formed frontier satisfies `0 <= left < right <= width`
/// and `0 <= top < bottom <= height`.
pub proof fn lemma_segments_in_bounds(f: Frontier, sat: SummedAreaTable)
    requires
        f.wf(sat),
    ensures
        forall|i: int| 0 <= i < f.segments@.len() ==> {
            let s = #[trigger] f.segments@[i];
            rect_in(sat.width as int, sat.height as int, s.left as int, s.right as int, s.top as int, s.bottom as int)
        },
{
    assert forall|i: int| 0 <= i < f.segments@.len() implies {
        let s = #[trigger] f.segments@[i];
        rect_in(sat.width as int, sat.height as int, s.left as int, s.right as int, s.top as int, s.bottom as int)
    } by {
        assert(f.segments@[i].fits(sat.width as int, sat.height as int));
    }
}

/// Two renderings of the same frontier over the same table are pixel-identical.
pub proof fn lemma_render_idempotent(f: Frontier, sat: SummedAreaTable, a: crate::raster::Raster, b: crate::raster::Raster)
    requires
        f.wf(sat),
        is_rendering(a, f.segments@, sat),
        is_rendering(b, f.segments@, sat),
    ensures
        a.width == b.width,
        a.height == b.height,
        forall|x: int, y: int, c: int| a.in_image(x, y) && 0 <= c < 3 ==> #[trigger] a.sample(x, y, c) == b.sample(x, y, c),
{
    assert forall|x: int, y: int, c: int| a.in_image(x, y) && 0 <= c < 3 implies #[trigger] a.sample(x, y, c) == b.sample(x, y, c) by {
        assert(covered(f.segments@, x, y));
        let i = choose|i: int| 0 <= i < f.segments@.len() && (#[trigger] f.segments@[i]).contains(x, y);
        assert(painted(a, sat.img(), f.segments@[i], x, y));
        assert(painted(b, sat.img(), f.segments@[i], x, y));
    }
}

/// Quartering `[l, r) x [t, b)` at `mx = (l + r) / 2`, `my = (t + b) / 2`, as a
/// split step does, yields four quadrants whose scaled variances are never
/// negative, and never raises the total: each half's scaled variance is at
/// least the sum of its two quadrants', and the whole's at least the sum of
/// the two halves'.
pub proof fn lemma_split_never_raises_variance(img: Raster, l: int, r: int, t: int, b: int)
    requires
        r - l >= 2,
        b - t >= 2,
    ensures
        ({
            let mx = (l + r) / 2;
            let my = (t + b) / 2;
            &&& spread_of(img, l, mx, t, my) >= 0
            &&& spread_of(img, mx, r, t, my) >= 0
            &&& spread_of(img, l, mx, my, b) >= 0
            &&& spread_of(img, mx, r, my, b) >= 0
            &&& pools_above(spread_of(img, l, r, t, my), area(l, mx, t, my), spread_of(img, l, mx, t, my),
                area(mx, r, t, my), spread_of(img, mx, r, t, my))
            &&& pools_above(spread_of(img, l, r, my, b), area(l, mx, my, b), spread_of(img, l, mx, my, b),
                area(mx, r, my, b), spread_of(img, mx, r, my, b))
            &&& pools_above(spread_of(img, l, r, t, b), area(l, r, t, my), spread_of(img, l, r, t, my),
                area(l, r, my, b), spread_of(img, l, r, my, b))
        }),
{
    let mx = (l + r) / 2;
    let my = (t + b) / 2;
    lemma_spread_nonneg(img, l, mx, t, my);
    lemma_spread_nonneg(img, mx, r, t, my);
    lemma_spread_nonneg(img, l, mx, my, b);
    lemma_spread_nonneg(img, mx, r, my, b);
    lemma_cut_columns(img, l, mx, r, t, my);
    lemma_cut_columns(img, l, mx, r, my, b);
    lemma_cut_rows(img, l, r, t, my, b);
}

} // verus!
