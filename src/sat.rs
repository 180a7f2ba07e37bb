use vstd::prelude::*;
use crate::raster::{Raster, MAX_PIXELS};
use crate::sums::{
    lemma_inclusion_exclusion, lemma_moment_bounds, lemma_prefix_step, lemma_rect_bounds,
    lemma_rect_split_rows, moment, moment_max, prefix_sum, rect_sum,
};

verus! {

/// Entry `(x, y)` of a row-major grid with rows of `w1` entries.
pub open spec fn grid_at(g: Seq<u64>, w1: int, x: int, y: int) -> int {
    g[y * w1 + x] as int
}

/// `g` is the prefix grid of `moment(img, c, sq, _, _)`: `(W + 1) x (H + 1)` entries,
/// entry `(x, y)` the sum over `[0, x) x [0, y)`.
pub open spec fn grid_ok(g: Seq<u64>, img: Raster, c: int, sq: bool) -> bool {
    let w1 = img.width + 1;
    let h1 = img.height + 1;
    &&& g.len() == w1 * h1
    &&& forall|x: int, y: int|
        0 <= x < w1 && 0 <= y < h1 ==> #[trigger] grid_at(g, w1, x, y) == prefix_sum(img, c, sq, x, y)
}

/// The number of pixels of `[l, r) x [t, b)`.
pub open spec fn area(l: int, r: int, t: int, b: int) -> int {
    (r - l) * (b - t)
}

/// Area times the variance of channel `c` over the rectangle, scaled once more
/// by the area so that it is an integer: `n * sum(v^2) - sum(v)^2`.
pub open spec fn channel_spread(img: Raster, c: int, l: int, r: int, t: int, b: int) -> int {
    area(l, r, t, b) * rect_sum(img, c, true, l, r, t, b)
        - rect_sum(img, c, false, l, r, t, b) * rect_sum(img, c, false, l, r, t, b)
}

/// The scaled variance of the rectangle (sum over channels of variance times area)
/// is `spread_of(..) / area(..)`.
pub open spec fn spread_of(img: Raster, l: int, r: int, t: int, b: int) -> int {
    channel_spread(img, 0, l, r, t, b) + channel_spread(img, 1, l, r, t, b) + channel_spread(img, 2, l, r, t, b)
}

/// The range every spread of a well-formed table lies in.
pub open spec fn spread_fits(s: int) -> bool {
    -3 * (MAX_PIXELS * MAX_PIXELS * 65025) <= s <= 3 * (MAX_PIXELS * MAX_PIXELS * 65025)
}

/// Mean of channel `c` over the rectangle, truncated to an integer.
pub open spec fn mean_of(img: Raster, c: int, l: int, r: int, t: int, b: int) -> int {
    rect_sum(img, c, false, l, r, t, b) / area(l, r, t, b)
}

/// A rectangle `[l, r) x [t, b)` that is non-empty and lies inside a `w x h` image.
pub open spec fn rect_in(w: int, h: int, l: int, r: int, t: int, b: int) -> bool {
    0 <= l < r <= w && 0 <= t < b <= h
}

proof fn lemma_grid_index(w1: int, h1: int, x: int, y: int)
    requires
        0 <= x < w1,
        0 <= y < h1,
    ensures
        0 <= y * w1 + x < w1 * h1,
        y > 0 ==> (y - 1) * w1 + x == y * w1 + x - w1,
{
    assert(0 <= y * w1 + x < w1 * h1) by (nonlinear_arith)
        requires 0 <= x < w1, 0 <= y < h1;
    assert((y - 1) * w1 == y * w1 - w1) by (nonlinear_arith);
}

proof fn lemma_grid_size(img: Raster)
    requires
        img.wf(),
    ensures
        (img.width + 1) * (img.height + 1) <= 4 * MAX_PIXELS,
{
    assert((img.width + 1) * (img.height + 1) == img.width * img.height + img.width + img.height + 1)
        by (nonlinear_arith);
}

proof fn lemma_area_bound(img: Raster, l: int, r: int, t: int, b: int)
    requires
        img.wf(),
        0 <= l <= r <= img.width,
        0 <= t <= b <= img.height,
    ensures
        0 <= area(l, r, t, b) <= MAX_PIXELS,
{
    assert(0 <= (r - l) * (b - t) <= img.width * img.height) by (nonlinear_arith)
        requires 0 <= r - l <= img.width, 0 <= b - t <= img.height;
}

proof fn lemma_prefix_fits(img: Raster, c: int, sq: bool, x: int, y: int)
    requires
        img.wf(),
        0 <= x <= img.width,
        0 <= y <= img.height,
    ensures
        0 <= prefix_sum(img, c, sq, x, y) <= MAX_PIXELS * 65025,
{
    lemma_rect_bounds(img, c, sq, 0, x, 0, y);
    lemma_area_bound(img, 0, x, 0, y);
    assert(area(0, x, 0, y) * moment_max(sq) <= MAX_PIXELS * 65025) by (nonlinear_arith)
        requires 0 <= area(0, x, 0, y) <= MAX_PIXELS, 0 <= moment_max(sq) <= 65025;
}

fn moment_at(img: &Raster, c: usize, sq: bool, x: usize, y: usize) -> (r: u64)
    requires
        img.wf(),
        img.in_image(x as int, y as int),
        c < 3,
    ensures
        r == moment(*img, c as int, sq, x as int, y as int),
{
    let v = img.get(x, y, c) as u64;
    if sq {
        proof {
            assert(v * v <= 65025) by (nonlinear_arith) requires v <= 255;
        }
        v * v
    } else {
        v
    }
}

/// Builds the prefix grid of `moment(img, c, sq, _, _)`.
fn build_grid(img: &Raster, c: usize, sq: bool) -> (g: Vec<u64>)
    requires
        img.wf(),
        c < 3,
    ensures
        grid_ok(g@, *img, c as int, sq),
{
    let w1 = img.width + 1;
    let h1 = img.height + 1;
    let ghost im = *img;
    proof {
        lemma_grid_size(im);
    }
    let mut g: Vec<u64> = Vec::new();
    let mut y: usize = 0;
    while y < h1
        invariant
            img.wf(),
            im == *img,
            c < 3,
            w1 == img.width + 1,
            h1 == img.height + 1,
            w1 * h1 <= 4 * MAX_PIXELS,
            0 <= y <= h1,
            g@.len() == y * w1,
            forall|px: int, py: int|
                0 <= px < w1 && 0 <= py < y ==> #[trigger] grid_at(g@, w1 as int, px, py) == prefix_sum(im, c as int, sq, px, py),
        decreases h1 - y,
    {
        let mut x: usize = 0;
        proof {
            assert((y + 1) * w1 == y * w1 + w1) by (nonlinear_arith);
            assert(y * w1 <= img.width * img.height + img.width + img.height + 1) by (nonlinear_arith)
                requires y < h1, h1 == img.height + 1, w1 == img.width + 1;
        }
        while x < w1
            invariant
                img.wf(),
                im == *img,
                c < 3,
                w1 == img.width + 1,
                h1 == img.height + 1,
                w1 * h1 <= 4 * MAX_PIXELS,
                0 <= y < h1,
                0 <= x <= w1,
                (y + 1) * w1 == y * w1 + w1,
                g@.len() == y * w1 + x,
                forall|px: int, py: int|
                    0 <= px < w1 && 0 <= py < y ==> #[trigger] grid_at(g@, w1 as int, px, py) == prefix_sum(im, c as int, sq, px, py),
                forall|px: int| 0 <= px < x ==> #[trigger] grid_at(g@, w1 as int, px, y as int) == prefix_sum(im, c as int, sq, px, y as int),
            decreases w1 - x,
        {
            proof {
                lemma_grid_index(w1 as int, h1 as int, x as int, y as int);
                lemma_prefix_fits(im, c as int, sq, x as int, y as int);
            }
            let ghost before = g@;
            if x == 0 || y == 0 {
                proof {
                    lemma_rect_bounds(im, c as int, sq, 0, x as int, 0, y as int);
                }
                g.push(0);
            } else {
                proof {
                    lemma_grid_index(w1 as int, h1 as int, x as int, (y - 1) as int);
                    lemma_grid_index(w1 as int, h1 as int, (x - 1) as int, (y - 1) as int);
                    lemma_grid_index(w1 as int, h1 as int, (x - 1) as int, y as int);
                    assert(grid_at(g@, w1 as int, x as int, (y - 1) as int) == prefix_sum(im, c as int, sq, x as int, y - 1));
                    assert(grid_at(g@, w1 as int, (x - 1) as int, (y - 1) as int) == prefix_sum(im, c as int, sq, x - 1, y - 1));
                    assert(grid_at(g@, w1 as int, (x - 1) as int, y as int) == prefix_sum(im, c as int, sq, x - 1, y as int));
                    lemma_prefix_step(im, c as int, sq, x - 1, y - 1);
                    lemma_prefix_fits(im, c as int, sq, x as int, (y - 1) as int);
                    lemma_prefix_fits(im, c as int, sq, (x - 1) as int, y as int);
                    lemma_prefix_fits(im, c as int, sq, (x - 1) as int, (y - 1) as int);
                    lemma_moment_bounds(im, c as int, sq, x - 1, y - 1);
                }
                let up = g[(y - 1) * w1 + x];
                let diag = g[(y - 1) * w1 + x - 1];
                let left = g[y * w1 + x - 1];
                let m = moment_at(img, c, sq, x - 1, y - 1);
                g.push(up + left + m - diag);
            }
            proof {
                assert forall|px: int, py: int|
                    0 <= px < w1 && 0 <= py < y implies #[trigger] grid_at(g@, w1 as int, px, py) == prefix_sum(im, c as int, sq, px, py) by {
                    lemma_grid_index(w1 as int, h1 as int, px, py);
                    assert(py * w1 + px < y * w1) by (nonlinear_arith) requires py < y, 0 <= px < w1;
                    assert(grid_at(before, w1 as int, px, py) == prefix_sum(im, c as int, sq, px, py));
                }
                assert forall|px: int| 0 <= px < x + 1 implies #[trigger] grid_at(g@, w1 as int, px, y as int) == prefix_sum(im, c as int, sq, px, y as int) by {
                    if px < x {
                        assert(grid_at(before, w1 as int, px, y as int) == prefix_sum(im, c as int, sq, px, y as int));
                    }
                }
            }
            x = x + 1;
        }
        proof {
            assert forall|px: int, py: int|
                0 <= px < w1 && 0 <= py < y + 1 implies #[trigger] grid_at(g@, w1 as int, px, py) == prefix_sum(im, c as int, sq, px, py) by {
                if py == y {
                    assert(grid_at(g@, w1 as int, px, y as int) == prefix_sum(im, c as int, sq, px, y as int));
                }
            }
        }
        y = y + 1;
    }
    proof {
        assert(y * w1 == w1 * h1) by (nonlinear_arith) requires y == h1;
    }
    g
}

/// Per-channel prefix sums of the samples and of their squares, answering the
/// sum, the variance and the mean of any rectangle in constant time.
pub struct SummedAreaTable {
    pub width: usize,
    pub height: usize,
    /// One prefix grid per channel, over the samples.
    pub sums: Vec<Vec<u64>>,
    /// One prefix grid per channel, over the squared samples.
    pub squares: Vec<Vec<u64>>,
    /// The image the table was built from.
    pub source: Ghost<Raster>,
}

impl SummedAreaTable {
    pub open spec fn img(&self) -> Raster {
        self.source@
    }

    pub open spec fn wf(&self) -> bool {
        &&& self.img().wf()
        &&& self.width == self.img().width
        &&& self.height == self.img().height
        &&& self.sums@.len() == 3
        &&& self.squares@.len() == 3
        &&& forall|c: int| 0 <= c < 3 ==> grid_ok(#[trigger] self.sums@[c]@, self.img(), c, false)
        &&& forall|c: int| 0 <= c < 3 ==> grid_ok(#[trigger] self.squares@[c]@, self.img(), c, true)
    }

    /// Builds the table of `img`.
    pub fn new(img: &Raster) -> (sat: SummedAreaTable)
        requires
            img.wf(),
        ensures
            sat.wf(),
            sat.img() == *img,
    {
        let mut sums: Vec<Vec<u64>> = Vec::new();
        let mut squares: Vec<Vec<u64>> = Vec::new();
        let mut c: usize = 0;
        while c < 3
            invariant
                img.wf(),
                0 <= c <= 3,
                sums@.len() == c,
                squares@.len() == c,
                forall|k: int| 0 <= k < c ==> grid_ok(#[trigger] sums@[k]@, *img, k, false),
                forall|k: int| 0 <= k < c ==> grid_ok(#[trigger] squares@[k]@, *img, k, true),
            decreases 3 - c,
        {
            sums.push(build_grid(img, c, false));
            squares.push(build_grid(img, c, true));
            c = c + 1;
        }
        SummedAreaTable { width: img.width, height: img.height, sums, squares, source: Ghost(*img) }
    }

    fn prefix(&self, c: usize, sq: bool, x: usize, y: usize) -> (r: u64)
        requires
            self.wf(),
            c < 3,
            x <= self.width,
            y <= self.height,
        ensures
            r == prefix_sum(self.img(), c as int, sq, x as int, y as int),
    {
        let w1 = self.width + 1;
        proof {
            lemma_grid_size(self.img());
            lemma_grid_index(w1 as int, self.height + 1, x as int, y as int);
            if sq {
                assert(grid_ok(self.squares@[c as int]@, self.img(), c as int, true));
                assert(grid_at(self.squares@[c as int]@, w1 as int, x as int, y as int) == prefix_sum(self.img(), c as int, sq, x as int, y as int));
            } else {
                assert(grid_ok(self.sums@[c as int]@, self.img(), c as int, false));
                assert(grid_at(self.sums@[c as int]@, w1 as int, x as int, y as int) == prefix_sum(self.img(), c as int, sq, x as int, y as int));
            }
        }
        if sq {
            self.squares[c][y * w1 + x]
        } else {
            self.sums[c][y * w1 + x]
        }
    }

    /// Sum of channel `c` (or of its squares) over `[l, r) x [t, b)`, from four corners.
    pub fn rect_total(&self, c: usize, sq: bool, l: usize, r: usize, t: usize, b: usize) -> (s: u64)
        requires
            self.wf(),
            c < 3,
            l <= r <= self.width,
            t <= b <= self.height,
        ensures
            s == rect_sum(self.img(), c as int, sq, l as int, r as int, t as int, b as int),
    {
        let ghost img = self.img();
        proof {
            lemma_inclusion_exclusion(img, c as int, sq, l as int, r as int, t as int, b as int);
            lemma_rect_split_rows(img, c as int, sq, 0, r as int, 0, t as int, b as int);
            lemma_rect_bounds(img, c as int, sq, 0, r as int, t as int, b as int);
            lemma_rect_bounds(img, c as int, sq, l as int, r as int, t as int, b as int);
            lemma_prefix_fits(img, c as int, sq, r as int, b as int);
            lemma_prefix_fits(img, c as int, sq, l as int, t as int);
            lemma_prefix_fits(img, c as int, sq, r as int, t as int);
            lemma_prefix_fits(img, c as int, sq, l as int, b as int);
        }
        let rb = self.prefix(c, sq, r, b);
        let lt = self.prefix(c, sq, l, t);
        let rt = self.prefix(c, sq, r, t);
        let lb = self.prefix(c, sq, l, b);
        rb + lt - rt - lb
    }

    /// The spread of `[l, r) x [t, b)`; its scaled variance is this divided by the area.
    pub fn spread(&self, l: usize, r: usize, t: usize, b: usize) -> (s: i128)
        requires
            self.wf(),
            rect_in(self.width as int, self.height as int, l as int, r as int, t as int, b as int),
        ensures
            s == spread_of(self.img(), l as int, r as int, t as int, b as int),
            spread_fits(s as int),
    {
        let ghost img = self.img();
        proof {
            lemma_area_bound(img, l as int, r as int, t as int, b as int);
        }
        let n: u64 = ((r - l) * (b - t)) as u64;
        let mut acc: i128 = 0;
        let mut c: usize = 0;
        while c < 3
            invariant
                self.wf(),
                img == self.img(),
                rect_in(self.width as int, self.height as int, l as int, r as int, t as int, b as int),
                n == area(l as int, r as int, t as int, b as int),
                0 <= n <= MAX_PIXELS,
                0 <= c <= 3,
                acc == (if c >= 1 { channel_spread(img, 0, l as int, r as int, t as int, b as int) } else { 0 })
                    + (if c >= 2 { channel_spread(img, 1, l as int, r as int, t as int, b as int) } else { 0 })
                    + (if c >= 3 { channel_spread(img, 2, l as int, r as int, t as int, b as int) } else { 0 }),
                -(c as int) * (MAX_PIXELS * MAX_PIXELS * 65025) <= acc <= c * (MAX_PIXELS * MAX_PIXELS * 65025),
            decreases 3 - c,
        {
            let q = self.rect_total(c, true, l, r, t, b);
            let s = self.rect_total(c, false, l, r, t, b);
            proof {
                lemma_rect_bounds(img, c as int, true, l as int, r as int, t as int, b as int);
                lemma_rect_bounds(img, c as int, false, l as int, r as int, t as int, b as int);
                assert(q <= n * 65025);
                assert(s <= n * 255);
                assert(n * q <= MAX_PIXELS * MAX_PIXELS * 65025) by (nonlinear_arith)
                    requires 0 <= n <= MAX_PIXELS, 0 <= q <= n * 65025;
                assert(s * s <= MAX_PIXELS * MAX_PIXELS * 65025) by (nonlinear_arith)
                    requires 0 <= n <= MAX_PIXELS, 0 <= s <= n * 255;
                assert(0 <= n * q) by (nonlinear_arith) requires 0 <= n, 0 <= q;
                assert(0 <= s * s) by (nonlinear_arith);
                let bound = MAX_PIXELS * MAX_PIXELS * 65025;
                assert((c + 1) * bound == c * bound + bound) by (nonlinear_arith);
                assert(c * bound <= 2 * bound) by (nonlinear_arith) requires c < 3, bound >= 0;
                assert(-(c as int) * bound == -(c * bound)) by (nonlinear_arith);
                assert(-((c + 1) as int) * bound == -((c + 1) * bound)) by (nonlinear_arith);
            }
            let nq: i128 = n as i128 * q as i128;
            let ss: i128 = s as i128 * s as i128;
            acc = acc + (nq - ss);
            c = c + 1;
        }
        acc
    }

    /// The mean colour of `[l, r) x [t, b)`, each channel truncated toward zero.
    pub fn mean_color(&self, l: usize, r: usize, t: usize, b: usize) -> (color: [u8; 3])
        requires
            self.wf(),
            rect_in(self.width as int, self.height as int, l as int, r as int, t as int, b as int),
        ensures
            forall|c: int| 0 <= c < 3 ==> #[trigger] color@[c] as int == mean_of(self.img(), c, l as int, r as int, t as int, b as int),
    {
        let ghost img = self.img();
        proof {
            lemma_area_bound(img, l as int, r as int, t as int, b as int);
            assert(area(l as int, r as int, t as int, b as int) > 0) by (nonlinear_arith)
                requires l < r, t < b;
        }
        let n: u64 = ((r - l) * (b - t)) as u64;
        let mut color: [u8; 3] = [0u8; 3];
        let mut c: usize = 0;
        while c < 3
            invariant
                self.wf(),
                img == self.img(),
                rect_in(self.width as int, self.height as int, l as int, r as int, t as int, b as int),
                n == area(l as int, r as int, t as int, b as int),
                0 < n <= MAX_PIXELS,
                0 <= c <= 3,
                color@.len() == 3,
                forall|k: int| 0 <= k < c ==> #[trigger] color@[k] as int == mean_of(img, k, l as int, r as int, t as int, b as int),
            decreases 3 - c,
        {
            let s = self.rect_total(c, false, l, r, t, b);
            proof {
                lemma_rect_bounds(img, c as int, false, l as int, r as int, t as int, b as int);
                assert(s / n <= 255) by (nonlinear_arith)
                    requires 0 < n, 0 <= s <= n * 255;
            }
            color[c] = (s / n) as u8;
            c = c + 1;
        }
        color
    }
}

} // verus!
