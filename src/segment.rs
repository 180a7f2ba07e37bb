use vstd::prelude::*;
use crate::raster::MAX_PIXELS;
use crate::sat::{area, rect_in, spread_fits};

verus! {

/// A rectangle `[left, right) x [top, bottom)` of the image with its spread,
/// the priority by which it is chosen for splitting.
///
/// The scaled variance of the rectangle (the sum over channels of variance
/// times area) is `spread / area`; it is held as that exact fraction.
#[derive(Clone, Copy, Debug, PartialEq, Eq, Structural)]
pub struct Segment {
    pub spread: i128,
    pub left: usize,
    pub right: usize,
    pub top: usize,
    pub bottom: usize,
}

impl Segment {
    pub open spec fn area(&self) -> int {
        area(self.left as int, self.right as int, self.top as int, self.bottom as int)
    }

    /// Non-empty, inside a `w x h` image, with a spread in range.
    pub open spec fn fits(&self, w: int, h: int) -> bool {
        &&& rect_in(w, h, self.left as int, self.right as int, self.top as int, self.bottom as int)
        &&& spread_fits(self.spread as int)
    }

    pub open spec fn contains(&self, x: int, y: int) -> bool {
        self.left <= x < self.right && self.top <= y < self.bottom
    }

    /// Too thin to be cut into four non-empty quadrants.
    pub open spec fn indivisible(&self) -> bool {
        self.right - self.left <= 1 || self.bottom - self.top <= 1
    }

    /// The tie-break key, compared lexicographically: `(left, top, right, bottom)`.
    pub open spec fn key_less(&self, o: &Segment) -> bool {
        ||| self.left < o.left
        ||| (self.left == o.left && self.top < o.top)
        ||| (self.left == o.left && self.top == o.top && self.right < o.right)
        ||| (self.left == o.left && self.top == o.top && self.right == o.right && self.bottom < o.bottom)
    }

    /// `self` is split before `o`: its scaled variance is larger, or the two are
    /// equal and its key is smaller.
    pub open spec fn outranks(&self, o: &Segment) -> bool {
        let lhs = self.spread * o.area();
        let rhs = o.spread * self.area();
        lhs > rhs || (lhs == rhs && self.key_less(o))
    }

    proof fn lemma_product_fits(&self, o: &Segment, w: int, h: int)
        requires
            self.fits(w, h),
            o.fits(w, h),
            w * h <= MAX_PIXELS,
        ensures
            0 < self.area() <= MAX_PIXELS,
            0 < o.area() <= MAX_PIXELS,
            -0x1_0000_0000_0000_0000_0000_0000_0000 <= self.spread * o.area() <= 0x1_0000_0000_0000_0000_0000_0000_0000,
            -0x1_0000_0000_0000_0000_0000_0000_0000 <= o.spread * self.area() <= 0x1_0000_0000_0000_0000_0000_0000_0000,
    {
        let (a, b) = (self.right - self.left, self.bottom - self.top);
        let (c, d) = (o.right - o.left, o.bottom - o.top);
        assert(0 < a * b <= w * h) by (nonlinear_arith) requires 0 < a <= w, 0 < b <= h;
        assert(0 < c * d <= w * h) by (nonlinear_arith) requires 0 < c <= w, 0 < d <= h;
        let bound = 3 * (MAX_PIXELS * MAX_PIXELS * 65025);
        assert(bound * MAX_PIXELS <= 0x1_0000_0000_0000_0000_0000_0000_0000);
        assert(-(bound * MAX_PIXELS) <= self.spread * o.area() <= bound * MAX_PIXELS) by (nonlinear_arith)
            requires -bound <= self.spread <= bound, 0 < o.area() <= MAX_PIXELS;
        assert(-(bound * MAX_PIXELS) <= o.spread * self.area() <= bound * MAX_PIXELS) by (nonlinear_arith)
            requires -bound <= o.spread <= bound, 0 < self.area() <= MAX_PIXELS;
    }

    /// Decides `self.outranks(o)` exactly.
    pub fn outranks_exec(&self, o: &Segment, w: usize, h: usize) -> (r: bool)
        requires
            self.fits(w as int, h as int),
            o.fits(w as int, h as int),
            w * h <= MAX_PIXELS,
        ensures
            r == self.outranks(o),
    {
        proof {
            self.lemma_product_fits(o, w as int, h as int);
        }
        let sa = ((self.right - self.left) * (self.bottom - self.top)) as i128;
        let oa = ((o.right - o.left) * (o.bottom - o.top)) as i128;
        let lhs = self.spread * oa;
        let rhs = o.spread * sa;
        if lhs != rhs {
            lhs > rhs
        } else if self.left != o.left {
            self.left < o.left
        } else if self.top != o.top {
            self.top < o.top
        } else if self.right != o.right {
            self.right < o.right
        } else {
            self.bottom < o.bottom
        }
    }
}

pub proof fn lemma_area_positive(a: Segment)
    requires
        a.left < a.right && a.top < a.bottom,
    ensures
        a.area() > 0,
{
    assert((a.right - a.left) * (a.bottom - a.top) > 0) by (nonlinear_arith)
        requires a.left < a.right && a.top < a.bottom;
}

/// The priority order is transitive.
pub proof fn lemma_outranks_transitive(a: Segment, b: Segment, c: Segment)
    requires
        a.left < a.right && a.top < a.bottom,
        b.left < b.right && b.top < b.bottom,
        c.left < c.right && c.top < c.bottom,
        a.outranks(&b),
        b.outranks(&c),
    ensures
        a.outranks(&c),
{
    lemma_area_positive(a);
    lemma_area_positive(b);
    lemma_area_positive(c);
    let (pa, pb, pc) = (a.spread as int, b.spread as int, c.spread as int);
    let (na, nb, nc) = (a.area(), b.area(), c.area());
    // pa / na >= pb / nb >= pc / nc, with the same for strict.
    assert(pa * nb * nc >= pb * na * nc) by (nonlinear_arith)
        requires pa * nb >= pb * na, nc > 0;
    assert(pb * nc * na >= pc * nb * na) by (nonlinear_arith)
        requires pb * nc >= pc * nb, na > 0;
    assert(pa * nb * nc == nb * (pa * nc)) by (nonlinear_arith);
    assert(pc * nb * na == nb * (pc * na)) by (nonlinear_arith);
    assert(pb * na * nc == pb * nc * na) by (nonlinear_arith);
    if pa * nb > pb * na {
        assert(pa * nb * nc > pb * na * nc) by (nonlinear_arith)
            requires pa * nb > pb * na, nc > 0;
    }
    if pb * nc > pc * nb {
        assert(pb * nc * na > pc * nb * na) by (nonlinear_arith)
            requires pb * nc > pc * nb, na > 0;
    }
    if nb * (pa * nc) > nb * (pc * na) {
        assert(pa * nc > pc * na) by (nonlinear_arith)
            requires nb * (pa * nc) > nb * (pc * na), nb > 0;
    } else {
        assert(pa * nc == pc * na) by (nonlinear_arith)
            requires nb * (pa * nc) == nb * (pc * na), nb > 0;
    }
}

} // verus!
