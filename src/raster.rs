use vstd::prelude::*;

verus! {

/// The largest number of pixels a raster may hold.
pub const MAX_PIXELS: usize = 0x4000_0000;

/// An RGB image with 8-bit samples, stored row by row, three samples per pixel.
pub struct Raster {
    pub width: usize,
    pub height: usize,
    pub data: Vec<u8>,
}

/// Index of sample `c` of pixel `(x, y)` in a row-major buffer of width `w`.
pub open spec fn sample_index(w: int, x: int, y: int, c: int) -> int {
    (y * w + x) * 3 + c
}

pub proof fn lemma_sample_index_bounds(w: int, h: int, x: int, y: int, c: int)
    requires
        0 <= x < w,
        0 <= y < h,
        0 <= c < 3,
    ensures
        0 <= sample_index(w, x, y, c) < w * h * 3,
{
    assert(0 <= y * w + x < w * h) by (nonlinear_arith)
        requires 0 <= x < w, 0 <= y < h;
}

pub proof fn lemma_sample_index_injective(w: int, x1: int, y1: int, c1: int, x2: int, y2: int, c2: int)
    requires
        0 <= x1 < w,
        0 <= x2 < w,
        0 <= y1,
        0 <= y2,
        0 <= c1 < 3,
        0 <= c2 < 3,
        sample_index(w, x1, y1, c1) == sample_index(w, x2, y2, c2),
    ensures
        x1 == x2 && y1 == y2 && c1 == c2,
{
    assert(y1 * w + x1 == y2 * w + x2 && c1 == c2);
    if y1 < y2 {
        assert(y1 * w + x1 < y2 * w + x2) by (nonlinear_arith)
            requires y1 < y2, 0 <= x1 < w, 0 <= x2;
    } else if y2 < y1 {
        assert(y2 * w + x2 < y1 * w + x1) by (nonlinear_arith)
            requires y2 < y1, 0 <= x2 < w, 0 <= x1;
    }
}

impl Raster {
    /// The buffer holds exactly three samples per pixel, and the pixel count is bounded.
    pub open spec fn wf(&self) -> bool {
        &&& self.width <= MAX_PIXELS
        &&& self.height <= MAX_PIXELS
        &&& self.width * self.height <= MAX_PIXELS
        &&& self.data@.len() == self.width * self.height * 3
    }

    pub open spec fn in_image(&self, x: int, y: int) -> bool {
        0 <= x < self.width && 0 <= y < self.height
    }

    /// Sample `c` (0 red, 1 green, 2 blue) of pixel `(x, y)`.
    pub open spec fn sample(&self, x: int, y: int, c: int) -> int {
        self.data@[sample_index(self.width as int, x, y, c)] as int
    }

    /// A black raster of the given size; `None` when it would exceed `MAX_PIXELS`.
    pub fn blank(width: usize, height: usize) -> (r: Option<Raster>)
        ensures
            r.is_none() <==> (width > MAX_PIXELS || height > MAX_PIXELS || width * height > MAX_PIXELS),
            r matches Some(img) ==> {
                &&& img.wf()
                &&& img.width == width
                &&& img.height == height
                &&& forall|x: int, y: int, c: int|
                    img.in_image(x, y) && 0 <= c < 3 ==> #[trigger] img.sample(x, y, c) == 0
            },
    {
        if width > MAX_PIXELS || height > MAX_PIXELS {
            return None;
        }
        if height != 0 && width > MAX_PIXELS / height {
            proof {
                assert(width * height > MAX_PIXELS) by (nonlinear_arith)
                    requires height > 0, width > MAX_PIXELS / height;
            }
            return None;
        }
        proof {
            if height != 0 {
                assert(width * height <= MAX_PIXELS) by (nonlinear_arith)
                    requires height > 0, width <= MAX_PIXELS / height;
            }
        }
        let n: usize = width * height * 3;
        let data = vec![0u8; n];
        let img = Raster { width, height, data };
        proof {
            assert forall|x: int, y: int, c: int|
                img.in_image(x, y) && 0 <= c < 3 implies #[trigger] img.sample(x, y, c) == 0 by {
                lemma_sample_index_bounds(width as int, height as int, x, y, c);
            }
        }
        Some(img)
    }

    /// Wraps a row-major buffer of RGB samples; `None` unless it holds exactly
    /// `3 * width * height` samples and the size is within `MAX_PIXELS`.
    pub fn from_samples(width: usize, height: usize, data: Vec<u8>) -> (r: Option<Raster>)
        ensures
            r.is_some() <==> (width <= MAX_PIXELS && height <= MAX_PIXELS && width * height <= MAX_PIXELS
                && data@.len() == width * height * 3),
            r matches Some(img) ==> img.wf() && img.width == width && img.height == height
                && img.data@ == data@,
    {
        if width > MAX_PIXELS || height > MAX_PIXELS {
            return None;
        }
        if height != 0 && width > MAX_PIXELS / height {
            proof {
                assert(width * height > MAX_PIXELS) by (nonlinear_arith)
                    requires height > 0, width > MAX_PIXELS / height;
            }
            return None;
        }
        proof {
            if height != 0 {
                assert(width * height <= MAX_PIXELS) by (nonlinear_arith)
                    requires height > 0, width <= MAX_PIXELS / height;
            }
        }
        if data.len() != width * height * 3 {
            return None;
        }
        Some(Raster { width, height, data })
    }

    /// Sample `c` of pixel `(x, y)`.
    pub fn get(&self, x: usize, y: usize, c: usize) -> (r: u8)
        requires
            self.wf(),
            self.in_image(x as int, y as int),
            c < 3,
        ensures
            r == self.sample(x as int, y as int, c as int),
    {
        proof {
            lemma_sample_index_bounds(self.width as int, self.height as int, x as int, y as int, c as int);
        }
        self.data[(y * self.width + x) * 3 + c]
    }

    /// Paints pixel `(x, y)` with `color`, leaving every other pixel as it was.
    pub fn put_pixel(&mut self, x: usize, y: usize, color: [u8; 3])
        requires
            old(self).wf(),
            old(self).in_image(x as int, y as int),
        ensures
            final(self).wf(),
            final(self).width == old(self).width,
            final(self).height == old(self).height,
            forall|c: int| 0 <= c < 3 ==> #[trigger] final(self).sample(x as int, y as int, c) == color@[c] as int,
            forall|px: int, py: int, c: int|
                old(self).in_image(px, py) && 0 <= c < 3 && (px != x || py != y)
                    ==> #[trigger] final(self).sample(px, py, c) == old(self).sample(px, py, c),
    {
        let ghost w = self.width as int;
        let ghost h = self.height as int;
        let mut c: usize = 0;
        while c < 3
            invariant
                self.wf(),
                self.width == old(self).width,
                self.height == old(self).height,
                old(self).in_image(x as int, y as int),
                0 <= c <= 3,
                w == self.width,
                h == self.height,
                forall|k: int| 0 <= k < c ==> #[trigger] self.sample(x as int, y as int, k) == color@[k] as int,
                forall|px: int, py: int, k: int|
                    old(self).in_image(px, py) && 0 <= k < 3 && (px != x || py != y)
                        ==> #[trigger] self.sample(px, py, k) == old(self).sample(px, py, k),
            decreases 3 - c,
        {
            proof {
                lemma_sample_index_bounds(w, h, x as int, y as int, c as int);
            }
            let i = (y * self.width + x) * 3 + c;
            let ghost prev = *self;
            self.data.set(i, color[c]);
            proof {
                assert forall|k: int| 0 <= k < c + 1 implies #[trigger] self.sample(x as int, y as int, k) == color@[k] as int by {
                    if k < c {
                        assert(prev.sample(x as int, y as int, k) == color@[k] as int);
                    }
                }
                assert forall|px: int, py: int, k: int|
                    old(self).in_image(px, py) && 0 <= k < 3 && (px != x || py != y)
                        implies #[trigger] self.sample(px, py, k) == old(self).sample(px, py, k) by {
                    lemma_sample_index_bounds(w, h, px, py, k);
                    assert(prev.sample(px, py, k) == old(self).sample(px, py, k));
                    if sample_index(w, px, py, k) == sample_index(w, x as int, y as int, c as int) {
                        lemma_sample_index_injective(w, px, py, k, x as int, y as int, c as int);
                    }
                }
            }
            c = c + 1;
        }
    }
}

} // verus!
