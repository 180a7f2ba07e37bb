use vstd::prelude::*;
use crate::frontier::Frontier;
use crate::raster::Raster;
use crate::sat::{mean_of, SummedAreaTable};
use crate::segment::Segment;

verus! {

/// Pixel `(x, y)` of `img` holds the mean colour of `seg` over `src`.
pub open spec fn painted(img: Raster, src: Raster, seg: Segment, x: int, y: int) -> bool {
    forall|c: int| 0 <= c < 3 ==> #[trigger] img.sample(x, y, c)
        == mean_of(src, c, seg.left as int, seg.right as int, seg.top as int, seg.bottom as int)
}

/// `img` is a rendering of `f` over the table's image: same size, and each
/// pixel of each segment painted with that segment's mean colour.
pub open spec fn is_rendering(img: Raster, f: Seq<Segment>, sat: SummedAreaTable) -> bool {
    &&& img.wf()
    &&& img.width == sat.width
    &&& img.height == sat.height
    &&& forall|i: int, x: int, y: int| 0 <= i < f.len() && #[trigger] f[i].contains(x, y)
        ==> painted(img, sat.img(), f[i], x, y)
}

/// Paints every pixel of `seg` with `color`, leaving the other pixels as they were.
fn fill(img: &mut Raster, seg: Segment, color: [u8; 3])
    requires
        old(img).wf(),
        seg.left < seg.right <= old(img).width,
        seg.top < seg.bottom <= old(img).height,
    ensures
        final(img).wf(),
        final(img).width == old(img).width,
        final(img).height == old(img).height,
        forall|x: int, y: int, c: int| #[trigger] seg.contains(x, y) && 0 <= c < 3
            ==> #[trigger] final(img).sample(x, y, c) == color@[c] as int,
        forall|x: int, y: int, c: int| old(img).in_image(x, y) && !seg.contains(x, y) && 0 <= c < 3
            ==> #[trigger] final(img).sample(x, y, c) == old(img).sample(x, y, c),
{
    let ghost orig = *img;
    let mut y: usize = seg.top;
    while y < seg.bottom
        invariant
            img.wf(),
            img.width == orig.width,
            img.height == orig.height,
            orig.wf(),
            seg.left < seg.right <= orig.width,
            seg.top <= y <= seg.bottom <= orig.height,
            forall|px: int, py: int, c: int| #[trigger] seg.contains(px, py) && py < y && 0 <= c < 3
                ==> #[trigger] img.sample(px, py, c) == color@[c] as int,
            forall|px: int, py: int, c: int| orig.in_image(px, py) && !(seg.contains(px, py) && py < y) && 0 <= c < 3
                ==> #[trigger] img.sample(px, py, c) == orig.sample(px, py, c),
        decreases seg.bottom - y,
    {
        let mut x: usize = seg.left;
        while x < seg.right
            invariant
                img.wf(),
                img.width == orig.width,
                img.height == orig.height,
                orig.wf(),
                seg.left <= x <= seg.right <= orig.width,
                seg.top <= y < seg.bottom <= orig.height,
                forall|px: int, py: int, c: int| #[trigger] seg.contains(px, py) && (py < y || (py == y && px < x)) && 0 <= c < 3
                    ==> #[trigger] img.sample(px, py, c) == color@[c] as int,
                forall|px: int, py: int, c: int| orig.in_image(px, py) && !(seg.contains(px, py) && (py < y || (py == y && px < x))) && 0 <= c < 3
                    ==> #[trigger] img.sample(px, py, c) == orig.sample(px, py, c),
            decreases seg.right - x,
        {
            let ghost before = *img;
            img.put_pixel(x, y, color);
            proof {
                assert forall|px: int, py: int, c: int| #[trigger] seg.contains(px, py) && (py < y || (py == y && px < x + 1)) && 0 <= c < 3
                    implies #[trigger] img.sample(px, py, c) == color@[c] as int by {
                    if px != x || py != y {
                        assert(before.sample(px, py, c) == color@[c] as int);
                    }
                }
                assert forall|px: int, py: int, c: int| orig.in_image(px, py) && !(seg.contains(px, py) && (py < y || (py == y && px < x + 1))) && 0 <= c < 3
                    implies #[trigger] img.sample(px, py, c) == orig.sample(px, py, c) by {
                    assert(before.sample(px, py, c) == orig.sample(px, py, c));
                }
            }
            x = x + 1;
        }
        y = y + 1;
    }
}

impl Frontier {
    /// Paints each segment's rectangle with its mean colour over the table's image.
    /// Since the segments partition the image, every pixel is painted exactly once.
    pub fn render(&self, sat: &SummedAreaTable) -> (img: Raster)
        requires
            self.wf(*sat),
        ensures
            is_rendering(img, self.segments@, *sat),
    {
        let ghost src = sat.img();
        let ghost segs = self.segments@;
        let mut img = match Raster::blank(sat.width, sat.height) {
            Some(r) => r,
            None => {
                proof {
                    assert(false);
                }
                Raster { width: 0, height: 0, data: Vec::new() }
            },
        };
        let mut i: usize = 0;
        while i < self.segments.len()
            invariant
                self.wf(*sat),
                src == sat.img(),
                segs == self.segments@,
                img.wf(),
                img.width == sat.width,
                img.height == sat.height,
                0 <= i <= segs.len(),
                forall|j: int, x: int, y: int| 0 <= j < i && #[trigger] segs[j].contains(x, y)
                    ==> painted(img, src, segs[j], x, y),
            decreases segs.len() - i,
        {
            let seg = self.segments[i];
            proof {
                assert(segs[i as int].fits(sat.width as int, sat.height as int));
            }
            let color = sat.mean_color(seg.left, seg.right, seg.top, seg.bottom);
            let ghost before = img;
            fill(&mut img, seg, color);
            proof {
                assert forall|j: int, x: int, y: int| 0 <= j < i + 1 && #[trigger] segs[j].contains(x, y)
                    implies painted(img, src, segs[j], x, y) by {
                    assert(segs[j].fits(sat.width as int, sat.height as int));
                    if j == i {
                        assert forall|c: int| 0 <= c < 3 implies #[trigger] img.sample(x, y, c)
                            == mean_of(src, c, seg.left as int, seg.right as int, seg.top as int, seg.bottom as int) by {
                            assert(seg.contains(x, y));
                        }
                    } else {
                        assert(crate::frontier::disjoint(segs[j], segs[i as int]));
                        assert(painted(before, src, segs[j], x, y));
                        assert forall|c: int| 0 <= c < 3 implies #[trigger] img.sample(x, y, c)
                            == mean_of(src, c, segs[j].left as int, segs[j].right as int, segs[j].top as int, segs[j].bottom as int) by {
                            assert(before.sample(x, y, c) == mean_of(src, c, segs[j].left as int, segs[j].right as int, segs[j].top as int, segs[j].bottom as int));
                            assert(!seg.contains(x, y));
                        }
                    }
                }
            }
            i = i + 1;
        }
        img
    }
}

} // verus!
