use vstd::prelude::*;
use crate::raster::MAX_PIXELS;
use crate::sat::{spread_of, SummedAreaTable};
use crate::segment::{lemma_outranks_transitive, Segment};

verus! {

/// Sum of the areas of `s`.
pub open spec fn total_area(s: Seq<Segment>) -> int
    decreases s.len(),
{
    if s.len() == 0 {
        0
    } else {
        total_area(s.drop_last()) + s.last().area()
    }
}

/// The two rectangles share no pixel.
pub open spec fn disjoint(a: Segment, b: Segment) -> bool {
    a.right <= b.left || b.right <= a.left || a.bottom <= b.top || b.bottom <= a.top
}

/// Some rectangle of `s` holds pixel `(x, y)`.
pub open spec fn covered(s: Seq<Segment>, x: int, y: int) -> bool {
    exists|i: int| 0 <= i < s.len() && (#[trigger] s[i]).contains(x, y)
}

/// `s` partitions the `w x h` image: every rectangle is non-empty and inside it,
/// no two overlap, every pixel is covered, and the areas add up to `w * h`.
pub open spec fn is_partition(s: Seq<Segment>, w: int, h: int) -> bool {
    &&& forall|i: int| 0 <= i < s.len() ==> (#[trigger] s[i]).fits(w, h)
    &&& forall|i: int, j: int| 0 <= i < s.len() && 0 <= j < s.len() && i != j ==> disjoint(#[trigger] s[i], #[trigger] s[j])
    &&& forall|x: int, y: int| 0 <= x < w && 0 <= y < h ==> #[trigger] covered(s, x, y)
    &&& total_area(s) == w * h
}

/// The segment for `[l, r) x [t, b)` of the table's image.
pub open spec fn segment_of(sat: SummedAreaTable, l: int, r: int, t: int, b: int) -> Segment {
    Segment { spread: spread_of(sat.img(), l, r, t, b) as i128, left: l as usize, right: r as usize, top: t as usize, bottom: b as usize }
}

/// The four quadrants of `s`: top-left, top-right, bottom-left, bottom-right.
pub open spec fn quadrants(sat: SummedAreaTable, s: Segment) -> Seq<Segment> {
    let (l, r, t, b) = (s.left as int, s.right as int, s.top as int, s.bottom as int);
    let mx = (l + r) / 2;
    let my = (t + b) / 2;
    seq![segment_of(sat, l, mx, t, my), segment_of(sat, mx, r, t, my), segment_of(sat, l, mx, my, b), segment_of(sat, mx, r, my, b)]
}

/// `s[i]` is outranked by no other segment of `s`.
pub open spec fn is_best(s: Seq<Segment>, i: int) -> bool {
    &&& 0 <= i < s.len()
    &&& forall|j: int| 0 <= j < s.len() && j != i ==> !(#[trigger] s[j]).outranks(&s[i])
}

/// Whether iteration `t` of the refinement loop renders a snapshot: every
/// `interval`-th iteration, counting from 0; never when `interval` is 0.
pub fn snapshot_due(t: u64, interval: u64) -> (r: bool)
    ensures
        r == (interval > 0 && t % interval == 0),
{
    interval > 0 && t % interval == 0
}

/// The segments awaiting refinement; together they always partition the image.
pub struct Frontier {
    pub segments: Vec<Segment>,
}

proof fn lemma_total_area_push(s: Seq<Segment>, x: Segment)
    ensures
        total_area(s.push(x)) == total_area(s) + x.area(),
{
    assert(s.push(x).drop_last() =~= s);
}

proof fn lemma_total_area_remove(s: Seq<Segment>, i: int)
    requires
        0 <= i < s.len(),
    ensures
        total_area(s.remove(i)) == total_area(s) - s[i].area(),
    decreases s.len(),
{
    if i == s.len() - 1 {
        assert(s.remove(i) =~= s.drop_last());
    } else {
        lemma_total_area_remove(s.drop_last(), i);
        assert(s.remove(i).drop_last() =~= s.drop_last().remove(i));
        assert(s.remove(i).last() == s.last());
    }
}

proof fn lemma_total_area_concat(a: Seq<Segment>, b: Seq<Segment>)
    ensures
        total_area(a + b) == total_area(a) + total_area(b),
    decreases b.len(),
{
    if b.len() > 0 {
        lemma_total_area_concat(a, b.drop_last());
        assert((a + b).drop_last() =~= a + b.drop_last());
        assert((a + b).last() == b.last());
    } else {
        assert(a + b =~= a);
    }
}

/// `a` lies inside `p`.
pub open spec fn within(a: Segment, p: Segment) -> bool {
    p.left <= a.left && a.right <= p.right && p.top <= a.top && a.bottom <= p.bottom
}

/// Replacing a rectangle of a partition by a partition of that rectangle gives
/// a partition again.
proof fn lemma_replace_keeps_partition(s: Seq<Segment>, i: int, q: Seq<Segment>, w: int, h: int)
    requires
        is_partition(s, w, h),
        0 <= i < s.len(),
        forall|k: int| 0 <= k < q.len() ==> (#[trigger] q[k]).fits(w, h) && within(q[k], s[i]),
        forall|k: int, m: int| 0 <= k < q.len() && 0 <= m < q.len() && k != m ==> disjoint(#[trigger] q[k], #[trigger] q[m]),
        forall|x: int, y: int| #[trigger] s[i].contains(x, y) ==> covered(q, x, y),
        total_area(q) == s[i].area(),
    ensures
        is_partition(s.remove(i) + q, w, h),
{
    let rest = s.remove(i);
    let n = s.remove(i) + q;
    let p = s[i];
    assert forall|a: int| 0 <= a < n.len() implies (#[trigger] n[a]).fits(w, h) by {
        if a < rest.len() {
            if a < i { assert(n[a] == s[a]); } else { assert(n[a] == s[a + 1]); }
        } else {
            assert(n[a] == q[a - rest.len()]);
        }
    }
    assert forall|a: int, b: int| 0 <= a < n.len() && 0 <= b < n.len() && a != b implies disjoint(#[trigger] n[a], #[trigger] n[b]) by {
        let oa = if a < i { a } else { a + 1 };
        let ob = if b < i { b } else { b + 1 };
        if a < rest.len() && b < rest.len() {
            assert(n[a] == s[oa] && n[b] == s[ob]);
            assert(disjoint(s[oa], s[ob]));
        } else if a < rest.len() {
            assert(n[a] == s[oa]);
            assert(n[b] == q[b - rest.len()]);
            assert(within(q[b - rest.len()], p));
            assert(disjoint(s[oa], s[i]));
        } else if b < rest.len() {
            assert(n[b] == s[ob]);
            assert(n[a] == q[a - rest.len()]);
            assert(within(q[a - rest.len()], p));
            assert(disjoint(s[ob], s[i]));
        } else {
            assert(n[a] == q[a - rest.len()] && n[b] == q[b - rest.len()]);
            assert(disjoint(q[a - rest.len()], q[b - rest.len()]));
        }
    }
    assert forall|x: int, y: int| 0 <= x < w && 0 <= y < h implies #[trigger] covered(n, x, y) by {
        assert(covered(s, x, y));
        let j = choose|j: int| 0 <= j < s.len() && (#[trigger] s[j]).contains(x, y);
        if j == i {
            assert(covered(q, x, y));
            let k = choose|k: int| 0 <= k < q.len() && (#[trigger] q[k]).contains(x, y);
            assert(n[rest.len() + k] == q[k]);
        } else if j < i {
            assert(n[j] == s[j]);
        } else {
            assert(n[j - 1] == s[j]);
        }
    }
    lemma_total_area_remove(s, i);
    lemma_total_area_concat(rest, q);
}

/// The quadrants of a divisible rectangle partition it.
proof fn lemma_quadrants(sat: SummedAreaTable, p: Segment)
    requires
        p.left < p.right,
        p.top < p.bottom,
        !p.indivisible(),
    ensures
        forall|k: int| 0 <= k < 4 ==> within(#[trigger] quadrants(sat, p)[k], p),
        forall|k: int| 0 <= k < 4 ==> {
            let c = #[trigger] quadrants(sat, p)[k];
            c.left < c.right && c.top < c.bottom
        },
        forall|k: int, m: int| 0 <= k < 4 && 0 <= m < 4 && k != m
            ==> disjoint(#[trigger] quadrants(sat, p)[k], #[trigger] quadrants(sat, p)[m]),
        forall|x: int, y: int| #[trigger] p.contains(x, y) ==> covered(quadrants(sat, p), x, y),
        total_area(quadrants(sat, p)) == p.area(),
{
    let q = quadrants(sat, p);
    let (l, r, t, b) = (p.left as int, p.right as int, p.top as int, p.bottom as int);
    let mx = (l + r) / 2;
    let my = (t + b) / 2;
    assert(l < mx < r && t < my < b);
    assert forall|x: int, y: int| #[trigger] p.contains(x, y) implies covered(q, x, y) by {
        if x < mx && y < my { assert(q[0].contains(x, y)); }
        else if y < my { assert(q[1].contains(x, y)); }
        else if x < mx { assert(q[2].contains(x, y)); }
        else { assert(q[3].contains(x, y)); }
    }
    assert(total_area(q) == q[0].area() + q[1].area() + q[2].area() + q[3].area()) by {
        let q3 = q.drop_last();
        let q2 = q3.drop_last();
        let q1 = q2.drop_last();
        assert(q1.drop_last() =~= Seq::<Segment>::empty());
        assert(q1.last() == q[0] && q2.last() == q[1] && q3.last() == q[2] && q.last() == q[3]);
        assert(q1.len() == 1);
        assert(total_area(q1.drop_last()) == 0);
        assert(total_area(q1) == q[0].area());
        assert(total_area(q2) == q[0].area() + q[1].area());
        assert(total_area(q3) == q[0].area() + q[1].area() + q[2].area());
    }
    assert((mx - l) * (my - t) + (r - mx) * (my - t) == (r - l) * (my - t)) by (nonlinear_arith);
    assert((mx - l) * (b - my) + (r - mx) * (b - my) == (r - l) * (b - my)) by (nonlinear_arith);
    assert((r - l) * (my - t) + (r - l) * (b - my) == (r - l) * (b - t)) by (nonlinear_arith);
}

impl Frontier {
    /// Well formed for `sat`: a partition of its non-empty image. Spreads only
    /// order the segments; the seed carries 0 and every quadrant made by `step`
    /// carries the exact spread of its rectangle.
    pub open spec fn wf(&self, sat: SummedAreaTable) -> bool {
        &&& sat.wf()
        &&& sat.width > 0
        &&& sat.height > 0
        &&& is_partition(self.segments@, sat.width as int, sat.height as int)
    }

    /// The frontier of one segment covering the whole image, with spread 0;
    /// `None` when the image has no pixel.
    pub fn new(sat: &SummedAreaTable) -> (r: Option<Frontier>)
        requires
            sat.wf(),
        ensures
            r.is_none() <==> (sat.width == 0 || sat.height == 0),
            r matches Some(f) ==> f.wf(*sat)
                && f.segments@ == seq![(Segment { spread: 0, left: 0, right: sat.width, top: 0, bottom: sat.height })],
    {
        if sat.width == 0 || sat.height == 0 {
            return None;
        }
        let mut segments: Vec<Segment> = Vec::new();
        let seed = Segment { spread: 0, left: 0, right: sat.width, top: 0, bottom: sat.height };
        segments.push(seed);
        proof {
            let s = segments@;
            assert(s.drop_last() =~= Seq::<Segment>::empty());
            assert(total_area(s.drop_last()) == 0);
            assert(s.last() == seed);
            assert(total_area(s) == seed.area());
            assert(seed.area() == sat.width * sat.height);
            assert forall|x: int, y: int| 0 <= x < sat.width && 0 <= y < sat.height implies #[trigger] covered(s, x, y) by {
                assert(s[0].contains(x, y));
            }
        }
        Some(Frontier { segments })
    }

    /// Index of the segment to split next.
    pub fn best_index(&self, sat: &SummedAreaTable) -> (i: usize)
        requires
            self.wf(*sat),
            self.segments@.len() > 0,
        ensures
            is_best(self.segments@, i as int),
    {
        let s = &self.segments;
        let w = sat.width;
        let h = sat.height;
        let mut best: usize = 0;
        let mut k: usize = 1;
        while k < s.len()
            invariant
                self.wf(*sat),
                s == &self.segments,
                w == sat.width,
                h == sat.height,
                w * h <= MAX_PIXELS,
                0 <= best < k <= s@.len(),
                forall|j: int| 0 <= j < k && j != best ==> !(#[trigger] s@[j]).outranks(&s@[best as int]),
            decreases s@.len() - k,
        {
            assert(s@[k as int].fits(w as int, h as int));
            assert(s@[best as int].fits(w as int, h as int));
            if s[k].outranks_exec(&s[best], w, h) {
                proof {
                    assert forall|j: int| 0 <= j < k + 1 && j != k implies !(#[trigger] s@[j]).outranks(&s@[k as int]) by {
                        if s@[j].outranks(&s@[k as int]) {
                            assert(s@[j].fits(w as int, h as int));
                            if j != best {
                                lemma_outranks_transitive(s@[j], s@[k as int], s@[best as int]);
                            } else {
                                lemma_outranks_transitive(s@[k as int], s@[j], s@[k as int]);
                            }
                        }
                    }
                }
                best = k;
            }
            k = k + 1;
        }
        best
    }

    /// One refinement step. The best segment is replaced by its four quadrants,
    /// each with the spread of its rectangle; a segment too thin to quarter is
    /// kept as it is. Returns whether a split took place.
    pub fn step(&mut self, sat: &SummedAreaTable) -> (split: bool)
        requires
            old(self).wf(*sat),
        ensures
            final(self).wf(*sat),
            exists|i: int| #[trigger] is_best(old(self).segments@, i) && ({
                let s = old(self).segments@[i];
                if s.indivisible() {
                    !split && final(self).segments@ == old(self).segments@
                } else {
                    split && final(self).segments@ == old(self).segments@.remove(i) + quadrants(*sat, s)
                }
            }),
    {
        proof {
            assert(covered(self.segments@, 0, 0));
        }
        let i = self.best_index(sat);
        let p = self.segments[i];
        if p.right - p.left <= 1 || p.bottom - p.top <= 1 {
            return false;
        }
        let ghost s0 = self.segments@;
        let ghost q = quadrants(*sat, p);
        proof {
            assert(p.fits(sat.width as int, sat.height as int));
            lemma_quadrants(*sat, p);
        }
        let mx = (p.left + p.right) / 2;
        let my = (p.top + p.bottom) / 2;
        let c0 = Segment { spread: sat.spread(p.left, mx, p.top, my), left: p.left, right: mx, top: p.top, bottom: my };
        let c1 = Segment { spread: sat.spread(mx, p.right, p.top, my), left: mx, right: p.right, top: p.top, bottom: my };
        let c2 = Segment { spread: sat.spread(p.left, mx, my, p.bottom), left: p.left, right: mx, top: my, bottom: p.bottom };
        let c3 = Segment { spread: sat.spread(mx, p.right, my, p.bottom), left: mx, right: p.right, top: my, bottom: p.bottom };
        self.segments.remove(i);
        self.segments.push(c0);
        self.segments.push(c1);
        self.segments.push(c2);
        self.segments.push(c3);
        proof {
            assert(q[0] == c0 && q[1] == c1 && q[2] == c2 && q[3] == c3);
            assert(self.segments@ =~= s0.remove(i as int) + q);
            let w = sat.width as int;
            let h = sat.height as int;
            assert forall|k: int| 0 <= k < q.len() implies (#[trigger] q[k]).fits(w, h) && within(q[k], s0[i as int]) by {
                assert(within(q[k], p));
            }
            lemma_replace_keeps_partition(s0, i as int, q, w, h);
        }
        true
    }
}

} // verus!
