use quadseg::frontier::{snapshot_due, Frontier};
use quadseg::raster::{Raster, MAX_PIXELS};
use quadseg::sat::SummedAreaTable;
use quadseg::segment::Segment;

fn raster_of(width: usize, height: usize, pixels: &[[u8; 3]]) -> Raster {
    let mut data = Vec::new();
    for p in pixels {
        data.extend_from_slice(p);
    }
    Raster::from_samples(width, height, data).expect("well-sized raster")
}

fn gradient(width: usize, height: usize) -> Raster {
    let mut pixels = Vec::new();
    for y in 0..height {
        for x in 0..width {
            pixels.push([(x * 37 + y * 11) as u8, (x * x + 3 * y) as u8, ((x ^ y) * 29) as u8]);
        }
    }
    raster_of(width, height, &pixels)
}

fn overlaps(a: &Segment, b: &Segment) -> bool {
    a.left < b.right && b.left < a.right && a.top < b.bottom && b.top < a.bottom
}

fn assert_partition(f: &Frontier, width: usize, height: usize) {
    let mut total = 0usize;
    for (i, a) in f.segments.iter().enumerate() {
        assert!(a.left < a.right && a.right <= width);
        assert!(a.top < a.bottom && a.bottom <= height);
        total += (a.right - a.left) * (a.bottom - a.top);
        for b in f.segments.iter().skip(i + 1) {
            assert!(!overlaps(a, b));
        }
    }
    assert_eq!(total, width * height);
}

#[test]
fn mean_color_of_two_by_two_is_truncated_mean() {
    let img = raster_of(2, 2, &[[10, 20, 30], [11, 21, 31], [12, 22, 33], [13, 24, 35]]);
    let sat = SummedAreaTable::new(&img);
    assert_eq!(sat.mean_color(0, 2, 0, 2), [11, 21, 32]);
    assert_eq!(sat.mean_color(1, 2, 0, 2), [12, 22, 33]);
}

#[test]
fn rect_total_matches_direct_sums() {
    let img = gradient(5, 4);
    let sat = SummedAreaTable::new(&img);
    for c in 0..3 {
        let mut s = 0u64;
        let mut q = 0u64;
        for y in 1..4 {
            for x in 2..5 {
                let v = img.get(x, y, c) as u64;
                s += v;
                q += v * v;
            }
        }
        assert_eq!(sat.rect_total(c, false, 2, 5, 1, 4), s);
        assert_eq!(sat.rect_total(c, true, 2, 5, 1, 4), q);
    }
}

#[test]
fn spread_is_area_times_scaled_variance() {
    let img = raster_of(2, 1, &[[0, 5, 5], [2, 5, 5]]);
    let sat = SummedAreaTable::new(&img);
    // Red: n = 2, sum of squares 4, sum 2: 2 * 4 - 2 * 2 = 4; the other channels are flat.
    assert_eq!(sat.spread(0, 2, 0, 1), 4);
    assert_eq!(sat.spread(0, 1, 0, 1), 0);
}

#[test]
fn uniform_image_renders_unchanged() {
    let img = raster_of(4, 4, &[[7, 99, 200]; 16]);
    let sat = SummedAreaTable::new(&img);
    let mut f = Frontier::new(&sat).expect("non-empty image");
    for _ in 0..12 {
        f.step(&sat);
        assert!(f.segments.iter().all(|s| s.spread == 0));
        assert_eq!(f.render(&sat).data, img.data);
    }
}

#[test]
fn checkerboard_splits_into_single_pixels() {
    let a = [255, 0, 0];
    let b = [0, 0, 255];
    let img = raster_of(2, 2, &[a, b, b, a]);
    let sat = SummedAreaTable::new(&img);
    let mut f = Frontier::new(&sat).expect("non-empty image");
    assert!(f.step(&sat));
    assert_eq!(f.segments.len(), 4);
    assert!(f.segments.iter().all(|s| s.right - s.left == 1 && s.bottom - s.top == 1));
    assert_eq!(f.render(&sat).data, img.data);
}

#[test]
fn rendering_twice_is_identical() {
    let img = gradient(9, 7);
    let sat = SummedAreaTable::new(&img);
    let mut f = Frontier::new(&sat).expect("non-empty image");
    for _ in 0..6 {
        f.step(&sat);
    }
    assert_eq!(f.render(&sat).data, f.render(&sat).data);
}

#[test]
fn frontier_stays_a_partition() {
    let img = gradient(13, 9);
    let sat = SummedAreaTable::new(&img);
    let mut f = Frontier::new(&sat).expect("non-empty image");
    for _ in 0..60 {
        f.step(&sat);
        assert_partition(&f, 13, 9);
    }
}

#[test]
fn noisiest_quadrant_is_split_next() {
    let mut pixels = vec![[50u8, 50, 50]; 16];
    // Only the bottom-right quadrant varies.
    pixels[2 * 4 + 2] = [0, 0, 0];
    pixels[3 * 4 + 3] = [255, 255, 255];
    let img = raster_of(4, 4, &pixels);
    let sat = SummedAreaTable::new(&img);
    let mut f = Frontier::new(&sat).expect("non-empty image");
    assert!(f.step(&sat));
    assert!(f.step(&sat));
    let mut quarters: Vec<(usize, usize, usize, usize)> =
        f.segments.iter().map(|s| (s.left, s.right, s.top, s.bottom)).collect();
    quarters.sort();
    assert_eq!(
        quarters,
        vec![(0, 2, 0, 2), (0, 2, 2, 4), (2, 3, 2, 3), (2, 3, 3, 4), (2, 4, 0, 2), (3, 4, 2, 3), (3, 4, 3, 4)]
    );
}

#[test]
fn equal_priorities_split_smallest_key_first() {
    let img = raster_of(4, 4, &[[1, 2, 3]; 16]);
    let sat = SummedAreaTable::new(&img);
    let mut f = Frontier::new(&sat).expect("non-empty image");
    f.step(&sat);
    let best = f.segments[f.best_index(&sat)];
    assert_eq!((best.left, best.right, best.top, best.bottom), (0, 2, 0, 2));
}

#[test]
fn thin_segment_is_kept() {
    let img = raster_of(1, 3, &[[1, 2, 3], [4, 5, 6], [7, 8, 9]]);
    let sat = SummedAreaTable::new(&img);
    let mut f = Frontier::new(&sat).expect("non-empty image");
    let before = f.segments.clone();
    assert!(!f.step(&sat));
    assert_eq!(f.segments, before);
    assert_eq!(f.render(&sat).data, vec![4, 5, 6, 4, 5, 6, 4, 5, 6]);
}

#[test]
fn empty_image_has_no_frontier() {
    let img = Raster::blank(0, 5).expect("small");
    let sat = SummedAreaTable::new(&img);
    assert!(Frontier::new(&sat).is_none());
}

#[test]
fn raster_constructors_validate_sizes() {
    assert!(Raster::from_samples(2, 2, vec![0; 11]).is_none());
    assert!(Raster::from_samples(2, 2, vec![0; 12]).is_some());
    assert!(Raster::blank(MAX_PIXELS + 1, 1).is_none());
    assert!(Raster::blank(MAX_PIXELS, 2).is_none());
    let mut img = Raster::blank(3, 2).expect("small");
    img.put_pixel(2, 1, [9, 8, 7]);
    assert_eq!((img.get(2, 1, 0), img.get(2, 1, 1), img.get(2, 1, 2)), (9, 8, 7));
    assert_eq!(img.get(1, 1, 0), 0);
}

#[test]
fn split_never_raises_scaled_variance() {
    let img = gradient(11, 8);
    let sat = SummedAreaTable::new(&img);
    let mut f = Frontier::new(&sat).expect("non-empty image");
    for _ in 0..25 {
        let parent = f.segments[f.best_index(&sat)];
        let before = f.segments.len();
        if !f.step(&sat) {
            continue;
        }
        assert_eq!(f.segments.len(), before + 3);
        let children = &f.segments[f.segments.len() - 4..];
        let area = |s: &Segment| ((s.right - s.left) * (s.bottom - s.top)) as f64;
        let mut total = 0.0f64;
        for c in children {
            assert!(c.spread >= 0);
            total += c.spread as f64 / area(c);
        }
        let whole = sat.spread(parent.left, parent.right, parent.top, parent.bottom) as f64 / area(&parent);
        assert!(total <= whole + 1e-9);
    }
}

#[test]
fn snapshots_fall_on_every_interval() {
    assert!(snapshot_due(0, 10));
    assert!(!snapshot_due(7, 10));
    assert!(snapshot_due(20, 10));
    assert!(!snapshot_due(5, 0));
}

#[test]
fn seed_of_varied_image_steps_and_renders() {
    let img = gradient(6, 6);
    let sat = SummedAreaTable::new(&img);
    let mut f = Frontier::new(&sat).expect("non-empty image");
    assert_eq!(f.segments.len(), 1);
    assert_eq!(f.segments[0].spread, 0);
    assert!(f.step(&sat));
    assert_eq!(f.segments.len(), 4);
    for s in &f.segments {
        assert_eq!(s.spread, sat.spread(s.left, s.right, s.top, s.bottom));
    }
    assert_partition(&f, 6, 6);
}
