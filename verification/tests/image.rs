use stackaroni::image::{Coverage, FrameInfo, EDGE_TRIM};
use stackaroni::pipeline::Transform;
use stackaroni::plane::source_of;
use stackaroni::sample::{Fixed, Sample};

/// Single-precision samples.
#[derive(Clone, Copy, Debug, PartialEq)]
struct F(f32);

impl Sample for F {
    fn spec_whole(n: i64) -> Self {
        F(n as f32)
    }
    fn spec_lowest() -> Self {
        F(f32::NEG_INFINITY)
    }
    fn spec_plus(self, other: Self) -> Self {
        F(self.0 + other.0)
    }
    fn spec_minus(self, other: Self) -> Self {
        F(self.0 - other.0)
    }
    fn spec_times(self, other: Self) -> Self {
        F(self.0 * other.0)
    }
    fn spec_over(self, other: Self) -> Self {
        F(self.0 / other.0)
    }
    fn spec_exceeds(self, other: Self) -> bool {
        self.0 > other.0
    }
    fn spec_floor(self) -> Self {
        F(self.0.floor())
    }
    fn spec_index(self) -> i64 {
        self.0 as i64
    }
    fn whole(n: i64) -> Self {
        Self::spec_whole(n)
    }
    fn lowest() -> Self {
        Self::spec_lowest()
    }
    fn plus(self, other: Self) -> Self {
        self.spec_plus(other)
    }
    fn minus(self, other: Self) -> Self {
        self.spec_minus(other)
    }
    fn times(self, other: Self) -> Self {
        self.spec_times(other)
    }
    fn over(self, other: Self) -> Self {
        self.spec_over(other)
    }
    fn exceeds(self, other: Self) -> bool {
        self.spec_exceeds(other)
    }
    fn floor(self) -> Self {
        self.spec_floor()
    }
    fn index(self) -> i64 {
        self.spec_index()
    }
}

fn info(width: u32, height: u32) -> FrameInfo {
    FrameInfo {
        width,
        height,
        samples: 3,
        bits_per_sample: 16,
    }
}

fn scaled(scale: f32) -> Transform<F> {
    Transform {
        scale: F(scale),
        dx: F(0.0),
        dy: F(0.0),
    }
}

/// The anchor must cover every pixel, or fusion has positions no frame can fill.
#[test]
fn the_identity_covers_the_whole_frame() {
    let info = info(8664, 5784);
    let covered = Coverage::of(Transform::<F>::identity(), info);
    assert_eq!(covered, Coverage::full(info));
    assert!(covered.is_full(info.width, info.height));
}

#[test]
fn a_magnified_frame_covers_less_than_the_canvas() {
    let info = info(8664, 5784);
    let covered = Coverage::of(scaled(1.0569), info);
    assert!(!covered.is_full(info.width, info.height));
    assert!((230..=236).contains(&covered.x0), "{covered:?}");
    assert!((8428..=8434).contains(&covered.x1), "{covered:?}");
    assert!((153..=159).contains(&covered.y0), "{covered:?}");
}

/// A frame smaller than the canvas maps entirely inside it, so it covers fully.
#[test]
fn a_shrunk_frame_still_covers_everything() {
    let info = info(4000, 3000);
    let covered = Coverage::of(scaled(0.95), info);
    assert!(covered.is_full(info.width, info.height));
}

#[test]
fn translation_moves_the_covered_region() {
    let info = info(4000, 3000);
    let covered = Coverage::of(Transform::translation(F(100.0), F(0.0)), info);
    assert_eq!(covered.x0, 0);
    assert_eq!(covered.x1, info.width - 100 - EDGE_TRIM);
    assert!(covered.is_full(0, info.height), "untouched axis stays full");
}

/// Every covered pixel is sampled from inside the frame, and a shifted frame covers what it
/// fills from two pixels inside it.
#[test]
fn covered_pixels_are_sampled_inside() {
    let i = info(40, 24);
    let steps = |v: i64| Fixed { raw: v };
    for (scale, dx, dy) in [
        (65536, 0, 0),
        (65536, 3 * 65536 + 1, -65536 / 3),
        (65536, -7 * 65536, 5 * 65536 + 40000),
        (66000, 0, 0),
        (60000, 20000, -90000),
        (131072, 4 * 65536, 0),
    ] {
        let t = Transform {
            scale: steps(scale),
            dx: steps(dx),
            dy: steps(dy),
        };
        let c = Coverage::of(t, i);
        let slack = if scale == 65536 { 0 } else { 1 + scale / 65536 };
        for y in 0..i.height {
            for x in 0..i.width {
                let (sx, sy) = source_of(t, i.width, i.height, x, y);
                let (w, h) = (i.width as i64, i.height as i64);
                if c.contains(x, y) {
                    assert!(-slack <= sx.raw && sx.raw <= (w - 1) * 65536, "{t:?} {x},{y}");
                    assert!(-slack <= sy.raw && sy.raw <= (h - 1) * 65536, "{t:?} {x},{y}");
                }
                let inside = |v: Fixed, n: i64| 131072 <= v.raw && v.raw <= (n - 3) * 65536;
                if scale == 65536 && inside(sx, w) && inside(sy, h) {
                    assert!(c.contains(x, y), "{t:?} {x},{y}");
                }
            }
        }
    }
}

#[test]
fn reducing_halves_and_erodes() {
    let c = Coverage {
        x0: 200,
        y0: 100,
        x1: 8000,
        y1: 5000,
    };
    let r = c.reduced(8664, 5784);
    assert_eq!(r.x0, 100);
    assert_eq!(r.x1, 4000);
    assert_eq!(r.y0, 50);
}

/// An inset must stay the size of the real shortfall, not grow with depth.
#[test]
fn reducing_repeatedly_does_not_compound_the_inset() {
    let (mut w, mut h) = (8664u32, 5784u32);
    let mut c = Coverage {
        x0: 64,
        y0: 64,
        x1: w - 64,
        y1: h - 64,
    };
    for _ in 0..8 {
        c = c.reduced(w, h);
        (w, h) = (w.div_ceil(2), h.div_ceil(2));
    }
    assert!(c.x0 <= 1, "inset grew down the pyramid: {c:?}");
    assert!(c.x1 >= w - 1, "far edge pulled in: {c:?} against width {w}");
}

/// A frame that covers everything must keep covering everything at every level.
#[test]
fn full_coverage_survives_reduction_at_odd_sizes() {
    let (mut w, mut h) = (1201u32, 901u32);
    let mut c = Coverage {
        x0: 0,
        y0: 0,
        x1: w,
        y1: h,
    };
    for _ in 0..5 {
        c = c.reduced(w, h);
        (w, h) = (w.div_ceil(2), h.div_ceil(2));
        assert!(c.is_full(w, h), "lost fullness at {w}x{h}: {c:?}");
    }
}

#[test]
fn intersecting_takes_the_tighter_bound() {
    let a = Coverage {
        x0: 10,
        y0: 0,
        x1: 100,
        y1: 100,
    };
    let b = Coverage {
        x0: 0,
        y0: 20,
        x1: 90,
        y1: 100,
    };
    assert_eq!(
        a.intersect(b),
        Coverage {
            x0: 10,
            y0: 20,
            x1: 90,
            y1: 100
        }
    );
}

#[test]
fn a_disjoint_intersection_is_empty_not_inverted() {
    let a = Coverage {
        x0: 0,
        y0: 0,
        x1: 10,
        y1: 10,
    };
    let b = Coverage {
        x0: 50,
        y0: 50,
        x1: 60,
        y1: 60,
    };
    let i = a.intersect(b);
    assert!(i.x1 <= i.x0 && !i.contains(0, 0) && !i.contains(55, 55));
}

#[test]
fn identity_transform_is_zero() {
    assert_eq!(Transform::<F>::identity(), Transform::default());
    let moved = Transform::<F>::default().apply(F(3.0), F(-4.0));
    assert_eq!(moved, (F(3.0), F(-4.0)));
}

#[test]
fn a_translation_can_be_followed_and_undone() {
    let half = Fixed { raw: 32768 };
    let there = Transform::translation(Fixed::whole(7), half);
    let magnified = Transform {
        scale: Fixed::whole(2),
        dx: half,
        dy: Fixed::whole(-3),
    };

    let (x, y) = magnified.apply(Fixed::whole(5), half);
    assert_eq!(
        magnified.and_then(there).apply(Fixed::whole(5), half),
        there.apply(x, y)
    );
    assert_eq!(there.and_then(there.inverse()), Transform::identity());

    // So can a magnification, where nothing is lost to rounding.
    let tripled = Transform {
        scale: Fixed::whole(3),
        dx: Fixed::whole(-1),
        dy: half,
    };
    let (x, y) = magnified.apply(half, Fixed::whole(9));
    assert_eq!(
        magnified.and_then(tripled).apply(half, Fixed::whole(9)),
        tripled.apply(x, y)
    );
    assert_eq!(
        magnified.and_then(magnified.inverse()),
        Transform::identity()
    );
}
