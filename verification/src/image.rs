//! Frame geometry: sizes, covered regions, and reads from a plane of samples.

use vstd::prelude::*;
use crate::pipeline::Transform;
use crate::sample::{Fixed, Sample};

verus! {

/// Output rows computed per banded pass.
pub const BAND_ROWS: u32 = 256;

/// Pixels trimmed from a covered region, once, at full resolution.
///
/// The pyramid's five-tap filter reaches two samples, so a coefficient right on the
/// boundary has already mixed in neighbours from outside it. Trimming at every level
/// instead would compound, and cost good pixels.
pub const EDGE_TRIM: u32 = 2;

/// Shape and sample layout of one frame.
#[derive(Debug, Clone, Copy, PartialEq, Eq, Structural)]
pub struct FrameInfo {
    pub width: u32,
    pub height: u32,
    pub samples: u16,
    pub bits_per_sample: u8,
}

impl FrameInfo {
    /// Samples in one row.
    pub fn row_len(&self) -> (n: usize)
        requires
            self.width * self.samples <= usize::MAX,
        ensures
            n == self.width * self.samples,
    {
        self.width as usize * self.samples as usize
    }
}

/// Half of a whole number, rounded up.
pub open spec fn half_up(n: int) -> int {
    (n + 1) / 2
}

/// Half of a number, rounded up.
pub fn halved(n: u32) -> (r: u32)
    ensures
        r == half_up(n as int),
        r <= n,
        n >= 2 ==> r < n,
        n >= 1 ==> r >= 1,
{
    n / 2 + n % 2
}

pub open spec fn larger(a: int, b: int) -> int {
    if a >= b {
        a
    } else {
        b
    }
}

pub open spec fn smaller(a: int, b: int) -> int {
    if a <= b {
        a
    } else {
        b
    }
}

/// A coordinate brought into `lo..=hi`.
pub open spec fn clamped(v: int, lo: int, hi: int) -> int {
    if v < lo {
        lo
    } else if v > hi {
        hi
    } else {
        v
    }
}

/// Brings a coordinate inside an axis of `n` samples.
pub fn clamp_index(v: i64, n: usize) -> (r: usize)
    requires
        0 < n <= i64::MAX,
    ensures
        r == clamped(v as int, 0, n - 1),
        r < n,
{
    if v < 0 {
        0
    } else if v > n as i64 - 1 {
        n - 1
    } else {
        v as usize
    }
}

/// The region of anchor coordinates a warped frame can fill without sampling outside
/// itself.
///
/// A transform is a similarity without rotation, so the anchor points that map inside
/// the frame form an axis-aligned rectangle: four numbers rather than a mask. Bounds
/// include `x0` and `y0` and exclude `x1` and `y1`.
#[derive(Debug, Clone, Copy, PartialEq, Eq, Structural)]
pub struct Coverage {
    pub x0: u32,
    pub y0: u32,
    pub x1: u32,
    pub y1: u32,
}

/// Is a pixel inside the region?
pub open spec fn covers(c: Coverage, x: int, y: int) -> bool {
    c.x0 <= x < c.x1 && c.y0 <= y < c.y1
}

/// Does the region hold every pixel of a plane this size?
pub open spec fn covers_all(c: Coverage, width: int, height: int) -> bool {
    c.x0 == 0 && c.y0 == 0 && c.x1 >= width && c.y1 >= height
}

/// The pixels both regions hold; empty, never inverted, when there are none.
pub open spec fn intersection(a: Coverage, b: Coverage) -> Coverage {
    let x0 = larger(a.x0 as int, b.x0 as int);
    let y0 = larger(a.y0 as int, b.y0 as int);
    Coverage {
        x0: x0 as u32,
        y0: y0 as u32,
        x1: larger(smaller(a.x1 as int, b.x1 as int), x0) as u32,
        y1: larger(smaller(a.y1 as int, b.y1 as int), y0) as u32,
    }
}

/// The far bound one level down: a region that reached the edge still reaches it.
pub open spec fn reduced_end(lo: int, hi: int, size: int) -> int {
    larger(
        if hi >= size {
            half_up(size)
        } else {
            hi / 2
        },
        half_up(lo),
    )
}

/// The region one pyramid level down, leaving a level of this size.
pub open spec fn reduction(c: Coverage, width: int, height: int) -> Coverage {
    Coverage {
        x0: half_up(c.x0 as int) as u32,
        y0: half_up(c.y0 as int) as u32,
        x1: reduced_end(c.x0 as int, c.x1 as int, width) as u32,
        y1: reduced_end(c.y0 as int, c.y1 as int, height) as u32,
    }
}

/// The region after `levels` reductions, each leaving a level half the size.
pub open spec fn reduced_by(c: Coverage, width: int, height: int, levels: nat) -> Coverage
    decreases levels,
{
    if levels == 0 {
        c
    } else {
        reduced_by(
            reduction(c, width, height),
            half_up(width),
            half_up(height),
            (levels - 1) as nat,
        )
    }
}

/// An integer brought into the range of `u32`.
pub open spec fn to_u32(v: int) -> u32 {
    clamped(v, 0, u32::MAX as int) as u32
}

fn as_u32(v: i64) -> (r: u32)
    ensures
        r == to_u32(v as int),
{
    if v < 0 {
        0
    } else if v > 0xffff_ffff {
        0xffff_ffff
    } else {
        v as u32
    }
}

/// A sample brought into `lo..=hi`.
pub open spec fn limited<S: Sample>(v: S, lo: S, hi: S) -> S {
    if lo.spec_exceeds(v) {
        lo
    } else if v.spec_exceeds(hi) {
        hi
    } else {
        v
    }
}

fn limit<S: Sample>(v: S, lo: S, hi: S) -> (r: S)
    ensures
        r == limited(v, lo, hi),
{
    if lo.exceeds(v) {
        lo
    } else if v.exceeds(hi) {
        hi
    } else {
        v
    }
}

/// Half the size of an axis: the coordinate transforms scale about.
pub open spec fn centre_of<S: Sample>(size: int) -> S {
    S::spec_whole(size as i64).spec_over(S::spec_whole(2))
}

/// The centre of an axis.
pub fn centre<S: Sample>(size: u32) -> (r: S)
    ensures
        r == centre_of::<S>(size as int),
{
    S::whole(size as i64).over(S::whole(2))
}

/// The smallest whole number that is not less.
pub open spec fn ceiling<S: Sample>(v: S) -> S {
    S::spec_whole(0).spec_minus(S::spec_whole(0).spec_minus(v).spec_floor())
}

/// The first pixel of an axis that maps at or after the frame's first.
///
/// A source coordinate is `scale * (p - centre) + shift + centre`. Requiring that to be
/// at least zero, and solving for `p`, gives the value that is rounded up here.
pub open spec fn axis_start<S: Sample>(scale: S, shift: S, size: int) -> int {
    let c = centre_of::<S>(size);
    let first = c.spec_plus(S::spec_whole(0).spec_minus(shift).spec_minus(c).spec_over(scale));
    to_u32(
        limited(ceiling(first), S::spec_whole(0), S::spec_whole(size as i64)).spec_index() as int,
    ) as int
}

/// One past the last pixel of an axis that maps at or before the frame's last.
pub open spec fn axis_end<S: Sample>(scale: S, shift: S, size: int) -> int {
    let c = centre_of::<S>(size);
    let last = c.spec_plus(
        S::spec_whole(size as i64).spec_minus(S::spec_whole(1)).spec_minus(shift).spec_minus(c).spec_over(
            scale,
        ),
    );
    larger(
        to_u32(
            limited(
                last.spec_floor().spec_plus(S::spec_whole(1)),
                S::spec_whole(0),
                S::spec_whole(size as i64),
            ).spec_index() as int,
        ) as int,
        axis_start(scale, shift, size),
    )
}

/// The near bound, trimmed only where the frame falls short of the edge.
pub open spec fn trimmed_start(lo: int) -> int {
    if lo > 0 {
        smaller(lo + EDGE_TRIM, u32::MAX as int)
    } else {
        0
    }
}

/// The far bound, trimmed only where the frame falls short of the edge.
pub open spec fn trimmed_end(lo: int, hi: int, size: int) -> int {
    larger(
        if hi < size {
            larger(hi - EDGE_TRIM, 0)
        } else {
            size
        },
        trimmed_start(lo),
    )
}

/// Where a transform can be sampled from without leaving the frame.
pub open spec fn coverage_of<S: Sample>(t: Transform<S>, info: FrameInfo) -> Coverage {
    let (x0, x1) = (
        axis_start(t.scale, t.dx, info.width as int),
        axis_end(t.scale, t.dx, info.width as int),
    );
    let (y0, y1) = (
        axis_start(t.scale, t.dy, info.height as int),
        axis_end(t.scale, t.dy, info.height as int),
    );
    Coverage {
        x0: trimmed_start(x0) as u32,
        y0: trimmed_start(y0) as u32,
        x1: trimmed_end(x0, x1, info.width as int) as u32,
        y1: trimmed_end(y0, y1, info.height as int) as u32,
    }
}

/// The bounds of one axis, rounded inward and trimmed.
fn covered_axis<S: Sample>(scale: S, shift: S, size: u32) -> (r: (u32, u32))
    ensures
        r.0 == trimmed_start(axis_start(scale, shift, size as int)),
        r.1 == trimmed_end(
            axis_start(scale, shift, size as int),
            axis_end(scale, shift, size as int),
            size as int,
        ),
{
    let zero = S::whole(0);
    let extent = S::whole(size as i64);
    let c = centre::<S>(size);
    let first = c.plus(zero.minus(shift).minus(c).over(scale));
    let last = c.plus(extent.minus(S::whole(1)).minus(shift).minus(c).over(scale));
    let up = zero.minus(zero.minus(first).floor());
    let lo: u32 = as_u32(limit(up, zero, extent).index());
    let hi: u32 = as_u32(limit(last.floor().plus(S::whole(1)), zero, extent).index());
    let hi: u32 = if hi >= lo {
        hi
    } else {
        lo
    };
    let start: u32 = if lo > 0 {
        lo.saturating_add(EDGE_TRIM)
    } else {
        0
    };
    let end: u32 = if hi < size {
        hi.saturating_sub(EDGE_TRIM)
    } else {
        size
    };
    (
        start,
        if end >= start {
            end
        } else {
            start
        },
    )
}

impl Coverage {
    /// The whole of a frame this size: what an untransformed frame covers.
    pub fn full(info: FrameInfo) -> (r: Self)
        ensures
            r == (Coverage { x0: 0, y0: 0, x1: info.width, y1: info.height }),
    {
        Coverage { x0: 0, y0: 0, x1: info.width, y1: info.height }
    }

    /// Where `transform` can be sampled from without leaving the frame.
    ///
    /// Rounding goes inward on both ends, so a partially covered pixel counts as
    /// uncovered.
    pub fn of<S: Sample>(transform: Transform<S>, info: FrameInfo) -> (r: Self)
        ensures
            r == coverage_of(transform, info),
    {
        let (x0, x1) = covered_axis(transform.scale, transform.dx, info.width);
        let (y0, y1) = covered_axis(transform.scale, transform.dy, info.height);
        Coverage { x0, y0, x1, y1 }
    }

    /// This region one pyramid level down, given the size of the level it is leaving.
    pub fn reduced(self, width: u32, height: u32) -> (r: Self)
        ensures
            r == reduction(self, width as int, height as int),
    {
        let x0 = halved(self.x0);
        let y0 = halved(self.y0);
        let x1 = if self.x1 >= width {
            halved(width)
        } else {
            self.x1 / 2
        };
        let y1 = if self.y1 >= height {
            halved(height)
        } else {
            self.y1 / 2
        };
        Coverage {
            x0,
            y0,
            x1: if x1 >= x0 {
                x1
            } else {
                x0
            },
            y1: if y1 >= y0 {
                y1
            } else {
                y0
            },
        }
    }

    pub fn contains(self, x: u32, y: u32) -> (r: bool)
        ensures
            r == covers(self, x as int, y as int),
    {
        self.x0 <= x && x < self.x1 && self.y0 <= y && y < self.y1
    }

    /// The region both cover. Over a whole stack this is where every frame contributed.
    pub fn intersect(self, other: Self) -> (r: Self)
        ensures
            r == intersection(self, other),
    {
        let x0 = if self.x0 >= other.x0 {
            self.x0
        } else {
            other.x0
        };
        let y0 = if self.y0 >= other.y0 {
            self.y0
        } else {
            other.y0
        };
        let x1 = if self.x1 <= other.x1 {
            self.x1
        } else {
            other.x1
        };
        let y1 = if self.y1 <= other.y1 {
            self.y1
        } else {
            other.y1
        };
        Coverage {
            x0,
            y0,
            x1: if x1 >= x0 {
                x1
            } else {
                x0
            },
            y1: if y1 >= y0 {
                y1
            } else {
                y0
            },
        }
    }

    /// Does this cover every pixel of a plane `width` by `height`?
    pub fn is_full(self, width: u32, height: u32) -> (r: bool)
        ensures
            r == covers_all(self, width as int, height as int),
    {
        self.x0 == 0 && self.y0 == 0 && self.x1 >= width && self.y1 >= height
    }
}

/// A pixel is in the intersection of two regions if and only if it is in both.
pub proof fn lemma_intersection_is_both(a: Coverage, b: Coverage, x: int, y: int)
    ensures
        covers(intersection(a, b), x, y) <==> covers(a, x, y) && covers(b, x, y),
{
}

/// An intersection is never inverted, so iterating its bounds visits nothing extra.
pub proof fn lemma_intersection_is_not_inverted(a: Coverage, b: Coverage)
    ensures
        intersection(a, b).x0 <= intersection(a, b).x1,
        intersection(a, b).y0 <= intersection(a, b).y1,
{
}

/// A region holds all of a plane that has pixels if and only if it holds each of them.
pub proof fn lemma_full_is_every_pixel(c: Coverage, width: int, height: int)
    requires
        width > 0,
        height > 0,
    ensures
        covers_all(c, width, height) <==> (forall|x: int, y: int|
            0 <= x < width && 0 <= y < height ==> #[trigger] covers(c, x, y)),
{
    if forall|x: int, y: int| 0 <= x < width && 0 <= y < height ==> #[trigger] covers(c, x, y) {
        assert(covers(c, 0, 0));
        assert(covers(c, width - 1, height - 1));
    }
}

/// A region that held all of a level holds all of the next, odd sizes included.
pub proof fn lemma_full_survives_reduction(c: Coverage, width: u32, height: u32)
    requires
        covers_all(c, width as int, height as int),
    ensures
        covers_all(
            reduction(c, width as int, height as int),
            half_up(width as int),
            half_up(height as int),
        ),
{
}

/// Reduction rounds inward: a coefficient that counts as covered stands over samples
/// that were all covered.
pub proof fn lemma_reduction_rounds_inward(c: Coverage, width: u32, height: u32, x: int, y: int)
    requires
        covers(reduction(c, width as int, height as int), x, y),
        c.x1 <= width,
        c.y1 <= height,
    ensures
        covers(c, 2 * x, 2 * y),
        2 * x + 1 < width ==> covers(c, 2 * x + 1, 2 * y),
        2 * y + 1 < height ==> covers(c, 2 * x, 2 * y + 1),
{
}

/// Two to the power `n`.
pub open spec fn two_to(n: nat) -> int
    decreases n,
{
    if n == 0 {
        1
    } else {
        2 * two_to((n - 1) as nat)
    }
}

/// Powers of two grow.
pub proof fn lemma_two_to_grows(a: nat, b: nat)
    requires
        a <= b,
    ensures
        1 <= two_to(a) <= two_to(b),
    decreases b,
{
    if a < b {
        lemma_two_to_grows(a, (b - 1) as nat);
    } else if a > 0 {
        lemma_two_to_grows((a - 1) as nat, (a - 1) as nat);
    }
}

/// Rounded-up halvings do not compound: `n` of them divide once by two to the `n`.
proof fn lemma_half_up_composes(v: int, n: nat)
    requires
        v >= 0,
    ensures
        two_to(n) >= 1,
        (half_up(v) + two_to(n) - 1) / two_to(n) == (v + two_to(n + 1) - 1) / two_to(n + 1),
    decreases n,
{
    if n > 0 {
        lemma_half_up_composes(v, (n - 1) as nat);
    }
    let d = two_to(n);
    assert(d >= 1) by {
        if n > 0 {
            lemma_half_up_composes(v, (n - 1) as nat);
        }
    }
    let h = half_up(v);
    let q = (h + d - 1) / d;
    vstd::arithmetic::div_mod::lemma_fundamental_div_mod(h + d - 1, d);
    let r = (h + d - 1) % d;
    assert(v + 2 * d - 1 == (2 * d) * q + (v + 2 * d - 1 - 2 * d * q)) by (nonlinear_arith);
    let s = v + 2 * d - 1 - 2 * d * q;
    assert(d * q == h + d - 1 - r);
    assert((2 * d) * q == 2 * (d * q)) by (nonlinear_arith);
    vstd::arithmetic::div_mod::lemma_mod_bound(h + d - 1, d);
    assert(2 * h == v || 2 * h == v + 1);
    assert(s == v + 1 - 2 * h + 2 * r);
    assert(0 <= s < 2 * d);
    assert(q * (2 * d) == (2 * d) * q) by (nonlinear_arith);
    vstd::arithmetic::div_mod::lemma_fundamental_div_mod_converse(v + 2 * d - 1, 2 * d, q, s);
}

/// The inset of a region stays the size of the real shortfall down the pyramid: after any
/// number of levels its near bounds are its full-resolution bounds, divided once.
pub proof fn lemma_reduction_does_not_compound(c: Coverage, width: u32, height: u32, levels: nat)
    ensures
        two_to(levels) >= 1,
        reduced_by(c, width as int, height as int, levels).x0 == (c.x0 + two_to(levels) - 1)
            / two_to(levels),
        reduced_by(c, width as int, height as int, levels).y0 == (c.y0 + two_to(levels) - 1)
            / two_to(levels),
    decreases levels,
{
    if levels > 0 {
        let n = (levels - 1) as nat;
        lemma_reduction_does_not_compound(
            reduction(c, width as int, height as int),
            half_up(width as int) as u32,
            half_up(height as int) as u32,
            n,
        );
        lemma_half_up_composes(c.x0 as int, n);
        lemma_half_up_composes(c.y0 as int, n);
    }
}

/// The anchor covers its whole frame, so there is no pixel that no frame can fill.
pub proof fn lemma_identity_covers_the_frame(info: FrameInfo)
    ensures
        coverage_of(crate::pipeline::identity_of::<Fixed>(), info) == (Coverage {
            x0: 0,
            y0: 0,
            x1: info.width,
            y1: info.height,
        }),
{
    lemma_identity_axis(info.width);
    lemma_identity_axis(info.height);
}

proof fn lemma_identity_axis(size: u32)
    ensures
        axis_start(Fixed::spec_whole(1), Fixed::spec_whole(0), size as int) == 0,
        axis_end(Fixed::spec_whole(1), Fixed::spec_whole(0), size as int) == size,
{
    let c = centre_of::<Fixed>(size as int);
    assert(Fixed::spec_whole(0).raw == 0);
    assert(Fixed::spec_whole(1).raw == 65536);
    assert(Fixed::spec_whole(2).raw == 131072);
    assert(Fixed::spec_whole(size as i64).raw == size * 65536);
    vstd::arithmetic::div_mod::lemma_fundamental_div_mod_converse(
        size * 65536 * 65536,
        131072,
        size * 32768,
        0,
    );
    assert(c.raw == size * 32768);
    let first = Fixed::spec_whole(0).spec_minus(Fixed::spec_whole(0)).spec_minus(c);
    assert(first.raw == -size * 32768);
    let last = Fixed::spec_whole(size as i64).spec_minus(Fixed::spec_whole(1)).spec_minus(
        Fixed::spec_whole(0),
    ).spec_minus(c);
    assert(last.raw == size * 32768 - 65536);
    assert(first.spec_over(Fixed::spec_whole(1)).raw == first.raw);
    assert(last.spec_over(Fixed::spec_whole(1)).raw == last.raw);
}

} // verus!
