//! How a frame is placed in the preview pane: fitting, zooming and panning, and the part
//! of it that has to be decoded.

use vstd::prelude::*;
use crate::image::{larger, smaller, FrameInfo};
use crate::cli::{greater, lesser};
use crate::sample::{Fixed, Sample};

verus! {

/// Furthest zoom in, as screen pixels for each source pixel.
pub const MAX_ZOOM: i64 = 4;

/// A rectangle on the screen.
#[derive(Debug, Copy, PartialEq, Eq)]
pub struct Rect<S> {
    pub left: S,
    pub top: S,
    pub right: S,
    pub bottom: S,
}

impl<S: Copy> Clone for Rect<S> {
    fn clone(&self) -> (r: Self)
        ensures
            r == *self,
    {
        *self
    }
}

/// A rectangle of source pixels.
#[derive(Debug, Clone, Copy, PartialEq, Eq, Structural)]
pub struct Region {
    pub x: u32,
    pub y: u32,
    pub w: u32,
    pub h: u32,
}

/// How the source is mapped onto the pane: `scale` screen pixels for each source pixel,
/// with the source's corner at `(x, y)`.
///
/// It outlives the frame that is shown: zooming into a detail and stepping through the
/// stack to see which frame renders it sharpest is what it is for.
#[derive(Debug, Copy, PartialEq, Eq)]
pub struct View<S> {
    pub scale: S,
    pub x: S,
    pub y: S,
}

impl<S: Copy> Clone for View<S> {
    fn clone(&self) -> (r: Self)
        ensures
            r == *self,
    {
        *self
    }
}

/// Halfway between two samples.
pub open spec fn middle<S: Sample>(a: S, b: S) -> S {
    a.spec_plus(b).spec_over(S::spec_whole(2))
}

fn mid<S: Sample>(a: S, b: S) -> (r: S)
    ensures
        r == middle(a, b),
{
    a.plus(b).over(S::whole(2))
}

fn least<S: Sample>(a: S, b: S) -> (r: S)
    ensures
        r == lesser(a, b),
{
    if a.exceeds(b) {
        b
    } else {
        a
    }
}

fn most<S: Sample>(a: S, b: S) -> (r: S)
    ensures
        r == greater(a, b),
{
    if b.exceeds(a) {
        b
    } else {
        a
    }
}

/// A sample kept between two others.
pub open spec fn held<S: Sample>(v: S, lo: S, hi: S) -> S {
    if lo.spec_exceeds(v) {
        lo
    } else if v.spec_exceeds(hi) {
        hi
    } else {
        v
    }
}

fn hold<S: Sample>(v: S, lo: S, hi: S) -> (r: S)
    ensures
        r == held(v, lo, hi),
{
    if lo.exceeds(v) {
        lo
    } else if v.exceeds(hi) {
        hi
    } else {
        v
    }
}

/// The scale at which the whole source fits the pane.
pub open spec fn fit_scale<S: Sample>(rect: Rect<S>, info: FrameInfo) -> S {
    lesser(
        rect.right.spec_minus(rect.left).spec_over(S::spec_whole(info.width as i64)),
        rect.bottom.spec_minus(rect.top).spec_over(S::spec_whole(info.height as i64)),
    )
}

/// Where an edge starts so that it is centred between two ends.
pub open spec fn centred<S: Sample>(lo: S, hi: S, size: S) -> S {
    middle(lo, hi).spec_minus(size.spec_over(S::spec_whole(2)))
}

/// How long an edge of the source is on the screen.
pub open spec fn drawn<S: Sample>(pixels: u32, scale: S) -> S {
    S::spec_whole(pixels as i64).spec_times(scale)
}

/// Where an edge ends up along one axis. An edge longer than the pane covers it; a shorter
/// one is pinned to its centre.
pub open spec fn settled<S: Sample>(v: S, lo: S, hi: S, size: S) -> S {
    if size.spec_exceeds(hi.spec_minus(lo)) {
        held(v, hi.spec_minus(size), lo)
    } else {
        centred(lo, hi, size)
    }
}

fn settle_axis<S: Sample>(v: S, lo: S, hi: S, size: S) -> (r: S)
    ensures
        r == settled(v, lo, hi, size),
{
    if size.exceeds(hi.minus(lo)) {
        hold(v, hi.minus(size), lo)
    } else {
        mid(lo, hi).minus(size.over(S::whole(2)))
    }
}

/// The whole source, centred in the pane.
pub open spec fn fit_of<S: Sample>(rect: Rect<S>, info: FrameInfo) -> View<S> {
    let scale = fit_scale(rect, info);
    View {
        scale,
        x: centred(rect.left, rect.right, drawn(info.width, scale)),
        y: centred(rect.top, rect.bottom, drawn(info.height, scale)),
    }
}

/// Where a region of the source is on the screen.
pub open spec fn shown_at<S: Sample>(v: View<S>, region: Region) -> Rect<S> {
    let left = v.x.spec_plus(drawn(region.x, v.scale));
    let top = v.y.spec_plus(drawn(region.y, v.scale));
    Rect {
        left,
        top,
        right: left.spec_plus(drawn(region.w, v.scale)),
        bottom: top.spec_plus(drawn(region.h, v.scale)),
    }
}

/// A view panned by a distance on the screen.
pub open spec fn panned<S: Sample>(v: View<S>, dx: S, dy: S) -> View<S> {
    View { scale: v.scale, x: v.x.spec_plus(dx), y: v.y.spec_plus(dy) }
}

/// A view zoomed by a factor about a point on the screen, between fitting the pane and the
/// furthest zoom.
pub open spec fn zoomed<S: Sample>(
    v: View<S>,
    rect: Rect<S>,
    info: FrameInfo,
    px: S,
    py: S,
    factor: S,
) -> View<S> {
    let limit = S::spec_whole(MAX_ZOOM);
    let scale = held(v.scale.spec_times(factor), lesser(fit_scale(rect, info), limit), limit);
    let applied = scale.spec_over(v.scale);
    View {
        scale,
        x: px.spec_plus(v.x.spec_minus(px).spec_times(applied)),
        y: py.spec_plus(v.y.spec_minus(py).spec_times(applied)),
    }
}

/// A view with the source back over the pane, on each axis by itself.
pub open spec fn brought_back<S: Sample>(v: View<S>, rect: Rect<S>, info: FrameInfo) -> View<S> {
    View {
        scale: v.scale,
        x: settled(v.x, rect.left, rect.right, drawn(info.width, v.scale)),
        y: settled(v.y, rect.top, rect.bottom, drawn(info.height, v.scale)),
    }
}

/// The largest size with a picture's shape that fits some bounds, without enlarging it.
pub open spec fn fitted<S: Sample>(width: S, height: S, bound_x: S, bound_y: S) -> (S, S) {
    let scale = lesser(
        lesser(bound_x.spec_over(width), bound_y.spec_over(height)),
        S::spec_whole(1),
    );
    (width.spec_times(scale), height.spec_times(scale))
}

/// The whole part of a sample as a pixel coordinate.
pub open spec fn pixel_of<S: Sample>(v: S) -> int {
    let n = greater(v, S::spec_whole(0)).spec_index() as int;
    larger(smaller(n, u32::MAX as int), 0)
}

fn pixel<S: Sample>(v: S) -> (r: u32)
    ensures
        r == pixel_of(v),
{
    let n = most(v, S::whole(0)).index();
    if n <= 0 {
        0
    } else if n >= 0xffff_ffff {
        0xffff_ffff
    } else {
        n as u32
    }
}

/// The grid that regions snap to, in source pixels.
pub open spec fn grid_of<S: Sample>(scale: S) -> int {
    larger(
        pixel_of(greater(S::spec_whole(64).spec_over(scale), S::spec_whole(1))),
        1,
    )
}

/// A coordinate rounded down to the grid.
pub open spec fn snap_down(v: int, grid: int) -> int {
    v / grid * grid
}

/// A coordinate rounded up past the grid, and not beyond the source.
pub open spec fn snap_up(v: int, grid: int, limit: int) -> int {
    smaller(((v + grid - 1) / grid + 1) * grid, limit)
}

fn down(v: u32, grid: u32) -> (r: u32)
    requires
        grid > 0,
    ensures
        r == snap_down(v as int, grid as int),
        r <= v,
{
    proof {
        let (a, g) = (v as int, grid as int);
        assert(0 <= a / g * g <= a) by (nonlinear_arith)
            requires
                a >= 0,
                g > 0,
        ;
    }
    v / grid * grid
}

fn up(v: u32, grid: u32, limit: u32) -> (r: u32)
    requires
        grid > 0,
    ensures
        r == snap_up(v as int, grid as int, limit as int),
        r <= limit,
{
    let (a, g) = (v as u64, grid as u64);
    let steps = (a + g - 1) / g + 1;
    proof {
        assert(0 <= steps * g <= a + 2 * g) by (nonlinear_arith)
            requires
                steps == (a + g - 1) / (g as int) + 1,
                a >= 0,
                g > 0,
        ;
    }
    let past = steps * g;
    if past < limit as u64 {
        past as u32
    } else {
        limit
    }
}

/// One axis of the region to decode: what is visible, padded by a quarter on each side
/// and snapped to the grid.
pub open spec fn span_of<S: Sample>(
    origin: S,
    scale: S,
    lo: S,
    hi: S,
    limit: int,
) -> (int, int) {
    let from = lo.spec_minus(origin).spec_over(scale);
    let to = hi.spec_minus(origin).spec_over(scale);
    let pad = to.spec_minus(from).spec_times(S::spec_whole(1).spec_over(S::spec_whole(4)));
    let grid = grid_of(scale);
    let start = snap_down(pixel_of(from.spec_minus(pad)), grid);
    let end = snap_up(pixel_of(to.spec_plus(pad)), grid, limit);
    (start, larger(end - start, 1))
}

/// The region to decode for what is visible, and the width to decode it at.
pub open spec fn wanted<S: Sample>(v: View<S>, rect: Rect<S>, info: FrameInfo) -> (Region, u32) {
    let across = span_of(v.x, v.scale, rect.left, rect.right, info.width as int);
    let along = span_of(v.y, v.scale, rect.top, rect.bottom, info.height as int);
    let region = Region {
        x: across.0 as u32,
        y: along.0 as u32,
        w: across.1 as u32,
        h: along.1 as u32,
    };
    (region, larger(256, smaller(4096, pixel_of(drawn(region.w, v.scale)))) as u32)
}

fn span<S: Sample>(origin: S, scale: S, lo: S, hi: S, limit: u32) -> (r: (u32, u32))
    ensures
        r.0 == span_of(origin, scale, lo, hi, limit as int).0,
        r.1 == span_of(origin, scale, lo, hi, limit as int).1,
        r.1 >= 1,
        r.0 < limit ==> r.0 + r.1 <= limit,
{
    let from = lo.minus(origin).over(scale);
    let to = hi.minus(origin).over(scale);
    let pad = to.minus(from).times(S::whole(1).over(S::whole(4)));
    let step = pixel(most(S::whole(64).over(scale), S::whole(1)));
    let grid = if step > 1 {
        step
    } else {
        1
    };
    let start = down(pixel(from.minus(pad)), grid);
    let end = up(pixel(to.plus(pad)), grid, limit);
    let length = if end > start {
        end - start
    } else {
        1
    };
    (start, length)
}

impl<S: Sample> View<S> {
    /// The whole source, centred in the pane.
    pub fn fit(rect: Rect<S>, info: FrameInfo) -> (r: Self)
        ensures
            r == fit_of(rect, info),
    {
        let across = rect.right.minus(rect.left).over(S::whole(info.width as i64));
        let along = rect.bottom.minus(rect.top).over(S::whole(info.height as i64));
        let scale = least(across, along);
        let w = S::whole(info.width as i64).times(scale);
        let h = S::whole(info.height as i64).times(scale);
        View {
            scale,
            x: mid(rect.left, rect.right).minus(w.over(S::whole(2))),
            y: mid(rect.top, rect.bottom).minus(h.over(S::whole(2))),
        }
    }

    /// Where a region of the source is on the screen.
    pub fn source_to_screen(&self, region: Region) -> (r: Rect<S>)
        ensures
            r == shown_at(*self, region),
    {
        let left = self.x.plus(S::whole(region.x as i64).times(self.scale));
        let top = self.y.plus(S::whole(region.y as i64).times(self.scale));
        Rect {
            left,
            top,
            right: left.plus(S::whole(region.w as i64).times(self.scale)),
            bottom: top.plus(S::whole(region.h as i64).times(self.scale)),
        }
    }

    /// Is there something off the screen to pan to?
    pub fn is_pannable(&self, rect: Rect<S>, info: FrameInfo) -> (r: bool)
        ensures
            ({
                let half = S::spec_whole(1).spec_over(S::spec_whole(2));
                r == (drawn(info.width, self.scale).spec_exceeds(
                    rect.right.spec_minus(rect.left).spec_plus(half),
                ) || drawn(info.height, self.scale).spec_exceeds(
                    rect.bottom.spec_minus(rect.top).spec_plus(half),
                ))
            }),
    {
        let half = S::whole(1).over(S::whole(2));
        let w = S::whole(info.width as i64).times(self.scale);
        let h = S::whole(info.height as i64).times(self.scale);
        w.exceeds(rect.right.minus(rect.left).plus(half)) || h.exceeds(
            rect.bottom.minus(rect.top).plus(half),
        )
    }

    /// Pans by a distance on the screen.
    pub fn pan(&mut self, dx: S, dy: S)
        ensures
            *final(self) == panned(*old(self), dx, dy),
    {
        self.x = self.x.plus(dx);
        self.y = self.y.plus(dy);
    }

    /// Zooms by a factor about a point on the screen, between fitting the pane and the
    /// furthest zoom. What is under the pointer stays under it.
    pub fn zoom(&mut self, rect: Rect<S>, info: FrameInfo, px: S, py: S, factor: S)
        ensures
            *final(self) == zoomed(*old(self), rect, info, px, py, factor),
    {
        let limit = S::whole(MAX_ZOOM);
        let fit = Self::fit(rect, info).scale;
        let scale = hold(self.scale.times(factor), least(fit, limit), limit);
        let applied = scale.over(self.scale);
        self.x = px.plus(self.x.minus(px).times(applied));
        self.y = py.plus(self.y.minus(py).times(applied));
        self.scale = scale;
    }

    /// Brings the source back over the pane, on each axis by itself: zoom crosses the two
    /// thresholds at different moments.
    pub fn settle(&mut self, rect: Rect<S>, info: FrameInfo)
        ensures
            *final(self) == brought_back(*old(self), rect, info),
    {
        let w = S::whole(info.width as i64).times(self.scale);
        let h = S::whole(info.height as i64).times(self.scale);
        self.x = settle_axis(self.x, rect.left, rect.right, w);
        self.y = settle_axis(self.y, rect.top, rect.bottom, h);
    }

    /// The region to decode for what is visible, and the width to decode it at: one output
    /// pixel for each screen pixel, within what a texture should hold.
    pub fn wanted_region(&self, rect: Rect<S>, info: FrameInfo) -> (r: (Region, u32))
        ensures
            ({
                let across = span_of(
                    self.x,
                    self.scale,
                    rect.left,
                    rect.right,
                    info.width as int,
                );
                let along = span_of(
                    self.y,
                    self.scale,
                    rect.top,
                    rect.bottom,
                    info.height as int,
                );
                &&& r.0.x == across.0
                &&& r.0.w == across.1
                &&& r.0.y == along.0
                &&& r.0.h == along.1
                &&& r.1 == larger(
                    256,
                    smaller(4096, pixel_of(drawn(r.0.w, self.scale))),
                )
            }),
            r == wanted(*self, rect, info),
            r.0.w >= 1,
            r.0.h >= 1,
            r.0.x < info.width ==> r.0.x + r.0.w <= info.width,
            r.0.y < info.height ==> r.0.y + r.0.h <= info.height,
            256 <= r.1 <= 4096,
    {
        let (x, w) = span(self.x, self.scale, rect.left, rect.right, info.width);
        let (y, h) = span(self.y, self.scale, rect.top, rect.bottom, info.height);
        let wide = pixel(S::whole(w as i64).times(self.scale));
        let target = if wide < 256 {
            256
        } else if wide > 4096 {
            4096
        } else {
            wide
        };
        (Region { x, y, w, h }, target)
    }
}

/// The largest size with a picture's shape that fits some bounds, without enlarging it.
pub fn fit_within<S: Sample>(width: S, height: S, bound_x: S, bound_y: S) -> (r: (S, S))
    ensures
        r == fitted(width, height, bound_x, bound_y),
{
    let scale = least(least(bound_x.over(width), bound_y.over(height)), S::whole(1));
    (width.times(scale), height.times(scale))
}

/// The whole of what is visible is decoded: snapping only widens a span, up to the end of
/// the source.
pub proof fn lemma_snapping_widens(from: int, to: int, grid: int, limit: int)
    requires
        0 <= from,
        0 <= to,
        grid >= 1,
    ensures
        snap_down(from, grid) <= from,
        from - snap_down(from, grid) < grid,
        snap_up(to, grid, limit) >= smaller(to + grid, limit),
{
    assert(from / grid * grid <= from && from - from / grid * grid < grid) by (nonlinear_arith)
        requires
            grid >= 1,
            from >= 0,
    ;
    assert(((to + grid - 1) / grid + 1) * grid >= to + grid) by (nonlinear_arith)
        requires
            grid >= 1,
            to >= 0,
    ;
}

/// Small pans reuse what was decoded: moving within a grid cell asks for the same start.
pub proof fn lemma_small_pans_reuse_the_region(a: int, b: int, grid: int)
    requires
        grid >= 1,
        0 <= a,
        snap_down(a, grid) <= b < snap_down(a, grid) + grid,
    ensures
        snap_down(b, grid) == snap_down(a, grid),
{
    let q = a / grid;
    assert(b / grid == q) by (nonlinear_arith)
        requires
            grid >= 1,
            q * grid <= b < q * grid + grid,
    ;
}

/// A source larger than the pane covers it after settling: no panning past its own edge.
/// A smaller one ends up with the same room on both sides, whatever it was dragged to.
pub proof fn lemma_settled_axis(v: Fixed, other: Fixed, lo: Fixed, hi: Fixed, size: Fixed)
    requires
        -0x1000_0000_0000_0000 <= lo.raw <= hi.raw <= 0x1000_0000_0000_0000,
        0 <= size.raw <= 0x1000_0000_0000_0000,
    ensures
        size.raw > hi.raw - lo.raw ==> {
            let at = settled(v, lo, hi, size).raw;
            at <= lo.raw && at + size.raw >= hi.raw
        },
        size.raw <= hi.raw - lo.raw ==> settled(v, lo, hi, size) == settled(other, lo, hi, size),
{
    assert(hi.spec_minus(lo).raw == hi.raw - lo.raw);
    assert(hi.spec_minus(size).raw == hi.raw - size.raw);
}

} // verus!
