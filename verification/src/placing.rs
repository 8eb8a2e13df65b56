//! What placing a frame in the preview pane is for, on the screen: the whole source fits and
//! is centred, what is under the pointer stays under it, a source larger than the pane
//! covers it, and everything that can be seen is decoded. All of it holds of both axes.

use vstd::prelude::*;
use crate::cli::lesser;
use crate::image::FrameInfo;
use crate::rounding::{
    bounded, lemma_difference, lemma_part, lemma_product_of, lemma_sum, lemma_whole,
};
use crate::sample::{Fixed, Sample};
use crate::view::{
    brought_back, centred, drawn, fit_of, fit_scale, fitted, grid_of, lemma_snapping_widens,
    middle, panned, pixel_of, settled, shown_at, snap_down, span_of, wanted, zoomed, Rect,
    Region, View,
};

verus! {

/// Is a pane at most 256 million pixels from the origin on every side, and not inside out?
pub open spec fn on_screen(rect: Rect<Fixed>) -> bool {
    &&& -0x1000_0000_0000 <= rect.left.raw <= rect.right.raw <= 0x1000_0000_0000
    &&& -0x1000_0000_0000 <= rect.top.raw <= rect.bottom.raw <= 0x1000_0000_0000
}

/// Is a view no closer than the furthest zoom, and near the screen?
pub open spec fn viewable(v: View<Fixed>) -> bool {
    &&& 0 < v.scale.raw <= 4 * 65536
    &&& bounded(v.x, 0x100_0000_0000_0000)
    &&& bounded(v.y, 0x100_0000_0000_0000)
}

/// A quotient is rounded down to a step.
proof fn lemma_quotient(a: Fixed, b: Fixed)
    requires
        b.raw > 0,
        bounded(a, 0x4000_0000_0000),
    ensures
        a.spec_over(b).raw == (a.raw * 65536) / b.raw as int,
        b.raw * a.spec_over(b).raw <= a.raw * 65536 < b.raw * a.spec_over(b).raw + b.raw,
{
    let (n, d) = (a.raw * 65536, b.raw as int);
    let q = n / d;
    assert(d * q <= n < d * q + d && -0x4000_0000_0000_0000 <= q <= 0x4000_0000_0000_0000)
        by (nonlinear_arith)
        requires
            d > 0,
            q == n / d,
            -0x4000_0000_0000_0000 <= n <= 0x4000_0000_0000_0000,
    ;
}

/// A length on the screen is its pixels times the scale, exactly.
proof fn lemma_drawn(pixels: u32, scale: Fixed)
    requires
        0 <= scale.raw <= 0x2000_0000,
    ensures
        drawn(pixels, scale).raw == pixels * scale.raw,
        0 <= pixels * scale.raw <= 0x2000_0000_0000_0000,
{
    let (p, t) = (pixels as int, scale.raw as int);
    lemma_whole(p);
    assert((p * 65536) * t == (p * t) * 65536 && 0 <= p * t <= 0x1_0000_0000 * 0x2000_0000)
        by (nonlinear_arith)
        requires
            0 <= p < 0x1_0000_0000,
            0 <= t <= 0x2000_0000,
    ;
    let whole = p * t;
    assert((whole * 65536) / 65536 == whole);
    lemma_product_of(Fixed::spec_whole(pixels as i64), scale);
}

/// A region is shown where its pixels are: each edge of it as many times the scale from the
/// source's corner as it is pixels from it.
pub proof fn lemma_regions_are_shown_where_their_pixels_are(v: View<Fixed>, region: Region)
    requires
        viewable(v),
    ensures
        ({
            let at = shown_at(v, region);
            &&& at.left.raw == v.x.raw + region.x * v.scale.raw
            &&& at.top.raw == v.y.raw + region.y * v.scale.raw
            &&& at.right.raw == v.x.raw + (region.x + region.w) * v.scale.raw
            &&& at.bottom.raw == v.y.raw + (region.y + region.h) * v.scale.raw
        }),
{
    lemma_drawn(region.x, v.scale);
    lemma_drawn(region.y, v.scale);
    lemma_drawn(region.w, v.scale);
    lemma_drawn(region.h, v.scale);
    let s = v.scale.raw as int;
    lemma_sum(v.x, drawn(region.x, v.scale));
    lemma_sum(v.y, drawn(region.y, v.scale));
    lemma_sum(shown_at(v, region).left, drawn(region.w, v.scale));
    lemma_sum(shown_at(v, region).top, drawn(region.h, v.scale));
    let (x, y, w, h) = (region.x as int, region.y as int, region.w as int, region.h as int);
    assert((x + w) * s == x * s + w * s && (y + h) * s == y * s + h * s) by (nonlinear_arith);
}

/// Panning moves every region by the distance panned, across and along, and changes no
/// region's size. Panning back undoes it.
pub proof fn lemma_panning_moves_every_region(
    v: View<Fixed>,
    dx: Fixed,
    dy: Fixed,
    region: Region,
)
    requires
        viewable(v),
        viewable(panned(v, dx, dy)),
        bounded(dx, 0x100_0000_0000_0000),
        bounded(dy, 0x100_0000_0000_0000),
    ensures
        ({
            let (before, after) = (shown_at(v, region), shown_at(panned(v, dx, dy), region));
            &&& after.left.raw == before.left.raw + dx.raw
            &&& after.right.raw == before.right.raw + dx.raw
            &&& after.top.raw == before.top.raw + dy.raw
            &&& after.bottom.raw == before.bottom.raw + dy.raw
        }),
        panned(
            panned(v, dx, dy),
            Fixed { raw: (-dx.raw) as i64 },
            Fixed { raw: (-dy.raw) as i64 },
        ) == v,
{
    lemma_sum(v.x, dx);
    lemma_sum(v.y, dy);
    let moved = panned(v, dx, dy);
    assert(moved.scale == v.scale && moved.x.raw == v.x.raw + dx.raw && moved.y.raw == v.y.raw
        + dy.raw);
    let (back_x, back_y) = (Fixed { raw: (-dx.raw) as i64 }, Fixed { raw: (-dy.raw) as i64 });
    lemma_sum(moved.x, back_x);
    lemma_sum(moved.y, back_y);
    assert(panned(moved, back_x, back_y) == v);
    lemma_shifted_regions(v, moved, dx.raw as int, dy.raw as int, region);
}

proof fn lemma_shifted_regions(v: View<Fixed>, moved: View<Fixed>, dx: int, dy: int, region: Region)
    requires
        viewable(v),
        viewable(moved),
        moved.scale == v.scale,
        moved.x.raw == v.x.raw + dx,
        moved.y.raw == v.y.raw + dy,
    ensures
        shown_at(moved, region).left.raw == shown_at(v, region).left.raw + dx,
        shown_at(moved, region).right.raw == shown_at(v, region).right.raw + dx,
        shown_at(moved, region).top.raw == shown_at(v, region).top.raw + dy,
        shown_at(moved, region).bottom.raw == shown_at(v, region).bottom.raw + dy,
{
    lemma_regions_are_shown_where_their_pixels_are(v, region);
    lemma_regions_are_shown_where_their_pixels_are(moved, region);
}

/// Something is centred between two ends: it leaves as much room on one side as on the
/// other, up to a step.
pub open spec fn centred_between(at: int, size: int, lo: int, hi: int) -> bool {
    -1 <= (at - lo) - (hi - (at + size)) <= 1
}

proof fn lemma_centred(lo: Fixed, hi: Fixed, size: Fixed)
    requires
        -0x1000_0000_0000 <= lo.raw <= hi.raw <= 0x1000_0000_0000,
        0 <= size.raw <= 0x2000_0000_0000,
    ensures
        centred_between(centred(lo, hi, size).raw as int, size.raw as int, lo.raw as int, hi.raw as int),
{
    lemma_whole(2);
    lemma_sum(lo, hi);
    let two = Fixed::spec_whole(2);
    lemma_quotient(lo.spec_plus(hi), two);
    lemma_quotient(size, two);
    lemma_difference(middle(lo, hi), size.spec_over(two));
}

/// Fitted to the pane, the whole source is inside it and centred on both axes. One step more
/// of scale would not fit.
#[verifier::spinoff_prover]
pub proof fn lemma_fitting_shows_the_whole_source(rect: Rect<Fixed>, info: FrameInfo)
    requires
        on_screen(rect),
        info.width > 0,
        info.height > 0,
        fit_of(rect, info).scale.raw <= 0x2000_0000,
    ensures
        ({
            let v = fit_of(rect, info);
            let (w, h) = (info.width * v.scale.raw, info.height * v.scale.raw);
            let (pane_w, pane_h) = (rect.right.raw - rect.left.raw, rect.bottom.raw - rect.top.raw);
            &&& 0 <= w <= pane_w
            &&& 0 <= h <= pane_h
            &&& info.width * (v.scale.raw + 1) > pane_w || info.height * (v.scale.raw + 1) > pane_h
            &&& centred_between(v.x.raw as int, w, rect.left.raw as int, rect.right.raw as int)
            &&& centred_between(v.y.raw as int, h, rect.top.raw as int, rect.bottom.raw as int)
        }),
{
    let v = fit_of(rect, info);
    let t = v.scale.raw as int;
    let (pane_w, pane_h) = (rect.right.raw - rect.left.raw, rect.bottom.raw - rect.top.raw);
    lemma_fit_scale(rect.left, rect.right, info.width);
    lemma_fit_scale(rect.top, rect.bottom, info.height);
    let across = rect.right.spec_minus(rect.left).spec_over(Fixed::spec_whole(info.width as i64));
    let along = rect.bottom.spec_minus(rect.top).spec_over(Fixed::spec_whole(info.height as i64));
    let (a, b, iw, ih) = (across.raw as int, along.raw as int, info.width as int, info.height as int);
    assert(t == a || t == b);
    assert(t <= a && t <= b);
    assert(iw * t <= iw * a && ih * t <= ih * b && 0 <= iw * t && 0 <= ih * t) by (nonlinear_arith)
        requires
            0 <= t,
            t <= a,
            t <= b,
            iw > 0,
            ih > 0,
    ;
    lemma_drawn(info.width, v.scale);
    lemma_drawn(info.height, v.scale);
    lemma_centred(rect.left, rect.right, drawn(info.width, v.scale));
    lemma_centred(rect.top, rect.bottom, drawn(info.height, v.scale));
}

proof fn lemma_fit_scale(lo: Fixed, hi: Fixed, pixels: u32)
    requires
        -0x1000_0000_0000 <= lo.raw <= hi.raw <= 0x1000_0000_0000,
        pixels > 0,
    ensures
        ({
            let t = hi.spec_minus(lo).spec_over(Fixed::spec_whole(pixels as i64)).raw;
            0 <= t && pixels * t <= hi.raw - lo.raw < pixels * (t + 1)
        }),
{
    lemma_difference(hi, lo);
    lemma_whole(pixels as int);
    let (n, p) = (hi.raw - lo.raw, pixels as int);
    let d = Fixed::spec_whole(pixels as i64);
    lemma_quotient(hi.spec_minus(lo), d);
    let t = hi.spec_minus(lo).spec_over(d).raw as int;
    assert(0 <= t && p * t <= n < p * (t + 1)) by (nonlinear_arith)
        requires
            (p * 65536) * t <= n * 65536 < (p * 65536) * t + p * 65536,
            p > 0,
            n >= 0,
    ;
}

/// A source that is brought back covers the pane on every axis on which it is larger than
/// the pane, and is moved no further than that takes. On the others it is centred, wherever
/// it had been.
#[verifier::spinoff_prover]
pub proof fn lemma_nothing_is_panned_past_its_edge(
    v: View<Fixed>,
    rect: Rect<Fixed>,
    info: FrameInfo,
)
    requires
        on_screen(rect),
        viewable(v),
        info.width * v.scale.raw <= 0x2000_0000_0000,
        info.height * v.scale.raw <= 0x2000_0000_0000,
    ensures
        ({
            let after = brought_back(v, rect, info);
            &&& after.scale == v.scale
            &&& placed_well(
                v.x.raw as int,
                after.x.raw as int,
                info.width * v.scale.raw,
                rect.left.raw as int,
                rect.right.raw as int,
            )
            &&& placed_well(
                v.y.raw as int,
                after.y.raw as int,
                info.height * v.scale.raw,
                rect.top.raw as int,
                rect.bottom.raw as int,
            )
        }),
{
    lemma_drawn(info.width, v.scale);
    lemma_drawn(info.height, v.scale);
    lemma_settled(v.x, rect.left, rect.right, drawn(info.width, v.scale));
    lemma_settled(v.y, rect.top, rect.bottom, drawn(info.height, v.scale));
}

/// Does an edge that was at `from` and is `size` long end up well at `at`, between two ends?
pub open spec fn placed_well(from: int, at: int, size: int, lo: int, hi: int) -> bool {
    if size > hi - lo {
        &&& at <= lo
        &&& hi <= at + size
        &&& from <= lo && hi <= from + size ==> at == from
        &&& from > lo ==> at == lo
        &&& from + size < hi ==> at + size == hi
    } else {
        centred_between(at, size, lo, hi)
    }
}

proof fn lemma_settled(v: Fixed, lo: Fixed, hi: Fixed, size: Fixed)
    requires
        -0x1000_0000_0000 <= lo.raw <= hi.raw <= 0x1000_0000_0000,
        0 <= size.raw <= 0x2000_0000_0000,
    ensures
        placed_well(
            v.raw as int,
            settled(v, lo, hi, size).raw as int,
            size.raw as int,
            lo.raw as int,
            hi.raw as int,
        ),
{
    lemma_difference(hi, lo);
    lemma_difference(hi, size);
    if size.raw <= hi.raw - lo.raw {
        lemma_centred(lo, hi, size);
    }
}

/// What is `from` steps from the pointer at one scale is `to` steps from it at another, as
/// far from it in source pixels, up to what rounding takes: less than a step on the screen,
/// and less than a step in the factor.
pub open spec fn same_pixel(from: int, scale: int, to: int, rescale: int) -> bool {
    let size = if from < 0 {
        -from
    } else {
        from
    };
    let off = 65536 * (from * rescale - to * scale);
    -(size * scale) <= off <= 65536 * scale + size * scale
}

/// Zooming scales by the factor, between fitting the pane and the furthest zoom, and keeps
/// what is under the pointer under it, across and along.
#[verifier::spinoff_prover]
pub proof fn lemma_zooming_keeps_what_is_under_the_pointer(
    v: View<Fixed>,
    rect: Rect<Fixed>,
    info: FrameInfo,
    px: Fixed,
    py: Fixed,
    factor: Fixed,
)
    requires
        on_screen(rect),
        info.width > 0,
        info.height > 0,
        0 < v.scale.raw <= 4 * 65536,
        bounded(v.x, 0x400_0000_0000),
        bounded(v.y, 0x400_0000_0000),
        bounded(px, 0x400_0000_0000),
        bounded(py, 0x400_0000_0000),
        0 <= factor.raw <= 0x1_0000_0000,
    ensures
        ({
            let after = zoomed(v, rect, info, px, py, factor);
            let (least, wanted) = (fit_scale(rect, info).raw, v.scale.raw * factor.raw / 65536);
            let (from, to) = (v.scale.raw as int, after.scale.raw as int);
            &&& 0 <= to <= 4 * 65536
            &&& least <= 4 * 65536 ==> least <= to
            &&& least <= wanted <= 4 * 65536 ==> to == wanted
            &&& wanted < least <= 4 * 65536 ==> to == least
            &&& (wanted > 4 * 65536 || least > 4 * 65536) ==> to == 4 * 65536
            &&& same_pixel(v.x.raw - px.raw, from, after.x.raw - px.raw, to)
            &&& same_pixel(v.y.raw - py.raw, from, after.y.raw - py.raw, to)
        }),
{
    lemma_whole(4);
    lemma_fit_scale(rect.left, rect.right, info.width);
    lemma_fit_scale(rect.top, rect.bottom, info.height);
    let (s, f) = (v.scale.raw as int, factor.raw as int);
    assert(0 <= s * f <= 4 * 65536 * 0x1_0000_0000) by (nonlinear_arith)
        requires
            0 < s <= 4 * 65536,
            0 <= f <= 0x1_0000_0000,
    ;
    lemma_product_of(v.scale, factor);
    let t = zoomed(v, rect, info, px, py, factor).scale;
    lemma_rescaled(v.x, px, v.scale, t);
    lemma_rescaled(v.y, py, v.scale, t);
}

#[verifier::spinoff_prover]
proof fn lemma_rescaled(x: Fixed, p: Fixed, scale: Fixed, rescale: Fixed)
    requires
        0 < scale.raw <= 4 * 65536,
        0 <= rescale.raw <= 4 * 65536,
        bounded(x, 0x400_0000_0000),
        bounded(p, 0x400_0000_0000),
    ensures
        ({
            let at = p.spec_plus(x.spec_minus(p).spec_times(rescale.spec_over(scale)));
            same_pixel(
                x.raw - p.raw,
                scale.raw as int,
                at.raw - p.raw,
                rescale.raw as int,
            )
        }),
{
    lemma_difference(x, p);
    lemma_quotient(rescale, scale);
    let applied = rescale.spec_over(scale);
    let (s, t, d, a) = (
        scale.raw as int,
        rescale.raw as int,
        x.raw - p.raw,
        applied.raw as int,
    );
    let sa = s * a;
    assert(0 <= a <= 0x4_0000_0000) by (nonlinear_arith)
        requires
            sa == s * a,
            sa <= t * 65536 < sa + s,
            0 < s,
            0 <= t <= 4 * 65536,
    ;
    let da = d * a;
    assert(-0x2000_0000_0000_0000_0000 <= da <= 0x2000_0000_0000_0000_0000) by (nonlinear_arith)
        requires
            da == d * a,
            0 <= a <= 0x4_0000_0000,
            -0x800_0000_0000 <= d <= 0x800_0000_0000,
    ;
    lemma_product_of(x.spec_minus(p), applied);
    let m = da / 65536;
    lemma_sum(p, x.spec_minus(p).spec_times(applied));
    let size = if d < 0 {
        -d
    } else {
        d
    };
    lemma_off(s, t, d, a, m, size);
}

proof fn lemma_off(s: int, t: int, d: int, a: int, m: int, size: int)
    requires
        0 < s,
        s * a <= t * 65536 < s * a + s,
        0 <= d * a - 65536 * m < 65536,
        size == if d < 0 {
            -d
        } else {
            d
        },
    ensures
        -(size * s) <= 65536 * (d * t - m * s) <= 65536 * s + size * s,
{
    let (e, r) = (t * 65536 - s * a, d * a - 65536 * m);
    assert(65536 * (d * t - m * s) == s * r + d * e) by (nonlinear_arith)
        requires
            e == t * 65536 - s * a,
            r == d * a - 65536 * m,
    ;
    assert(0 <= s * r <= 65536 * s) by (nonlinear_arith)
        requires
            0 < s,
            0 <= r < 65536,
    ;
    assert(-(size * s) <= d * e <= size * s) by (nonlinear_arith)
        requires
            0 <= e < s,
            -size <= d <= size,
            0 <= size,
    ;
}

/// A picture fitted to some bounds is inside them, no larger than it was, and keeps its
/// shape up to what rounding takes. It is as large as it was, or fills a bound up to a step
/// of the scale.
#[verifier::spinoff_prover]
pub proof fn lemma_pictures_are_fitted_in_shape(
    width: Fixed,
    height: Fixed,
    bound_x: Fixed,
    bound_y: Fixed,
)
    requires
        0 < width.raw <= 0x1000_0000_0000,
        0 < height.raw <= 0x1000_0000_0000,
        0 <= bound_x.raw <= 0x1000_0000_0000,
        0 <= bound_y.raw <= 0x1000_0000_0000,
    ensures
        ({
            let (w, h) = fitted(width, height, bound_x, bound_y);
            &&& 0 <= w.raw <= width.raw
            &&& 0 <= h.raw <= height.raw
            &&& w.raw <= bound_x.raw
            &&& h.raw <= bound_y.raw
            &&& -height.raw < w.raw * height.raw - h.raw * width.raw < width.raw
            &&& w == width && h == height || 65536 * (bound_x.raw - w.raw) < width.raw + 65536
                || 65536 * (bound_y.raw - h.raw) < height.raw + 65536
        }),
{
    lemma_whole(1);
    lemma_quotient(bound_x, width);
    lemma_quotient(bound_y, height);
    let (a, b) = (bound_x.spec_over(width), bound_y.spec_over(height));
    let scale = lesser(lesser(a, b), Fixed::spec_whole(1));
    let (k, cw, ch) = (scale.raw as int, width.raw as int, height.raw as int);
    lemma_within(cw, a.raw as int, k, bound_x.raw as int);
    lemma_within(ch, b.raw as int, k, bound_y.raw as int);
    lemma_part(width, scale, cw);
    lemma_part(height, scale, ch);
    let (w, h) = (width.spec_times(scale).raw as int, height.spec_times(scale).raw as int);
    let (wk, hk) = (cw * k, ch * k);
    assert(0 <= wk <= 65536 * cw && 0 <= hk <= 65536 * ch) by (nonlinear_arith)
        requires
            wk == cw * k,
            hk == ch * k,
            0 <= k <= 65536,
            0 < cw,
            0 < ch,
    ;
    assert(-ch < w * ch - h * cw < cw) by (nonlinear_arith)
        requires
            cw * k - 65536 < 65536 * w <= cw * k,
            ch * k - 65536 < 65536 * h <= ch * k,
            0 < cw,
            0 < ch,
    ;
}

proof fn lemma_within(n: int, q: int, k: int, bound: int)
    requires
        0 < n,
        0 <= bound,
        n * q <= bound * 65536 < n * q + n,
        k <= q,
    ensures
        0 <= q,
        n * k <= bound * 65536,
        k == q ==> bound * 65536 < n * k + n,
{
    assert(0 <= q && n * k <= n * q) by (nonlinear_arith)
        requires
            0 < n,
            0 <= bound,
            bound * 65536 < n * q + n,
            k <= q,
    ;
}

/// Is a source pixel along one axis to be decoded: is some of it between the two ends of the
/// pane, or all of it no further from them than a quarter of the pane?
pub open spec fn wanted_at(q: int, origin: int, scale: int, lo: int, hi: int) -> bool {
    let (from, to) = (origin + q * scale, origin + (q + 1) * scale);
    &&& lo < to || 5 * lo - hi <= 4 * from
    &&& from < hi || 4 * to <= 5 * hi - lo
}

/// Whatever can be seen is decoded, and a quarter of the pane around it: a source pixel that
/// is on the screen, or within that distance of it, is in the region that is asked for, across
/// and along. The region is inside the source where it starts inside it, and it is decoded at
/// a screen pixel for each of its own, within what a texture should hold.
#[verifier::spinoff_prover]
pub proof fn lemma_what_is_visible_is_decoded(
    v: View<Fixed>,
    rect: Rect<Fixed>,
    info: FrameInfo,
    x: int,
    y: int,
)
    requires
        on_screen(rect),
        0 < v.scale.raw <= 4 * 65536,
        bounded(v.x, 0x1000_0000_0000),
        bounded(v.y, 0x1000_0000_0000),
        0 <= x < info.width,
        0 <= y < info.height,
    ensures
        ({
            let (region, width) = wanted(v, rect, info);
            let scale = v.scale.raw as int;
            let shown = region.w * v.scale.raw / 65536;
            &&& wanted_at(x, v.x.raw as int, scale, rect.left.raw as int, rect.right.raw as int)
                ==> region.x <= x < region.x + region.w
            &&& wanted_at(y, v.y.raw as int, scale, rect.top.raw as int, rect.bottom.raw as int)
                ==> region.y <= y < region.y + region.h
            &&& region.x < info.width ==> region.x + region.w <= info.width
            &&& region.y < info.height ==> region.y + region.h <= info.height
            &&& 256 <= width <= 4096
            &&& 256 <= shown <= 4096 ==> width == shown
        }),
{
    lemma_span(v.x, v.scale, rect.left, rect.right, info.width as int, x);
    lemma_span(v.y, v.scale, rect.top, rect.bottom, info.height as int, y);
    let region = wanted(v, rect, info).0;
    lemma_drawn(region.w, v.scale);
    lemma_whole(0);
}

/// A quarter of a distance, rounded down.
proof fn lemma_quarter(d: Fixed)
    requires
        0 <= d.raw <= 0x4000_0000_0000_0000,
    ensures
        d.spec_times(Fixed::spec_whole(1).spec_over(Fixed::spec_whole(4))).raw == d.raw / 4,
{
    lemma_whole(1);
    lemma_whole(4);
    lemma_quotient(Fixed::spec_whole(1), Fixed::spec_whole(4));
    let quarter = Fixed::spec_whole(1).spec_over(Fixed::spec_whole(4));
    assert(quarter.raw == 16384);
    lemma_product_of(d, quarter);
}

proof fn lemma_pixel(v: Fixed)
    ensures
        pixel_of(v) == if v.raw < 0 {
            0
        } else if v.raw / 65536 > u32::MAX {
            u32::MAX as int
        } else {
            v.raw / 65536
        },
{
    lemma_whole(0);
}

#[verifier::spinoff_prover]
proof fn lemma_span(origin: Fixed, scale: Fixed, lo: Fixed, hi: Fixed, limit: int, q: int)
    requires
        -0x1000_0000_0000 <= lo.raw <= hi.raw <= 0x1000_0000_0000,
        0 < scale.raw <= 4 * 65536,
        bounded(origin, 0x1000_0000_0000),
        0 <= q < limit <= u32::MAX,
    ensures
        ({
            let (start, length) = span_of(origin, scale, lo, hi, limit);
            &&& 0 <= start <= u32::MAX
            &&& 1 <= length <= u32::MAX
            &&& start < limit ==> start + length <= limit
            &&& wanted_at(q, origin.raw as int, scale.raw as int, lo.raw as int, hi.raw as int)
                ==> start <= q < start + length
        }),
{
    lemma_difference(lo, origin);
    lemma_difference(hi, origin);
    lemma_quotient(lo.spec_minus(origin), scale);
    lemma_quotient(hi.spec_minus(origin), scale);
    let from = lo.spec_minus(origin).spec_over(scale);
    let to = hi.spec_minus(origin).spec_over(scale);
    let (a, b, s) = (lo.raw - origin.raw, hi.raw - origin.raw, scale.raw as int);
    let (f, t) = (from.raw as int, to.raw as int);
    assert(f <= t && -0x2000_0000_0000_0000 <= f && t <= 0x2000_0000_0000_0000)
        by (nonlinear_arith)
        requires
            s * f <= a * 65536 < s * f + s,
            s * t <= b * 65536 < s * t + s,
            a <= b,
            s > 0,
            -0x2000_0000_0000 <= a,
            b <= 0x2000_0000_0000,
    ;
    lemma_difference(to, from);
    lemma_quarter(to.spec_minus(from));
    let pad = to.spec_minus(from).spec_times(Fixed::spec_whole(1).spec_over(Fixed::spec_whole(4)));
    lemma_difference(from, pad);
    lemma_sum(to, pad);
    lemma_pixel(from.spec_minus(pad));
    lemma_pixel(to.spec_plus(pad));
    let (p0, p1) = (pixel_of(from.spec_minus(pad)), pixel_of(to.spec_plus(pad)));
    let grid = grid_of(scale);
    lemma_snapping_widens(p0, p1, grid, limit);
    assert(0 <= snap_down(p0, grid)) by (nonlinear_arith)
        requires
            snap_down(p0, grid) == p0 / grid * grid,
            p0 >= 0,
            grid >= 1,
    ;
    if wanted_at(q, origin.raw as int, s, lo.raw as int, hi.raw as int) {
        lemma_reached(a, b, s, f, t, pad.raw as int, q);
    }
}

proof fn lemma_reached(a: int, b: int, s: int, f: int, t: int, pad: int, q: int)
    requires
        s * f <= a * 65536 < s * f + s,
        s * t <= b * 65536 < s * t + s,
        a <= b,
        f <= t,
        s > 0,
        q >= 0,
        pad == (t - f) / 4,
        a < (q + 1) * s || 5 * a - b <= 4 * (q * s),
        q * s < b || 4 * ((q + 1) * s) <= 5 * b - a,
    ensures
        f - pad < (q + 1) * 65536,
        q * 65536 <= t + pad,
{
    assert((q + 1) * s == q * s + s) by (nonlinear_arith);
    let qs = q * s;
    if f - pad >= (q + 1) * 65536 {
        let sum = f - pad;
        assert(s * sum >= (qs + s) * 65536) by (nonlinear_arith)
            requires
                sum >= (q + 1) * 65536,
                qs == q * s,
                s > 0,
        ;
        assert(s * sum == s * f - s * pad && s * (4 * pad) == 4 * (s * pad) && s * pad >= 0)
            by (nonlinear_arith)
            requires
                sum == f - pad,
                s > 0,
                pad >= 0,
        ;
        assert(s * (4 * pad) >= s * t - s * f - 3 * s) by (nonlinear_arith)
            requires
                4 * pad >= t - f - 3,
                s > 0,
        ;
    }
    if q * 65536 > t + pad {
        let sum = t + pad;
        assert(s * sum <= qs * 65536 - s) by (nonlinear_arith)
            requires
                sum <= q * 65536 - 1,
                qs == q * s,
                s > 0,
        ;
        assert(s * sum == s * t + s * pad && s * (4 * pad) == 4 * (s * pad) && s * pad >= 0)
            by (nonlinear_arith)
            requires
                sum == t + pad,
                s > 0,
                pad >= 0,
        ;
        assert(s * (4 * pad) >= s * t - s * f - 3 * s) by (nonlinear_arith)
            requires
                4 * pad >= t - f - 3,
                s > 0,
        ;
    }
}

} // verus!
