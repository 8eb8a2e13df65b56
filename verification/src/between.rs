//! What a sample between pixels is: the mean of the four around the point, weighted by how
//! near each is, along both axes alike.

use vstd::prelude::*;
use crate::covering::{lemma_source_on, moderate, source_on};
use crate::fusion::warped_texel;
use crate::grid::{displaced, islanded, moved};
use crate::image::clamped;
use crate::pipeline::{inverse_of, Transform};
use crate::plane::{banded, bilinear, cell, edge_cell, lemma_cell, source_point, warped_sheet, Sheet};
use crate::rounding::{bounded, lemma_difference, lemma_part, lemma_sum, lemma_whole};
use crate::sample::{Fixed, Sample};

verus! {

/// The pixel that a coordinate lies in.
pub open spec fn pixel_at(v: Fixed) -> int {
    v.raw as int / 65536
}

/// How far into its pixel a coordinate lies, in steps.
pub open spec fn past(v: Fixed) -> int {
    v.raw as int % 65536
}

/// The four samples around a point, each weighted by the area between the point and the
/// corner across from it. A whole pixel has an area of 65536 times 65536.
pub open spec fn area_weighted(get: spec_fn(int, int) -> Fixed, x: Fixed, y: Fixed) -> int {
    let (i, j, u, v) = (pixel_at(x), pixel_at(y), past(x), past(y));
    get(i, j).raw * ((65536 - u) * (65536 - v)) + get(i + 1, j).raw * (u * (65536 - v)) + get(
        i,
        j + 1,
    ).raw * ((65536 - u) * v) + get(i + 1, j + 1).raw * (u * v)
}

/// Are the four samples around a point at most `m` steps from zero?
pub open spec fn corners_bounded(get: spec_fn(int, int) -> Fixed, x: Fixed, y: Fixed, m: int) -> bool {
    let (i, j) = (pixel_at(x), pixel_at(y));
    bounded(get(i, j), m) && bounded(get(i + 1, j), m) && bounded(get(i, j + 1), m) && bounded(
        get(i + 1, j + 1),
        m,
    )
}

proof fn lemma_coordinate(v: Fixed)
    requires
        bounded(v, 0x4000_0000_0000_0000),
    ensures
        v.spec_floor().raw == pixel_at(v) * 65536,
        v.spec_floor().spec_index() == pixel_at(v),
        v.spec_minus(v.spec_floor()).raw == past(v),
        0 <= past(v) < 65536,
        Fixed::spec_whole(1).spec_minus(v.spec_minus(v.spec_floor())).raw == 65536 - past(v),
        v.raw == pixel_at(v) * 65536 + past(v),
{
    lemma_whole(1);
}

/// Two samples mixed, in whole numbers.
proof fn lemma_mix(a: Fixed, b: Fixed, near: Fixed, far: Fixed, m: int)
    requires
        bounded(a, m),
        bounded(b, m),
        0 <= m <= 0x1000_0000_0000_0000,
        0 <= far.raw <= 65536,
        near.raw == 65536 - far.raw,
    ensures
        ({
            let r = a.spec_times(near).spec_plus(b.spec_times(far));
            let sum = a.raw * near.raw + b.raw * far.raw;
            &&& sum - 131072 < 65536 * r.raw <= sum
            &&& bounded(r, 2 * m)
        }),
{
    lemma_part(a, near, m);
    lemma_part(b, far, m);
    lemma_sum(a.spec_times(near), b.spec_times(far));
}

/// A bilinear sample is the mean of the four samples around the point, weighted by area,
/// rounded down by less than four steps.
#[verifier::spinoff_prover]
pub proof fn lemma_sample_is_weighted_by_area(
    get: spec_fn(int, int) -> Fixed,
    x: Fixed,
    y: Fixed,
    m: int,
)
    requires
        0 <= m <= 0x400_0000_0000_0000,
        corners_bounded(get, x, y, m),
        bounded(x, 0x4000_0000_0000_0000),
        bounded(y, 0x4000_0000_0000_0000),
    ensures
        area_weighted(get, x, y) - 0x4_0000_0000 < 0x1_0000_0000 * bilinear(get, x, y).raw
            <= area_weighted(get, x, y),
{
    lemma_coordinate(x);
    lemma_coordinate(y);
    let (i, j, u, v) = (pixel_at(x), pixel_at(y), past(x), past(y));
    let one = Fixed::spec_whole(1);
    let (fx, fy) = (x.spec_minus(x.spec_floor()), y.spec_minus(y.spec_floor()));
    let (gx, gy) = (one.spec_minus(fx), one.spec_minus(fy));
    let (a, b, c, d) = (get(i, j), get(i + 1, j), get(i, j + 1), get(i + 1, j + 1));
    lemma_mix(a, b, gx, fx, m);
    lemma_mix(c, d, gx, fx, m);
    let top = a.spec_times(gx).spec_plus(b.spec_times(fx));
    let bottom = c.spec_times(gx).spec_plus(d.spec_times(fx));
    lemma_mix(top, bottom, gy, fy, 2 * m);
    let r = top.spec_times(gy).spec_plus(bottom.spec_times(fy));
    assert(r == bilinear(get, x, y));
    let (t, s) = (a.raw * (65536 - u) + b.raw * u, c.raw * (65536 - u) + d.raw * u);
    lemma_two_mixes(t, s, top.raw as int, bottom.raw as int, r.raw as int, v);
    lemma_expand_mixes(a.raw as int, b.raw as int, c.raw as int, d.raw as int, u, v);
}

proof fn lemma_two_mixes(t: int, s: int, top: int, bottom: int, r: int, v: int)
    requires
        0 <= v < 65536,
        t - 131072 < 65536 * top <= t,
        s - 131072 < 65536 * bottom <= s,
        top * (65536 - v) + bottom * v - 131072 < 65536 * r <= top * (65536 - v) + bottom * v,
    ensures
        t * (65536 - v) + s * v - 0x4_0000_0000 < 0x1_0000_0000 * r <= t * (65536 - v) + s * v,
{
    let n = 65536 - v;
    let (a, b) = (top * n, bottom * v);
    let (p, q) = (t * n, s * v);
    assert(p - 131071 * n <= 65536 * a <= p) by (nonlinear_arith)
        requires
            t - 131071 <= 65536 * top <= t,
            0 <= n,
            a == top * n,
            p == t * n,
    ;
    assert(q - 131071 * v <= 65536 * b <= q) by (nonlinear_arith)
        requires
            s - 131071 <= 65536 * bottom <= s,
            0 <= v,
            b == bottom * v,
            q == s * v,
    ;
}

proof fn lemma_expand_mixes(a: int, b: int, c: int, d: int, u: int, v: int)
    ensures
        (a * (65536 - u) + b * u) * (65536 - v) + (c * (65536 - u) + d * u) * v == a * ((65536 - u)
            * (65536 - v)) + b * (u * (65536 - v)) + c * ((65536 - u) * v) + d * (u * v),
{
    assert((a * (65536 - u) + b * u) * (65536 - v) == a * ((65536 - u) * (65536 - v)) + b * (u * (
    65536 - v))) by (nonlinear_arith);
    assert((c * (65536 - u) + d * u) * v == c * ((65536 - u) * v) + d * (u * v))
        by (nonlinear_arith);
}

/// Sampling prefers no axis: with rows and columns exchanged, in the source and in the point,
/// the sample stays what it is, but for less than four steps of rounding.
#[verifier::spinoff_prover]
pub proof fn lemma_sampling_prefers_no_axis(
    get: spec_fn(int, int) -> Fixed,
    turned: spec_fn(int, int) -> Fixed,
    x: Fixed,
    y: Fixed,
    m: int,
)
    requires
        0 <= m <= 0x400_0000_0000_0000,
        corners_bounded(get, x, y, m),
        forall|i: int, j: int| #[trigger] turned(j, i) == get(i, j),
        bounded(x, 0x4000_0000_0000_0000),
        bounded(y, 0x4000_0000_0000_0000),
    ensures
        -4 < bilinear(turned, y, x).raw - bilinear(get, x, y).raw < 4,
{
    lemma_sample_is_weighted_by_area(get, x, y, m);
    lemma_sample_is_weighted_by_area(turned, y, x, m);
    lemma_areas_turn(get, turned, x, y);
    lemma_apart(
        area_weighted(get, x, y),
        bilinear(get, x, y).raw as int,
        bilinear(turned, y, x).raw as int,
    );
}

proof fn lemma_areas_turn(
    get: spec_fn(int, int) -> Fixed,
    turned: spec_fn(int, int) -> Fixed,
    x: Fixed,
    y: Fixed,
)
    requires
        forall|i: int, j: int| #[trigger] turned(j, i) == get(i, j),
    ensures
        area_weighted(turned, y, x) == area_weighted(get, x, y),
{
    let (u, v) = (past(x), past(y));
    assert(u * v == v * u) by (nonlinear_arith);
    assert(u * (65536 - v) == (65536 - v) * u) by (nonlinear_arith);
    assert((65536 - u) * v == v * (65536 - u)) by (nonlinear_arith);
    assert((65536 - u) * (65536 - v) == (65536 - v) * (65536 - u)) by (nonlinear_arith);
}

proof fn lemma_apart(f: int, r: int, s: int)
    requires
        f - 0x4_0000_0000 < 0x1_0000_0000 * r <= f,
        f - 0x4_0000_0000 < 0x1_0000_0000 * s <= f,
    ensures
        -4 < s - r < 4,
{
}

/// A slope is sampled where the point lies on it, along either axis: on a plane that rises by
/// `a` steps a column and `b` steps a row from `c`, the sample at `(x, y)` is its height
/// there, rounded down by less than four steps.
#[verifier::spinoff_prover]
pub proof fn lemma_slopes_are_sampled_at_the_point(
    get: spec_fn(int, int) -> Fixed,
    x: Fixed,
    y: Fixed,
    a: int,
    b: int,
    c: int,
    m: int,
)
    requires
        0 <= m <= 0x400_0000_0000_0000,
        corners_bounded(get, x, y, m),
        forall|i: int, j: int| (#[trigger] get(i, j)).raw == a * i + b * j + c,
        bounded(x, 0x4000_0000_0000_0000),
        bounded(y, 0x4000_0000_0000_0000),
    ensures
        a * x.raw + b * y.raw + c * 65536 - 262144 < 65536 * bilinear(get, x, y).raw <= a * x.raw
            + b * y.raw + c * 65536,
{
    lemma_sample_is_weighted_by_area(get, x, y, m);
    lemma_coordinate(x);
    lemma_coordinate(y);
    let (i, j, u, v) = (pixel_at(x), pixel_at(y), past(x), past(y));
    let (p, q) = (65536 - u, 65536 - v);
    let z = a * i + b * j + c;
    assert(get(i, j).raw == z);
    assert(get(i + 1, j).raw == z + a) by (nonlinear_arith)
        requires
            get(i + 1, j).raw == a * (i + 1) + b * j + c,
            z == a * i + b * j + c,
    ;
    assert(get(i, j + 1).raw == z + b) by (nonlinear_arith)
        requires
            get(i, j + 1).raw == a * i + b * (j + 1) + c,
            z == a * i + b * j + c,
    ;
    assert(get(i + 1, j + 1).raw == z + a + b) by (nonlinear_arith)
        requires
            get(i + 1, j + 1).raw == a * (i + 1) + b * (j + 1) + c,
            z == a * i + b * j + c,
    ;
    let w = z * 65536 + a * u + b * v;
    lemma_slope_adds_up(z, a, b, u, v);
    assert(area_weighted(get, x, y) == 65536 * w);
    let (s, t) = (a * x.raw, b * y.raw);
    assert(s == (a * i) * 65536 + a * u) by (nonlinear_arith)
        requires
            s == a * x.raw,
            x.raw == i * 65536 + u,
    ;
    assert(t == (b * j) * 65536 + b * v) by (nonlinear_arith)
        requires
            t == b * y.raw,
            y.raw == j * 65536 + v,
    ;
    assert(w == s + t + c * 65536);
}

proof fn lemma_slope_adds_up(z: int, a: int, b: int, u: int, v: int)
    ensures
        z * ((65536 - u) * (65536 - v)) + (z + a) * (u * (65536 - v)) + (z + b) * ((65536 - u) * v)
            + (z + a + b) * (u * v) == 65536 * (z * 65536 + a * u + b * v),
{
    let (p, q) = (65536 - u, 65536 - v);
    let (e, f, g, h) = (p * q, u * q, p * v, u * v);
    assert(e + f == 65536 * q) by (nonlinear_arith)
        requires
            e == p * q,
            f == u * q,
            p + u == 65536,
    ;
    assert(g + h == 65536 * v) by (nonlinear_arith)
        requires
            g == p * v,
            h == u * v,
            p + u == 65536,
    ;
    assert(f + h == 65536 * u) by (nonlinear_arith)
        requires
            f == u * q,
            h == u * v,
            q + v == 65536,
    ;
    assert((z + a) * f == z * f + a * f) by (nonlinear_arith);
    assert((z + b) * g == z * g + b * g) by (nonlinear_arith);
    assert((z + a + b) * h == z * h + a * h + b * h) by (nonlinear_arith);
    assert(z * e + z * f + z * g + z * h == z * (e + f + g + h)) by (nonlinear_arith);
    assert(a * f + a * h == a * (f + h)) by (nonlinear_arith);
    assert(b * g + b * h == b * (g + h)) by (nonlinear_arith);
    let all = e + f + g + h;
    assert(all == 0x1_0000_0000);
    assert(z * all == 0x1_0000_0000 * z) by (nonlinear_arith)
        requires
            all == 0x1_0000_0000,
    ;
    assert(a * (f + h) == 65536 * (a * u)) by (nonlinear_arith)
        requires
            f + h == 65536 * u,
    ;
    assert(b * (g + h) == 65536 * (b * v)) by (nonlinear_arith)
        requires
            g + h == 65536 * v,
    ;
}

/// On a pixel, the sample is the pixel.
pub proof fn lemma_pixels_are_sampled_as_they_are(get: spec_fn(int, int) -> Fixed, i: int, j: int)
    requires
        -0x4000_0000_0000 <= i <= 0x4000_0000_0000,
        -0x4000_0000_0000 <= j <= 0x4000_0000_0000,
        bounded(get(i, j), 0x1000_0000_0000_0000),
    ensures
        bilinear(get, Fixed { raw: (i * 65536) as i64 }, Fixed { raw: (j * 65536) as i64 })
            == get(i, j),
{
    let (x, y) = (Fixed { raw: (i * 65536) as i64 }, Fixed { raw: (j * 65536) as i64 });
    lemma_coordinate(x);
    lemma_coordinate(y);
    assert(pixel_at(x) == i && past(x) == 0);
    assert(pixel_at(y) == j && past(y) == 0);
    let one = Fixed::spec_whole(1);
    let (fx, fy) = (x.spec_minus(x.spec_floor()), y.spec_minus(y.spec_floor()));
    let (a, b, c, d) = (get(i, j), get(i + 1, j), get(i, j + 1), get(i + 1, j + 1));
    lemma_nothing_of(b, fx);
    lemma_nothing_of(d, fx);
    lemma_all_of(a, one.spec_minus(fx));
    let top = a.spec_times(one.spec_minus(fx)).spec_plus(b.spec_times(fx));
    assert(top == a);
    let bottom = c.spec_times(one.spec_minus(fx)).spec_plus(d.spec_times(fx));
    lemma_nothing_of(bottom, fy);
    lemma_all_of(top, one.spec_minus(fy));
}

proof fn lemma_nothing_of(v: Fixed, f: Fixed)
    requires
        f.raw == 0,
    ensures
        v.spec_times(f).raw == 0,
{
    assert(v.raw * f.raw == 0) by (nonlinear_arith)
        requires
            f.raw == 0,
    ;
}

proof fn lemma_all_of(v: Fixed, f: Fixed)
    requires
        f.raw == 65536,
    ensures
        v.spec_times(f) == v,
{
    assert(v.raw * f.raw == v.raw * 65536);
    assert((v.raw * 65536) / 65536 == v.raw);
}

/// A frame that is only shifted is read exactly its shift away: to the right of a pixel for a
/// shift to the right, and below it for one down.
pub proof fn lemma_shifts_move_by_their_size(t: Transform<Fixed>, w: int, h: int, x: int, y: int)
    requires
        moderate(t),
        t.scale.raw == 65536,
        0 <= x < w <= u32::MAX,
        0 <= y < h <= u32::MAX,
    ensures
        source_point(t, w, h, x, y).0.raw == x * 65536 + t.dx.raw,
        source_point(t, w, h, x, y).1.raw == y * 65536 + t.dy.raw,
{
    lemma_source_on(t, w, h, x, y);
    lemma_unscaled(t.dx.raw as int, w, x);
    lemma_unscaled(t.dy.raw as int, h, y);
}

proof fn lemma_unscaled(d: int, size: int, p: int)
    ensures
        source_on(65536, d, size, p) == p * 65536 + d,
{
    let v = p * 65536 - size * 32768;
    assert((65536 * v) / 65536 == v);
}

/// A frame shifted by whole pixels is the frame, moved: each pixel is the one that many
/// columns to the right and rows below, and past the border the nearest one on it.
#[verifier::spinoff_prover]
pub proof fn lemma_whole_shifts_move_frames(
    t: Transform<Fixed>,
    frame: Seq<Fixed>,
    w: int,
    h: int,
    right: int,
    down: int,
    x: int,
    y: int,
    ch: int,
)
    requires
        moderate(t),
        t.scale.raw == 65536,
        t.dx.raw == right * 65536,
        t.dy.raw == down * 65536,
        0 <= x < w <= u32::MAX,
        0 <= y < h <= u32::MAX,
        0 <= ch < 3,
        frame.len() == w * h * 3,
        forall|i: int| 0 <= i < frame.len() ==> bounded(#[trigger] frame[i], 0x1000_0000_0000_0000),
    ensures
        warped_texel(t, w, h, frame, 0, h, x, y, ch) == frame[(clamped(y + down, 0, h - 1) * w
            + clamped(x + right, 0, w - 1)) * 3 + ch],
{
    lemma_shifts_move_by_their_size(t, w, h, x, y);
    let get = |ix: int, iy: int| banded(frame, w, 3, 0, h, ix, iy, ch);
    let (i, j) = (x + right, y + down);
    let (a, b) = (clamped(i, 0, w - 1), clamped(j, 0, h - 1));
    crate::layout::lemma_sample(a, b, ch, w, h, 3);
    assert(b * (w * 3) + (a * 3 + ch) == (b * w + a) * 3 + ch) by (nonlinear_arith);
    assert(get(i, j) == frame[(b * w + a) * 3 + ch]);
    assert(source_point(t, w, h, x, y).0 == Fixed { raw: (i * 65536) as i64 });
    assert(source_point(t, w, h, x, y).1 == Fixed { raw: (j * 65536) as i64 });
    lemma_pixels_are_sampled_as_they_are(get, i, j);
}

/// A grid moved by whole pixels is the grid, moved: what stood at a pixel stands that many
/// columns to the right and rows below, and what comes in from outside is zero.
#[verifier::spinoff_prover]
pub proof fn lemma_whole_shifts_move_grids(
    s: Sheet<Fixed>,
    t: Transform<Fixed>,
    right: int,
    down: int,
    x: int,
    y: int,
)
    requires
        moderate(t),
        t.scale.raw == 65536,
        t.dx.raw == right * 65536,
        t.dy.raw == down * 65536,
        0 <= x < s.w <= u32::MAX,
        0 <= y < s.h <= u32::MAX,
        forall|i: int| 0 <= i < s.data.len() ==> bounded(#[trigger] s.data[i], 0x1000_0000_0000_0000),
        s.data.len() == s.w * s.h,
    ensures
        cell(moved(s, t), x, y) == (if 0 <= x - right < s.w && 0 <= y - down < s.h {
            cell(s, x - right, y - down)
        } else {
            Fixed { raw: 0 }
        }),
{
    let back = inverse_of(t);
    lemma_shift_is_undone(t);
    lemma_shifts_move_by_their_size(back, s.w, s.h, x, y);
    let get = |ix: int, iy: int| islanded(s, ix, iy);
    let (i, j) = (x - right, y - down);
    lemma_whole(0);
    if 0 <= i < s.w && 0 <= j < s.h {
        crate::layout::lemma_place(i, j, s.w, s.h);
    }
    assert(source_point(back, s.w, s.h, x, y).0 == Fixed { raw: (i * 65536) as i64 });
    assert(source_point(back, s.w, s.h, x, y).1 == Fixed { raw: (j * 65536) as i64 });
    lemma_pixels_are_sampled_as_they_are(get, i, j);
    lemma_cell(
        s.w,
        s.h,
        |x: int, y: int|
            bilinear(
                |ix: int, iy: int| islanded(s, ix, iy),
                source_point(inverse_of(t), s.w, s.h, x, y).0,
                source_point(inverse_of(t), s.w, s.h, x, y).1,
            ),
        x,
        y,
    );
}

/// Undoing a shift is shifting back.
pub(crate) proof fn lemma_shift_is_undone(t: Transform<Fixed>)
    requires
        moderate(t),
        t.scale.raw == 65536,
    ensures
        inverse_of(t).scale.raw == 65536,
        inverse_of(t).dx.raw == -t.dx.raw,
        inverse_of(t).dy.raw == -t.dy.raw,
{
    lemma_whole(0);
    lemma_whole(1);
    let inv = Fixed::spec_whole(1).spec_over(t.scale);
    assert(inv.raw == 65536);
    lemma_difference(Fixed::spec_whole(0), t.dx);
    lemma_difference(Fixed::spec_whole(0), t.dy);
    lemma_all_of(Fixed::spec_whole(0).spec_minus(t.dx), inv);
    lemma_all_of(Fixed::spec_whole(0).spec_minus(t.dy), inv);
}

/// A frame of interleaved colours, with its border repeated outside it.
pub open spec fn framed(frame: Seq<Fixed>, w: int, h: int, ch: int) -> spec_fn(int, int) -> Fixed {
    |i: int, j: int| frame[(clamped(j, 0, h - 1) * w + clamped(i, 0, w - 1)) * 3 + ch]
}

/// A sheet, with its border repeated outside it.
pub open spec fn edged(s: Sheet<Fixed>) -> spec_fn(int, int) -> Fixed {
    |i: int, j: int| s.data[clamped(j, 0, s.h - 1) * s.w + clamped(i, 0, s.w - 1)]
}

/// Where a pixel is read from through a transform, on one axis: its distance from the centre
/// times the scale, and the shift. Rounded down to a step.
pub open spec fn read_at(t: Transform<Fixed>, shift: Fixed, size: int, p: int) -> Fixed {
    Fixed {
        raw: ((t.scale.raw * (2 * p - size) * 32768) / 65536 + shift.raw + size * 32768) as i64,
    }
}

#[verifier::spinoff_prover]
proof fn lemma_read_at(t: Transform<Fixed>, shift: Fixed, size: int, p: int)
    requires
        0x100 <= t.scale.raw <= 0x4000_0000,
        -0x8000_0000_0000 <= shift.raw <= 0x8000_0000_0000,
        0 <= p < size <= u32::MAX,
    ensures
        read_at(t, shift, size, p).raw == source_on(
            t.scale.raw as int,
            shift.raw as int,
            size,
            p,
        ),
        bounded(read_at(t, shift, size, p), 0x4000_0000_0000_0000),
{
    let s = t.scale.raw as int;
    let v = p * 65536 - size * 32768;
    assert(s * (2 * p - size) * 32768 == s * v) by (nonlinear_arith)
        requires
            v == (2 * p - size) * 32768,
    ;
    let n = s * v;
    assert(-0x2000_0000_0000_0000_0000 <= n <= 0x2000_0000_0000_0000_0000) by (nonlinear_arith)
        requires
            n == s * v,
            0 <= s <= 0x4000_0000,
            -0x8000_0000_0000 <= v <= 0x8000_0000_0000,
    ;
}

/// Every pixel of a warped frame is the mean of the four around the point that it is read
/// from, weighted by area, rounded down by less than four steps.
#[verifier::spinoff_prover]
pub proof fn lemma_warped_frames_are_weighted_by_area(
    t: Transform<Fixed>,
    frame: Seq<Fixed>,
    w: int,
    h: int,
    x: int,
    y: int,
    ch: int,
)
    requires
        moderate(t),
        0 <= x < w <= u32::MAX,
        0 <= y < h <= u32::MAX,
        0 <= ch < 3,
        frame.len() == w * h * 3,
        forall|i: int| 0 <= i < frame.len() ==> bounded(#[trigger] frame[i], 0x400_0000_0000_0000),
    ensures
        ({
            let all = area_weighted(
                framed(frame, w, h, ch),
                read_at(t, t.dx, w, x),
                read_at(t, t.dy, h, y),
            );
            all - 0x4_0000_0000 < 0x1_0000_0000 * warped_texel(
                t,
                w,
                h,
                frame,
                0,
                h,
                x,
                y,
                ch,
            ).raw <= all
        }),
{
    lemma_source_on(t, w, h, x, y);
    lemma_read_at(t, t.dx, w, x);
    lemma_read_at(t, t.dy, h, y);
    let get = |ix: int, iy: int| banded(frame, w, 3, 0, h, ix, iy, ch);
    let f = framed(frame, w, h, ch);
    assert forall|i: int, j: int| #[trigger] get(i, j) == f(i, j) && bounded(
        f(i, j),
        0x400_0000_0000_0000,
    ) by {
        let (a, b) = (clamped(i, 0, w - 1), clamped(j, 0, h - 1));
        crate::layout::lemma_sample(a, b, ch, w, h, 3);
        assert(b * (w * 3) + (a * 3 + ch) == (b * w + a) * 3 + ch) by (nonlinear_arith);
    }
    let (px, py) = (read_at(t, t.dx, w, x), read_at(t, t.dy, h, y));
    assert(source_point(t, w, h, x, y) == (px, py));
    assert(get =~= f);
    lemma_sample_is_weighted_by_area(get, px, py, 0x400_0000_0000_0000);
}

/// Every cell of a warped sheet is the mean of the four around the point that it is read
/// from, weighted by area, rounded down by less than four steps.
#[verifier::spinoff_prover]
pub proof fn lemma_warped_sheets_are_weighted_by_area(
    s: Sheet<Fixed>,
    t: Transform<Fixed>,
    x: int,
    y: int,
)
    requires
        moderate(t),
        0 <= x < s.w <= u32::MAX,
        0 <= y < s.h <= u32::MAX,
        s.data.len() == s.w * s.h,
        forall|i: int| 0 <= i < s.data.len() ==> bounded(#[trigger] s.data[i], 0x400_0000_0000_0000),
    ensures
        ({
            let all = area_weighted(edged(s), read_at(t, t.dx, s.w, x), read_at(t, t.dy, s.h, y));
            all - 0x4_0000_0000 < 0x1_0000_0000 * cell(warped_sheet(s, t), x, y).raw <= all
        }),
{
    lemma_source_on(t, s.w, s.h, x, y);
    lemma_read_at(t, t.dx, s.w, x);
    lemma_read_at(t, t.dy, s.h, y);
    let get = |ix: int, iy: int| edge_cell(s, ix, iy);
    let f = edged(s);
    assert forall|i: int, j: int| #[trigger] get(i, j) == f(i, j) && bounded(
        f(i, j),
        0x400_0000_0000_0000,
    ) by {
        crate::layout::lemma_place(clamped(i, 0, s.w - 1), clamped(j, 0, s.h - 1), s.w, s.h);
    }
    let (px, py) = (read_at(t, t.dx, s.w, x), read_at(t, t.dy, s.h, y));
    assert(source_point(t, s.w, s.h, x, y) == (px, py));
    assert(get =~= f);
    lemma_sample_is_weighted_by_area(get, px, py, 0x400_0000_0000_0000);
    lemma_cell(
        s.w,
        s.h,
        |x: int, y: int|
            bilinear(
                |ix: int, iy: int| edge_cell(s, ix, iy),
                source_point(t, s.w, s.h, x, y).0,
                source_point(t, s.w, s.h, x, y).1,
            ),
        x,
        y,
    );
}

/// A sheet, with nothing outside it.
pub open spec fn alone(s: Sheet<Fixed>) -> spec_fn(int, int) -> Fixed {
    |i: int, j: int|
        if 0 <= i < s.w && 0 <= j < s.h {
            s.data[j * s.w + i]
        } else {
            Fixed { raw: 0 }
        }
}

/// Every cell of a displaced grid is the mean of the four around the point that lies the
/// displacement to the left of it and above it, weighted by area, rounded down by less than
/// four steps.
#[verifier::spinoff_prover]
pub proof fn lemma_displaced_grids_are_weighted_by_area(
    s: Sheet<Fixed>,
    dx: Fixed,
    dy: Fixed,
    x: int,
    y: int,
)
    requires
        0 <= x < s.w <= u32::MAX,
        0 <= y < s.h <= u32::MAX,
        s.data.len() == s.w * s.h,
        forall|i: int| 0 <= i < s.data.len() ==> bounded(#[trigger] s.data[i], 0x400_0000_0000_0000),
        bounded(dx, 0x8000_0000_0000),
        bounded(dy, 0x8000_0000_0000),
    ensures
        ({
            let all = area_weighted(
                alone(s),
                Fixed { raw: (x * 65536 - dx.raw) as i64 },
                Fixed { raw: (y * 65536 - dy.raw) as i64 },
            );
            all - 0x4_0000_0000 < 0x1_0000_0000 * cell(displaced(s, dx, dy), x, y).raw <= all
        }),
{
    lemma_whole(x);
    lemma_whole(y);
    let (px, py) = (Fixed::spec_whole(x as i64).spec_minus(dx), Fixed::spec_whole(y as i64).spec_minus(dy));
    lemma_difference(Fixed::spec_whole(x as i64), dx);
    lemma_difference(Fixed::spec_whole(y as i64), dy);
    lemma_alone(s, px, py);
    lemma_cell(
        s.w,
        s.h,
        |x: int, y: int|
            bilinear(
                |ix: int, iy: int| islanded(s, ix, iy),
                Fixed::spec_whole(x as i64).spec_minus(dx),
                Fixed::spec_whole(y as i64).spec_minus(dy),
            ),
        x,
        y,
    );
}

proof fn lemma_alone(s: Sheet<Fixed>, x: Fixed, y: Fixed)
    requires
        s.data.len() == s.w * s.h,
        forall|i: int| 0 <= i < s.data.len() ==> bounded(#[trigger] s.data[i], 0x400_0000_0000_0000),
        bounded(x, 0x4000_0000_0000_0000),
        bounded(y, 0x4000_0000_0000_0000),
    ensures
        ({
            let all = area_weighted(alone(s), x, y);
            all - 0x4_0000_0000 < 0x1_0000_0000 * bilinear(
                |ix: int, iy: int| islanded(s, ix, iy),
                x,
                y,
            ).raw <= all
        }),
{
    let get = |ix: int, iy: int| islanded(s, ix, iy);
    let f = alone(s);
    lemma_whole(0);
    assert forall|i: int, j: int| #[trigger] get(i, j) == f(i, j) && bounded(
        f(i, j),
        0x400_0000_0000_0000,
    ) by {
        if 0 <= i < s.w && 0 <= j < s.h {
            crate::layout::lemma_place(i, j, s.w, s.h);
        }
    }
    assert(get =~= f);
    lemma_sample_is_weighted_by_area(get, x, y, 0x400_0000_0000_0000);
}

/// Every cell of a grid moved by a transform is the mean of the four around the point that the
/// transform undone takes it to, weighted by area, rounded down by less than four steps.
#[verifier::spinoff_prover]
pub proof fn lemma_moved_grids_are_weighted_by_area(
    s: Sheet<Fixed>,
    t: Transform<Fixed>,
    x: int,
    y: int,
)
    requires
        moderate(inverse_of(t)),
        0 <= x < s.w <= u32::MAX,
        0 <= y < s.h <= u32::MAX,
        s.data.len() == s.w * s.h,
        forall|i: int| 0 <= i < s.data.len() ==> bounded(#[trigger] s.data[i], 0x400_0000_0000_0000),
    ensures
        ({
            let back = inverse_of(t);
            let all = area_weighted(
                alone(s),
                read_at(back, back.dx, s.w, x),
                read_at(back, back.dy, s.h, y),
            );
            all - 0x4_0000_0000 < 0x1_0000_0000 * cell(moved(s, t), x, y).raw <= all
        }),
{
    let back = inverse_of(t);
    lemma_source_on(back, s.w, s.h, x, y);
    lemma_read_at(back, back.dx, s.w, x);
    lemma_read_at(back, back.dy, s.h, y);
    let (px, py) = (read_at(back, back.dx, s.w, x), read_at(back, back.dy, s.h, y));
    assert(source_point(back, s.w, s.h, x, y) == (px, py));
    lemma_alone(s, px, py);
    lemma_cell(
        s.w,
        s.h,
        |x: int, y: int|
            bilinear(
                |ix: int, iy: int| islanded(s, ix, iy),
                source_point(inverse_of(t), s.w, s.h, x, y).0,
                source_point(inverse_of(t), s.w, s.h, x, y).1,
            ),
        x,
        y,
    );
}

} // verus!
