//! Focus measurement: windowed Laplacian energy, at one scale or several.
//!
//! Frames are measured a band of rows at a time, with enough rows around each band that
//! the result does not depend on where the bands begin.

use vstd::prelude::*;
use vstd::slice::slice_subrange;
use crate::filter::{
    agree, bordered, box_sum, box_sums, clear_of_bottom, clear_of_top, lemma_box_sum_is_local,
    lemma_windows_are_full, window_count, zone,
};
use crate::image::{
    clamp_index, clamped, larger, lemma_two_to_grows, smaller, two_to, FrameInfo, BAND_ROWS,
};
use crate::layout::{fill, image_of, lemma_place};
use crate::luma::{luma, luminance};
use crate::pipeline::Transform;
use crate::plane::{warp_plane, warped_sheet, whole_sheet, Plane, Sheet};
use crate::pyramid::{
    expand, expanded, gaussian, lemma_gaussian_size, lemma_side, reduce, side, whole_picture,
    Bitmap, Picture,
};
use crate::reading::{
    band_slice, gather_frame, lemma_bands_decide, made_of, read_fails, readable, reads_from,
    rows_at, rows_of, unread,
};
use crate::sample::{lemma_wrapped_sum, wrap, Exact, Fixed, Sample};

verus! {

/// One pass over a frame: the output rows it computes, and the rows it reads for them.
#[derive(Debug, Clone, Copy, PartialEq, Eq, Structural)]
pub struct Band {
    /// First output row.
    pub y0: u32,
    /// Output rows.
    pub rows: u32,
    /// First row read.
    pub from: u32,
    /// One past the last row read.
    pub to: u32,
}

/// The band that starts at `y0`, with `halo` rows around it, clamped to the frame. Reading
/// starts on a multiple of `step`.
pub open spec fn band_of(height: int, y0: int, halo: int, step: int) -> Band {
    let rows = smaller(BAND_ROWS as int, height - y0);
    Band {
        y0: y0 as u32,
        rows: rows as u32,
        from: ((larger(y0 - halo, 0) / step) * step) as u32,
        to: smaller(y0 + rows + halo, height) as u32,
    }
}

/// The band that starts at `y0`.
pub fn band_at(height: u32, y0: u32, halo: u32, step: u32) -> (b: Band)
    requires
        y0 < height,
        step > 0,
    ensures
        b == band_of(height as int, y0 as int, halo as int, step as int),
        b.from <= b.y0,
        b.y0 + b.rows <= b.to <= height,
        0 < b.rows <= BAND_ROWS,
{
    let left: u32 = height - y0;
    let rows: u32 = if BAND_ROWS <= left {
        BAND_ROWS
    } else {
        left
    };
    let start: u32 = y0.saturating_sub(halo);
    let end: u64 = y0 as u64 + rows as u64 + halo as u64;
    let to: u32 = if end <= height as u64 {
        end as u32
    } else {
        height
    };
    proof {
        vstd::arithmetic::div_mod::lemma_fundamental_div_mod(start as int, step as int);
        vstd::arithmetic::div_mod::lemma_div_pos_is_pos(start as int, step as int);
        assert((start as int / step as int) * step == step * (start as int / step as int))
            by (nonlinear_arith);
        assert(0 <= (start as int / step as int) * step) by (nonlinear_arith)
            requires
                0 <= start,
                0 < step,
                0 <= (start as int / step as int),
        ;
    }
    Band { y0, rows, from: (start / step) * step, to }
}

/// Bands cover the frame: each starts where the one before it ended, and the last ends
/// with the frame.
pub proof fn lemma_bands_cover(height: int, y0: int, halo: int, step: int)
    requires
        0 <= y0 < height <= u32::MAX,
        halo >= 0,
        step > 0,
    ensures
        band_of(height, y0, halo, step).y0 == y0,
        0 < band_of(height, y0, halo, step).rows,
        y0 + band_of(height, y0, halo, step).rows <= height,
        y0 + band_of(height, y0, halo, step).rows < height
            ==> band_of(height, y0, halo, step).rows == BAND_ROWS,
{
}

/// The luminance of every pixel of interleaved RGB rows.
pub open spec fn lumas<S: Sample>(rows: Seq<S>) -> Seq<S> {
    Seq::new(
        (rows.len() / 3) as nat,
        |i: int| luminance(rows[3 * i], rows[3 * i + 1], rows[3 * i + 2]),
    )
}

pub fn to_luma<S: Sample>(rows: &[S]) -> (out: Vec<S>)
    ensures
        out@ == lumas(rows@),
{
    let n = rows.len() / 3;
    let mut out: Vec<S> = Vec::with_capacity(n);
    let mut i: usize = 0;
    while i < n
        invariant
            i <= n,
            n == rows@.len() / 3,
            n * 3 <= rows@.len() <= usize::MAX,
            out@.len() == i,
            forall|k: int| 0 <= k < i ==> #[trigger] out@[k] == lumas(rows@)[k],
        decreases n - i,
    {
        out.push(luma(rows[3 * i], rows[3 * i + 1], rows[3 * i + 2]));
        i += 1;
    }
    assert(out@ =~= lumas(rows@));
    out
}

/// The squared four-neighbour Laplacian at a position, edges clamped.
pub open spec fn contrast<S: Sample>(luma: Seq<S>, w: int, h: int, x: int, y: int) -> S {
    let lap = bordered(luma, w, h, x - 1, y).spec_plus(bordered(luma, w, h, x + 1, y)).spec_plus(
        bordered(luma, w, h, x, y - 1),
    ).spec_plus(bordered(luma, w, h, x, y + 1)).spec_minus(
        S::spec_whole(4).spec_times(bordered(luma, w, h, x, y)),
    );
    lap.spec_times(lap)
}

/// The squared Laplacian everywhere.
pub open spec fn contrasts<S: Sample>(luma: Seq<S>, w: int, h: int) -> Seq<S> {
    image_of(w, h, 1, |x: int, y: int, ch: int| contrast(luma, w, h, x, y))
}

/// Windowed Laplacian energy over a square window of radius `r`.
pub open spec fn sharpness<S: Sample>(luma: Seq<S>, w: int, h: int, r: int) -> Seq<S> {
    box_sums(contrasts(luma, w, h), w, h, r)
}

fn tap<S: Sample>(luma: &[S], w: usize, h: usize, x: i64, y: i64) -> (r: S)
    requires
        0 < w <= 0xffff_ffff,
        0 < h <= 0xffff_ffff,
        luma@.len() == w * h,
    ensures
        r == bordered(luma@, w as int, h as int, x as int, y as int),
{
    let (cx, cy) = (clamp_index(x, w), clamp_index(y, h));
    proof {
        lemma_place(cx as int, cy as int, w as int, h as int);
    }
    assert(luma@.len() == luma.len());
    luma[cy * w + cx]
}

/// Squared four-neighbour Laplacian, edges clamped.
pub fn laplacian_energy<S: Sample>(luma: &[S], width: u32, rows: u32) -> (out: Vec<S>)
    requires
        width > 0,
        rows > 0,
        luma@.len() == width * rows,
    ensures
        out@ == contrasts(luma@, width as int, rows as int),
        out@.len() == width * rows,
{
    let (w, h): (usize, usize) = (width as usize, rows as usize);
    let ghost g = |x: int, y: int, ch: int| contrast(luma@, w as int, h as int, x, y);
    assert(luma@.len() == luma.len());
    assert(w * 1 == w && w * h * 1 == w * h) by (nonlinear_arith);
    assert(w <= w * h) by (nonlinear_arith)
        requires
            h >= 1,
    ;
    fill(
        w,
        h,
        1,
        (|x: usize, y: usize, ch: usize| -> (v: S)
            requires
                x < w,
                y < h,
            ensures
                v == g(x as int, y as int, ch as int),
        {
            let (cx, cy): (i64, i64) = (x as i64, y as i64);
            let left = tap(luma, w, h, cx - 1, cy);
            let right = tap(luma, w, h, cx + 1, cy);
            let above = tap(luma, w, h, cx, cy - 1);
            let below = tap(luma, w, h, cx, cy + 1);
            let here = tap(luma, w, h, cx, cy);
            let lap = left.plus(right).plus(above).plus(below).minus(S::whole(4).times(here));
            lap.times(lap)
        }),
        Ghost(g),
    )
}

/// The rows of a band that are its output.
pub open spec fn kept<S>(all: Seq<S>, w: int, b: Band) -> Seq<S> {
    all.subrange((b.y0 - b.from) * w, (b.y0 - b.from + b.rows) * w)
}

fn keep<S: Sample>(all: &Vec<S>, width: u32, b: Band) -> (out: Vec<S>)
    requires
        b.from <= b.y0,
        b.y0 + b.rows <= b.to,
        all@.len() == width * (b.to - b.from),
    ensures
        out@ == kept(all@, width as int, b),
        out@.len() == width * b.rows,
{
    let w: usize = width as usize;
    let first: usize = (b.y0 - b.from) as usize;
    let rows: usize = b.rows as usize;
    let n = all.len();
    assert(0 <= first * w && first * w + rows * w == (first + rows) * w) by (nonlinear_arith);
    assert((first + rows) * w <= width * (b.to - b.from)) by (nonlinear_arith)
        requires
            first + rows <= b.to - b.from,
            w == width,
    ;
    assert(rows * w == width * rows) by (nonlinear_arith)
        requires
            w == width,
    ;
    let part = slice_subrange(all.as_slice(), first * w, (first + rows) * w);
    let mut out: Vec<S> = Vec::with_capacity(part.len());
    let mut i: usize = 0;
    while i < part.len()
        invariant
            i <= part@.len(),
            out@.len() == i,
            forall|k: int| 0 <= k < i ==> #[trigger] out@[k] == part@[k],
        decreases part@.len() - i,
    {
        out.push(part[i]);
        i += 1;
    }
    assert(out@ =~= part@);
    out
}

/// The rows around a single-scale band: the window's reach, and one more for the
/// Laplacian's own.
pub open spec fn single_scale_halo(radius: int) -> int {
    radius + 1
}

/// Focus energy of one band, from the RGB rows it reads.
pub fn measure_band<S: Sample>(rows: &[S], width: u32, radius: u32, b: Band) -> (out: Vec<S>)
    requires
        width > 0,
        b.from <= b.y0,
        b.y0 + b.rows <= b.to,
        0 < b.rows,
        rows@.len() == width * (b.to - b.from) * 3,
    ensures
        out@ == kept(
            sharpness(lumas(rows@), width as int, b.to - b.from, radius as int),
            width as int,
            b,
        ),
        out@.len() == width * b.rows,
{
    let span = b.to - b.from;
    let luma = to_luma(rows);
    assert(luma@.len() == width * span);
    let energy = laplacian_energy(luma.as_slice(), width, span);
    let summed = box_sum(energy.as_slice(), width, span, radius);
    assert(summed@.len() == width * span) by {
        assert(width * span * 1 == width * span) by (nonlinear_arith);
    }
    keep(&summed, width, b)
}

/// The contrast of a row is local to the row and its two neighbours.
proof fn lemma_contrast_is_local<S: Sample>(
    band: Seq<S>,
    plane: Seq<S>,
    w: int,
    h: int,
    from: int,
    n: int,
)
    requires
        zone(h, from, n, from, from + n),
        w > 0,
        band.len() == w * n,
        plane.len() == w * h,
        agree(band, plane, w, from, from, from + n),
    ensures
        agree(
            contrasts(band, w, n),
            contrasts(plane, w, h),
            w,
            from,
            clear_of_top(from, 1),
            clear_of_bottom(from + n, h, 1),
        ),
{
    assert forall|x: int, y: int|
        0 <= x < w && clear_of_top(from, 1) <= y < clear_of_bottom(
            from + n,
            h,
            1,
        ) implies #[trigger] contrasts(band, w, n)[(y - from) * w + x] == contrasts(
        plane,
        w,
        h,
    )[y * w + x] by {
        crate::layout::lemma_sample(x, y, 0, w, h, 1);
        crate::layout::lemma_sample(x, y - from, 0, w, n, 1);
        assert forall|u: int, v: int| y - 1 <= v <= y + 1 implies #[trigger] bordered(
            plane,
            w,
            h,
            u,
            v,
        ) == bordered(band, w, n, u, v - from) by {
            let (cx, cy) = (clamped(u, 0, w - 1), clamped(v, 0, h - 1));
            assert(clamped(v - from, 0, n - 1) == cy - from);
            assert(band[(cy - from) * w + cx] == plane[cy * w + cx]);
        }
        assert(bordered(plane, w, h, x - 1, y) == bordered(band, w, n, x - 1, y - from));
        assert(bordered(plane, w, h, x + 1, y) == bordered(band, w, n, x + 1, y - from));
        assert(bordered(plane, w, h, x, y - 1) == bordered(band, w, n, x, y - 1 - from));
        assert(bordered(plane, w, h, x, y + 1) == bordered(band, w, n, x, y + 1 - from));
        assert(bordered(plane, w, h, x, y) == bordered(band, w, n, x, y - from));
    }
}

/// Band boundaries leave no seam: for exact samples, a band's output rows are the rows
/// that measuring the whole frame at once gives, wherever the band begins.
pub proof fn lemma_bands_leave_no_seam<S: Exact>(
    luma: Seq<S>,
    w: int,
    h: int,
    radius: int,
    y0: int,
)
    requires
        0 < w,
        0 <= y0 < h <= u32::MAX,
        radius >= 0,
        luma.len() == w * h,
    ensures
        ({
            let b = band_of(h, y0, single_scale_halo(radius), 1);
            let read = luma.subrange(b.from * w, b.to * w);
            kept(sharpness(read, w, b.to - b.from, radius), w, b) == sharpness(
                luma,
                w,
                h,
                radius,
            ).subrange(b.y0 * w, (b.y0 + b.rows) * w)
        }),
{
    let b = band_of(h, y0, single_scale_halo(radius), 1);
    let (from, n) = (b.from as int, b.to - b.from);
    assert(0 <= from * w && from * w + n * w == b.to * w && b.to * w <= w * h)
        by (nonlinear_arith)
        requires
            0 <= from,
            n == b.to - from,
            from <= b.to <= h,
            0 < w,
    ;
    assert(n * w == w * n) by (nonlinear_arith);
    let read = luma.subrange(from * w, b.to * w);
    assert forall|x: int, y: int| 0 <= x < w && from <= y < from + n implies #[trigger] read[(y
        - from) * w + x] == luma[y * w + x] by {
        lemma_place(x, y - from, w, n);
        assert(from * w + ((y - from) * w + x) == y * w + x) by (nonlinear_arith);
    }
    lemma_contrast_is_local(read, luma, w, h, from, n);
    let (lo, hi) = (clear_of_top(from, 1), clear_of_bottom(from + n, h, 1));
    let (a, c) = (contrasts(read, w, n), contrasts(luma, w, h));
    assert(w * n * 1 == w * n && w * h * 1 == w * h) by (nonlinear_arith);
    lemma_box_sum_is_local(a, c, w, h, from, n, lo, hi, radius);
    let (p, q) = (sharpness(read, w, n, radius), sharpness(luma, w, h, radius));
    let left = kept(p, w, b);
    let right = q.subrange(y0 * w, (y0 + b.rows) * w);
    let first = y0 - from;
    assert(0 <= first * w && (first + b.rows) * w <= w * n && 0 <= y0 * w && (y0 + b.rows) * w <= w
        * h && (first + b.rows) * w - first * w == w * b.rows && (y0 + b.rows) * w - y0 * w == w
        * b.rows) by (nonlinear_arith)
        requires
            0 <= first,
            first + b.rows <= n,
            0 <= y0,
            y0 + b.rows <= h,
            0 < w,
    ;
    assert forall|i: int| 0 <= i < w * b.rows implies #[trigger] left[i] == right[i] by {
        crate::layout::lemma_column_and_row(i, w, b.rows as int);
        let (x, r) = (i % w, i / w);
        let y = y0 + r;
        assert(first * w + i == (y - from) * w + x && y0 * w + i == y * w + x) by (nonlinear_arith)
            requires
                i == r * w + x,
                first == y0 - from,
                y == y0 + r,
        ;
        assert(p[(y - from) * w + x] == q[y * w + x]);
    }
    assert(left =~= right);
}

/// The weight of a scale: the decay, multiplied on once for each scale.
pub open spec fn scale_weight<S: Sample>(decay: S, scale: nat) -> S
    decreases scale,
{
    if scale == 0 {
        S::spec_whole(1)
    } else {
        scale_weight(decay, (scale - 1) as nat).spec_times(decay)
    }
}

/// A picture brought back from level `scale` to full size, through exactly the sizes it
/// came down through.
pub open spec fn raised<S: Sample>(p: Picture<S>, w: int, h: int, scale: nat) -> Picture<S>
    decreases scale,
{
    if scale == 0 {
        p
    } else {
        let below = (scale - 1) as nat;
        raised(expanded(p, side(w, below), side(h, below)), w, h, below)
    }
}

/// Luminance as a picture.
pub open spec fn luma_picture<S>(luma: Seq<S>, w: int, h: int) -> Picture<S> {
    Picture { w, h, c: 1, data: luma }
}

/// The energy of one scale, at full size.
pub open spec fn scale_energy<S: Sample>(
    luma: Seq<S>,
    w: int,
    h: int,
    r: int,
    scale: nat,
) -> Seq<S> {
    let level = gaussian(luma_picture(luma, w, h), scale);
    raised(
        luma_picture(sharpness(level.data, level.w, level.h, r), level.w, level.h),
        w,
        h,
        scale,
    ).data
}

/// The energy of scales `0..=last`, the finest unscaled and each coarser one decayed.
pub open spec fn energy_through<S: Sample>(
    luma: Seq<S>,
    w: int,
    h: int,
    r: int,
    decay: S,
    last: nat,
) -> Seq<S>
    decreases last,
{
    if last == 0 {
        sharpness(luma, w, h, r)
    } else {
        let finer = energy_through(luma, w, h, r, decay, (last - 1) as nat);
        let added = scale_energy(luma, w, h, r, last);
        Seq::new(
            finer.len(),
            |i: int| finer[i].spec_plus(scale_weight(decay, last).spec_times(added[i])),
        )
    }
}

/// The coarsest scale that is measured, from scale `at` on: levels of four pixels or
/// fewer carry no usable structure, so none is built below one.
pub open spec fn last_scale(w: int, h: int, at: nat, scales: nat) -> nat
    decreases scales - at,
{
    if at + 1 >= scales || (at >= 1 && (side(w, at) <= 4 || side(h, at) <= 4)) {
        at
    } else {
        last_scale(w, h, at + 1, scales)
    }
}

/// Windowed Laplacian energy summed across a Gaussian pyramid.
pub open spec fn pyramid_sharpness<S: Sample>(
    luma: Seq<S>,
    w: int,
    h: int,
    r: int,
    decay: S,
    scales: nat,
) -> Seq<S> {
    energy_through(luma, w, h, r, decay, last_scale(w, h, 0, scales))
}

/// One scale is the single-scale measure exactly.
pub proof fn lemma_one_scale_is_single_scale<S: Sample>(
    luma: Seq<S>,
    w: int,
    h: int,
    r: int,
    decay: S,
)
    ensures
        pyramid_sharpness(luma, w, h, r, decay, 1) == sharpness(luma, w, h, r),
{
}

/// Bring a level's energy back to full size.
fn raise<S: Sample>(p: Bitmap<S>, width: u32, height: u32, scale: usize) -> (out: Bitmap<S>)
    requires
        width > 0,
        height > 0,
        whole_picture(p@),
        p.channels == 1,
        p@.w == side(width as int, scale as nat),
        p@.h == side(height as int, scale as nat),
        width * height <= usize::MAX,
    ensures
        out@ == raised(p@, width as int, height as int, scale as nat),
        out@.data.len() == width * height,
{
    let mut current = p;
    let mut at: usize = scale;
    proof {
        lemma_side(width as int, scale as nat);
        lemma_side(height as int, scale as nat);
    }
    while at > 0
        invariant
            at <= scale,
            width > 0,
            height > 0,
            width * height <= usize::MAX,
            whole_picture(current@),
            current.channels == 1,
            current.width > 0,
            current.height > 0,
            current@.w == side(width as int, at as nat),
            current@.h == side(height as int, at as nat),
            raised(current@, width as int, height as int, at as nat) == raised(
                p@,
                width as int,
                height as int,
                scale as nat,
            ),
        decreases at,
    {
        let below: usize = at - 1;
        let (w, h) = (side_at(width, below), side_at(height, below));
        proof {
            lemma_side(width as int, below as nat);
            lemma_side(height as int, below as nat);
            assert(w * current.height <= width * height) by (nonlinear_arith)
                requires
                    w <= width,
                    current.height <= height,
            ;
            assert(w * h <= width * height) by (nonlinear_arith)
                requires
                    w <= width,
                    h <= height,
            ;
            assert(w <= width * height) by (nonlinear_arith)
                requires
                    w <= width,
                    height >= 1,
            ;
        }
        current = expand(&current, w, h);
        at = below;
    }
    assert(width * height * 1 == width * height);
    current
}

fn side_at(n: u32, i: usize) -> (r: u32)
    ensures
        r == side(n as int, i as nat),
{
    let mut r = n;
    let mut k: usize = 0;
    while k < i
        invariant
            k <= i,
            r == side(n as int, k as nat),
        decreases i - k,
    {
        r = crate::image::halved(r);
        k += 1;
    }
    r
}

/// Windowed Laplacian energy summed across a Gaussian pyramid, over several scales.
///
/// The radius is the same at every level, so the window covers more of the frame as
/// levels coarsen.
#[derive(Debug)]
pub struct MultiScaleLaplacian<S> {
    pub radius: u32,
    pub scales: u32,
    pub decay: S,
}

/// The alignment of multi-scale bands: a band must start on a multiple of this, or its
/// pyramid's grid would be shifted against its neighbours'.
pub open spec fn scale_step(scales: int) -> int {
    two_to((scales - 1) as nat)
}

/// The rows around a multi-scale band: the coarsest window's reach, and what building
/// the coarsest level takes.
pub open spec fn multi_scale_halo(radius: int, scales: int) -> int {
    (radius + 1) * scale_step(scales) + 2 * (scale_step(scales) - 1)
}

impl<S: Sample> MultiScaleLaplacian<S> {
    /// At least one scale: none would measure nothing at all, and a focus map of zeros
    /// gives a plausible-looking image rather than an error.
    pub fn new(radius: u32, scales: u32, decay: S) -> (r: Self)
        ensures
            r.radius == radius,
            r.scales == larger(scales as int, 1),
            r.decay == decay,
    {
        MultiScaleLaplacian {
            radius,
            scales: if scales >= 1 {
                scales
            } else {
                1
            },
            decay,
        }
    }

    /// The alignment and the halo that this measure's bands need, where they can be
    /// represented.
    pub fn reach(&self) -> (r: Option<(u32, u32)>)
        requires
            self.scales >= 1,
        ensures
            match r {
                Some((step, halo)) => step == scale_step(self.scales as int) && halo
                    == multi_scale_halo(self.radius as int, self.scales as int),
                None => multi_scale_halo(self.radius as int, self.scales as int) > u32::MAX
                    || scale_step(self.scales as int) > u32::MAX,
            },
    {
        let mut step: u64 = 1;
        let mut k: u32 = 1;
        while k < self.scales
            invariant
                1 <= k <= self.scales,
                1 <= step <= 0xffff_ffff,
                step == two_to((k - 1) as nat),
            decreases self.scales - k,
        {
            step = step * 2;
            if step > 0xffff_ffff {
                proof {
                    lemma_two_to_grows(k as nat, (self.scales - 1) as nat);
                }
                return None;
            }
            k += 1;
        }
        assert((self.radius + 1) * step <= 0x1_0000_0000 * 0xffff_ffff) by (nonlinear_arith)
            requires
                self.radius + 1 <= 0x1_0000_0000,
                step <= 0xffff_ffff,
        ;
        let reach: u128 = (self.radius as u128 + 1) * step as u128;
        let halo: u128 = reach + 2 * (step as u128 - 1);
        if halo > 0xffff_ffff {
            return None;
        }
        Some((step as u32, halo as u32))
    }

    /// The finest level's energy, plus each coarser level's brought back up and decayed.
    pub fn pyramid_energy(&self, luma: Vec<S>, width: u32, height: u32) -> (out: Vec<S>)
        requires
            self.scales >= 1,
            width > 0,
            height > 0,
            luma@.len() == width * height,
        ensures
            out@ == pyramid_sharpness(
                luma@,
                width as int,
                height as int,
                self.radius as int,
                self.decay,
                self.scales as nat,
            ),
            out@.len() == width * height,
    {
        let ghost source = luma@;
        let n = luma.len();
        assert(width * height * 1 == width * height);
        let energy = laplacian_energy(luma.as_slice(), width, height);
        let mut total = box_sum(energy.as_slice(), width, height, self.radius);
        let mut level = Bitmap { width, height, channels: 1, data: luma };
        let ghost base = luma_picture(source, width as int, height as int);
        let mut scale: usize = 0;
        let mut share = S::whole(1);
        let mut done = self.scales <= 1;
        while !done
            invariant
                self.scales >= 1,
                scale < self.scales,
                width > 0,
                height > 0,
                n == width * height,
                n <= usize::MAX,
                base == luma_picture(source, width as int, height as int),
                whole_picture(base),
                level@ == gaussian(base, scale as nat),
                whole_picture(level@),
                level.width > 0,
                level.height > 0,
                level.channels == 1,
                share == scale_weight(self.decay, scale as nat),
                total@.len() == n,
                total@ == energy_through(
                    source,
                    width as int,
                    height as int,
                    self.radius as int,
                    self.decay,
                    scale as nat,
                ),
                last_scale(width as int, height as int, 0, self.scales as nat) == last_scale(
                    width as int,
                    height as int,
                    scale as nat,
                    self.scales as nat,
                ),
                done == (scale + 1 >= self.scales || (scale >= 1 && (side(
                    width as int,
                    scale as nat,
                ) <= 4 || side(height as int, scale as nat) <= 4))),
            decreases self.scales - scale,
        {
            level = reduce(&level);
            share = share.times(self.decay);
            scale += 1;
            proof {
                lemma_gaussian_size(base, scale as nat);
            }
            assert(level.data@.len() == level.width * level.height) by {
                assert(level.width * level.height * 1 == level.width * level.height);
            }
            let energy = laplacian_energy(level.data.as_slice(), level.width, level.height);
            let summed = box_sum(energy.as_slice(), level.width, level.height, self.radius);
            assert(summed@.len() == level.width * level.height) by {
                assert(level.width * level.height * 1 == level.width * level.height);
            }
            let up = raise(
                Bitmap { width: level.width, height: level.height, channels: 1, data: summed },
                width,
                height,
                scale,
            );
            let ghost finer = total@;
            let ghost added = scale_energy(
                source,
                width as int,
                height as int,
                self.radius as int,
                scale as nat,
            );
            assert(up.data@ == added);
            let mut sum: Vec<S> = Vec::with_capacity(n);
            let mut i: usize = 0;
            while i < n
                invariant
                    i <= n,
                    total@.len() == n,
                    total@ == finer,
                    up.data@ == added,
                    added.len() == n,
                    share == scale_weight(self.decay, scale as nat),
                    sum@.len() == i,
                    forall|k: int|
                        0 <= k < i ==> #[trigger] sum@[k] == finer[k].spec_plus(
                            share.spec_times(added[k]),
                        ),
                decreases n - i,
            {
                sum.push(total[i].plus(share.times(up.data[i])));
                i += 1;
            }
            assert(sum@ =~= energy_through(
                source,
                width as int,
                height as int,
                self.radius as int,
                self.decay,
                scale as nat,
            ));
            total = sum;
            done = scale as u64 + 1 >= self.scales as u64 || level.width <= 4 || level.height <= 4;
        }
        total
    }

    /// Focus energy of one band, from the RGB rows it reads.
    pub fn measure_band(&self, rows: &[S], width: u32, b: Band) -> (out: Vec<S>)
        requires
            self.scales >= 1,
            width > 0,
            b.from <= b.y0,
            b.y0 + b.rows <= b.to,
            0 < b.rows,
            rows@.len() == width * (b.to - b.from) * 3,
        ensures
            out@ == kept(
                pyramid_sharpness(
                    lumas(rows@),
                    width as int,
                    b.to - b.from,
                    self.radius as int,
                    self.decay,
                    self.scales as nat,
                ),
                width as int,
                b,
            ),
            out@.len() == width * b.rows,
    {
        let span = b.to - b.from;
        let luma = to_luma(rows);
        assert(luma@.len() == width * span);
        let summed = self.pyramid_energy(luma, width, span);
        keep(&summed, width, b)
    }
}

/// What a band of a frame measures at a single scale.
pub open spec fn measured_piece<S: Sample>(frame: Seq<S>, w: int, h: int, radius: int, y0: int) -> Seq<
    S,
> {
    let b = band_of(h, y0, single_scale_halo(radius), 1);
    kept(
        sharpness(lumas(rows_of(frame, w * 3, b.from as int, b.to - b.from)), w, b.to - b.from, radius),
        w,
        b,
    )
}

/// What each band of a frame measures at a single scale, by its first row.
pub open spec fn measured_pieces<S: Sample>(w: int, h: int, radius: int) -> spec_fn(
    Seq<S>,
    int,
) -> Seq<S> {
    |frame: Seq<S>, y0: int| measured_piece(frame, w, h, radius, y0)
}

/// What a band of a frame measures across several scales.
pub open spec fn multi_measured_piece<S: Sample>(
    frame: Seq<S>,
    w: int,
    h: int,
    m: MultiScaleLaplacian<S>,
    y0: int,
) -> Seq<S> {
    let b = band_of(
        h,
        y0,
        multi_scale_halo(m.radius as int, m.scales as int),
        scale_step(m.scales as int),
    );
    kept(
        pyramid_sharpness(
            lumas(rows_of(frame, w * 3, b.from as int, b.to - b.from)),
            w,
            b.to - b.from,
            m.radius as int,
            m.decay,
            m.scales as nat,
        ),
        w,
        b,
    )
}

/// What each band of a frame measures across several scales, by its first row.
pub open spec fn multi_measured_pieces<S: Sample>(w: int, h: int, m: MultiScaleLaplacian<S>) -> spec_fn(
    Seq<S>,
    int,
) -> Seq<S> {
    |frame: Seq<S>, y0: int| multi_measured_piece(frame, w, h, m, y0)
}

/// A frame that can be measured: it has pixels, and fits in memory a plane at a time.
pub open spec fn measurable(info: FrameInfo) -> bool {
    info.width > 0 && info.width * info.height <= usize::MAX
}

/// Windowed Laplacian energy over a square window.
#[derive(Debug, Clone, Copy, PartialEq, Eq, Structural)]
pub struct WindowedLaplacian {
    pub radius: u32,
}

impl WindowedLaplacian {
    pub fn new(radius: u32) -> (r: Self)
        ensures
            r.radius == radius,
    {
        WindowedLaplacian { radius }
    }

    /// Focus energy in the frame's own coordinates, before alignment. The frame is read a
    /// band at a time.
    pub fn measure_native<S: Sample, E, F: Fn(u32, u32) -> Result<Vec<S>, E>>(
        &self,
        info: FrameInfo,
        read: &F,
    ) -> (r: Result<Plane<S>, E>)
        requires
            measurable(info),
            self.radius < u32::MAX,
            readable(read, info.height, info.width * 3),
        ensures
            match r {
                Ok(plane) => {
                    &&& plane.width == info.width
                    &&& plane.height == info.height
                    &&& whole_sheet(plane@)
                    &&& forall|frame: Seq<S>| #[trigger]
                        reads_from(read, frame, info.height, info.width * 3) ==> made_of(
                            plane.data@,
                            info.height as int,
                            info.width as int,
                            measured_pieces(
                                info.width as int,
                                info.height as int,
                                self.radius as int,
                            ),
                            frame,
                        )
                },
                Err(e) => unread(read, info.height, e),
            },
    {
        let radius: u32 = self.radius;
        let halo: u32 = radius + 1;
        let piece = |y0: u32| -> (out: Result<Vec<S>, E>)
            requires
                y0 < info.height,
            ensures
                match out {
                    Ok(v) => {
                        &&& v@.len() == rows_at(info.height as int, y0 as int) * info.width
                        &&& forall|frame: Seq<S>| #[trigger]
                            reads_from(read, frame, info.height, info.width * 3) ==> v@ == measured_piece(
                                frame,
                                info.width as int,
                                info.height as int,
                                radius as int,
                                y0 as int,
                            )
                    },
                    Err(e) => unread(read, info.height, e),
                },
            {
                let b = band_at(info.height, y0, halo, 1);
                match read(b.from, b.to - b.from) {
                    Ok(rows) => {
                        proof {
                            let count = b.to - b.from;
                            assert(count * (info.width * 3) == info.width * count * 3)
                                by (nonlinear_arith);
                        }
                        let out = measure_band(rows.as_slice(), info.width, radius, b);
                        assert(info.width * b.rows == b.rows * info.width) by (nonlinear_arith);
                        Ok(out)
                    },
                    Err(e) => {
                        assert(read_fails(read, info.height, b.from, (b.to - b.from) as u32, e));
                        Err(e)
                    },
                }
            };
        proof {
            assert(info.width * info.height == info.height * info.width) by (nonlinear_arith);
        }
        let ghost goal = measured_pieces::<S>(
            info.width as int,
            info.height as int,
            radius as int,
        );
        match gather_frame(
            read,
            info.height,
            Ghost(info.width * 3),
            info.width as usize,
            piece,
            Ghost(goal),
        ) {
            Ok(data) => Ok(Plane { width: info.width, height: info.height, data }),
            Err(e) => Err(e),
        }
    }
}

/// Is a plane a frame's focus energy, measured band by band and warped after?
///
/// Not warped first and measured after: resampling is a low-pass operation whose severity
/// depends on the sub-pixel phase of the frame's shift, so a frame would read as sharper or
/// softer according to its registration offset.
pub open spec fn evaluated<S: Sample>(
    out: Sheet<S>,
    info: FrameInfo,
    pieces: spec_fn(Seq<S>, int) -> Seq<S>,
    transform: Transform<S>,
    frame: Seq<S>,
) -> bool {
    exists|native: Sheet<S>|
        native.w == info.width && native.h == info.height && #[trigger] made_of(
            native.data,
            info.height as int,
            info.width as int,
            pieces,
            frame,
        ) && out == warped_sheet(native, transform)
}

impl WindowedLaplacian {
    /// Focus energy in the anchor's coordinates.
    pub fn evaluate<S: Sample, E, F: Fn(u32, u32) -> Result<Vec<S>, E>>(
        &self,
        info: FrameInfo,
        transform: Transform<S>,
        read: &F,
    ) -> (r: Result<Plane<S>, E>)
        requires
            measurable(info),
            info.height > 0,
            self.radius < u32::MAX,
            readable(read, info.height, info.width * 3),
        ensures
            match r {
                Ok(plane) => {
                    &&& plane.width == info.width
                    &&& plane.height == info.height
                    &&& whole_sheet(plane@)
                    &&& forall|frame: Seq<S>| #[trigger]
                        reads_from(read, frame, info.height, info.width * 3) ==> evaluated(
                            plane@,
                            info,
                            measured_pieces(
                                info.width as int,
                                info.height as int,
                                self.radius as int,
                            ),
                            transform,
                            frame,
                        )
                },
                Err(e) => unread(read, info.height, e),
            },
    {
        match self.measure_native(info, read) {
            Ok(native) => {
                let plane = warp_plane(&native, transform);
                proof {
                    assert forall|frame: Seq<S>| #[trigger]
                        reads_from(read, frame, info.height, info.width * 3) implies evaluated(
                        plane@,
                        info,
                        measured_pieces(info.width as int, info.height as int, self.radius as int),
                        transform,
                        frame,
                    ) by {
                        assert(made_of(
                            native@.data,
                            info.height as int,
                            info.width as int,
                            measured_pieces(
                                info.width as int,
                                info.height as int,
                                self.radius as int,
                            ),
                            frame,
                        ));
                    }
                }
                Ok(plane)
            },
            Err(e) => Err(e),
        }
    }
}

impl<S: Sample> MultiScaleLaplacian<S> {
    /// Focus energy in the frame's own coordinates, before alignment, where the measure's
    /// reach can be represented. The frame is read a band at a time.
    pub fn measure_native<E, F: Fn(u32, u32) -> Result<Vec<S>, E>>(
        &self,
        info: FrameInfo,
        read: &F,
    ) -> (r: Option<Result<Plane<S>, E>>)
        requires
            measurable(info),
            self.scales >= 1,
            readable(read, info.height, info.width * 3),
        ensures
            match r {
                None => multi_scale_halo(self.radius as int, self.scales as int) > u32::MAX
                    || scale_step(self.scales as int) > u32::MAX,
                Some(Ok(plane)) => {
                    &&& plane.width == info.width
                    &&& plane.height == info.height
                    &&& whole_sheet(plane@)
                    &&& forall|frame: Seq<S>| #[trigger]
                        reads_from(read, frame, info.height, info.width * 3) ==> made_of(
                            plane.data@,
                            info.height as int,
                            info.width as int,
                            multi_measured_pieces(info.width as int, info.height as int, *self),
                            frame,
                        )
                },
                Some(Err(e)) => unread(read, info.height, e),
            },
    {
        let (step, halo) = match self.reach() {
            Some(reach) => reach,
            None => {
                return None;
            },
        };
        proof {
            lemma_two_to_grows(0, (self.scales - 1) as nat);
        }
        let piece = |y0: u32| -> (out: Result<Vec<S>, E>)
            requires
                y0 < info.height,
            ensures
                match out {
                    Ok(v) => {
                        &&& v@.len() == rows_at(info.height as int, y0 as int) * info.width
                        &&& forall|frame: Seq<S>| #[trigger]
                            reads_from(read, frame, info.height, info.width * 3) ==> v@ == multi_measured_piece(
                                frame,
                                info.width as int,
                                info.height as int,
                                *self,
                                y0 as int,
                            )
                    },
                    Err(e) => unread(read, info.height, e),
                },
            {
                let b = band_at(info.height, y0, halo, step);
                match read(b.from, b.to - b.from) {
                    Ok(rows) => {
                        proof {
                            let count = b.to - b.from;
                            assert(count * (info.width * 3) == info.width * count * 3)
                                by (nonlinear_arith);
                        }
                        let out = self.measure_band(rows.as_slice(), info.width, b);
                        assert(info.width * b.rows == b.rows * info.width) by (nonlinear_arith);
                        Ok(out)
                    },
                    Err(e) => {
                        assert(read_fails(read, info.height, b.from, (b.to - b.from) as u32, e));
                        Err(e)
                    },
                }
            };
        proof {
            assert(info.width * info.height == info.height * info.width) by (nonlinear_arith);
        }
        let ghost goal = multi_measured_pieces(info.width as int, info.height as int, *self);
        match gather_frame(
            read,
            info.height,
            Ghost(info.width * 3),
            info.width as usize,
            piece,
            Ghost(goal),
        ) {
            Ok(data) => Some(Ok(Plane { width: info.width, height: info.height, data })),
            Err(e) => Some(Err(e)),
        }
    }

    /// Focus energy in the anchor's coordinates, where the measure's reach can be
    /// represented.
    pub fn evaluate<E, F: Fn(u32, u32) -> Result<Vec<S>, E>>(
        &self,
        info: FrameInfo,
        transform: Transform<S>,
        read: &F,
    ) -> (r: Option<Result<Plane<S>, E>>)
        requires
            measurable(info),
            info.height > 0,
            self.scales >= 1,
            readable(read, info.height, info.width * 3),
        ensures
            match r {
                None => multi_scale_halo(self.radius as int, self.scales as int) > u32::MAX
                    || scale_step(self.scales as int) > u32::MAX,
                Some(Ok(plane)) => {
                    &&& plane.width == info.width
                    &&& plane.height == info.height
                    &&& whole_sheet(plane@)
                    &&& forall|frame: Seq<S>| #[trigger]
                        reads_from(read, frame, info.height, info.width * 3) ==> evaluated(
                            plane@,
                            info,
                            multi_measured_pieces(info.width as int, info.height as int, *self),
                            transform,
                            frame,
                        )
                },
                Some(Err(e)) => unread(read, info.height, e),
            },
    {
        match self.measure_native(info, read) {
            Some(Ok(native)) => {
                let plane = warp_plane(&native, transform);
                proof {
                    assert forall|frame: Seq<S>| #[trigger]
                        reads_from(read, frame, info.height, info.width * 3) implies evaluated(
                        plane@,
                        info,
                        multi_measured_pieces(info.width as int, info.height as int, *self),
                        transform,
                        frame,
                    ) by {
                        assert(made_of(
                            native@.data,
                            info.height as int,
                            info.width as int,
                            multi_measured_pieces(info.width as int, info.height as int, *self),
                            frame,
                        ));
                    }
                }
                Some(Ok(plane))
            },
            Some(Err(e)) => Some(Err(e)),
            None => None,
        }
    }
}

/// Luminance is taken pixel by pixel, so a band's is a band of the frame's.
proof fn lemma_lumas_of_rows<S: Sample>(frame: Seq<S>, w: int, h: int, from: int, to: int)
    requires
        0 < w,
        0 <= from <= to <= h,
        frame.len() == w * h * 3,
    ensures
        lumas(rows_of(frame, w * 3, from, to - from)) == lumas(frame).subrange(from * w, to * w),
{
    assert(from * (w * 3) == 3 * (from * w) && to * (w * 3) == 3 * (to * w)) by (nonlinear_arith);
    assert(0 <= from * w <= to * w <= w * h) by (nonlinear_arith)
        requires
            0 < w,
            0 <= from <= to <= h,
    ;
    assert(lumas(rows_of(frame, w * 3, from, to - from)) =~= lumas(frame).subrange(
        from * w,
        to * w,
    ));
}

/// A frame measured a band at a time is measured as a whole: no seam shows where one band
/// ends and the next begins.
pub proof fn lemma_measured_frame_has_no_seam<S: Exact>(
    data: Seq<S>,
    frame: Seq<S>,
    w: int,
    h: int,
    radius: int,
)
    requires
        0 < w,
        0 <= h <= u32::MAX,
        0 <= radius,
        frame.len() == w * h * 3,
        made_of(data, h, w, measured_pieces(w, h, radius), frame),
    ensures
        data == sharpness(lumas(frame), w, h, radius),
{
    let luma = lumas(frame);
    let whole = sharpness(luma, w, h, radius);
    assert(w * h == h * w) by (nonlinear_arith);
    assert(w * h * 1 == w * h) by (nonlinear_arith);
    assert forall|k: int| 0 <= k && k * BAND_ROWS < h implies #[trigger] band_slice(data, h, w, k)
        == band_slice(whole, h, w, k) by {
        let y0 = k * BAND_ROWS;
        let b = band_of(h, y0, single_scale_halo(radius), 1);
        lemma_bands_cover(h, y0, single_scale_halo(radius), 1);
        lemma_lumas_of_rows(frame, w, h, b.from as int, b.to as int);
        lemma_bands_leave_no_seam(luma, w, h, radius, y0);
        assert(band_slice(data, h, w, k) == measured_pieces::<S>(w, h, radius)(frame, y0));
    }
    lemma_bands_decide(data, whole, h, w);
}

/// Four neighbours that are what they surround differ from it by nothing.
#[verifier::spinoff_prover]
proof fn lemma_nothing_stands_out(v: Fixed)
    ensures
        ({
            let sum = v.spec_plus(v).spec_plus(v).spec_plus(v);
            let lap = sum.spec_minus(Fixed::spec_whole(4).spec_times(v));
            lap.spec_times(lap) == (Fixed { raw: 0 })
        }),
{
    let n = v.raw as int;
    let sum = v.spec_plus(v).spec_plus(v).spec_plus(v);
    let four = Fixed::spec_whole(4).spec_times(v);
    lemma_wrapped_sum(n + n, n);
    lemma_wrapped_sum(n + n + n, n);
    assert(sum.raw == wrap(4 * n));
    assert(Fixed::spec_whole(4).raw == 262144);
    assert((262144 * n) / 65536 == 4 * n);
    assert(four.raw == wrap(4 * n));
    assert(sum == four);
    let none = Fixed { raw: 0 };
    assert(sum.spec_minus(four) == none);
    assert(none.raw * none.raw == 0) by (nonlinear_arith)
        requires
            none.raw == 0,
    ;
    assert(none.spec_times(none) == none);
}

/// A flat frame has no contrast at any pixel.
proof fn lemma_flat_frames_have_no_contrast(
    luma: Seq<Fixed>,
    v: Fixed,
    w: int,
    h: int,
    x: int,
    y: int,
)
    requires
        0 < w,
        0 < h,
        luma.len() == w * h,
        forall|k: int| 0 <= k < w * h ==> #[trigger] luma[k] == v,
    ensures
        contrast(luma, w, h, x, y) == (Fixed { raw: 0 }),
{
    assert forall|a: int, b: int| #[trigger] bordered(luma, w, h, a, b) == v by {
        lemma_place(clamped(a, 0, w - 1), clamped(b, 0, h - 1), w, h);
    }
    assert(bordered(luma, w, h, x - 1, y) == v && bordered(luma, w, h, x + 1, y) == v);
    assert(bordered(luma, w, h, x, y - 1) == v && bordered(luma, w, h, x, y + 1) == v);
    assert(bordered(luma, w, h, x, y) == v);
    lemma_nothing_stands_out(v);
}

/// A flat frame measures no focus anywhere, whatever its brightness.
pub proof fn lemma_flat_frames_measure_zero(luma: Seq<Fixed>, v: Fixed, w: int, h: int, r: int)
    requires
        0 < w,
        0 < h,
        r >= 0,
        luma.len() == w * h,
        forall|k: int| 0 <= k < w * h ==> #[trigger] luma[k] == v,
    ensures
        forall|k: int|
            0 <= k < w * h ==> #[trigger] sharpness(luma, w, h, r)[k] == Fixed::spec_whole(0),
{
    assert(w * h * 1 == w * h) by (nonlinear_arith);
    assert(Fixed::spec_whole(0) == (Fixed { raw: 0 }));
    let none = Fixed { raw: 0 };
    let energy = contrasts(luma, w, h);
    assert forall|k: int| 0 <= k < w * h implies #[trigger] energy[k] == none by {
        crate::layout::lemma_place_of(k, w, h, 1);
        let (x, y) = (crate::layout::column(k, w, 1), crate::layout::row(k, w, 1));
        lemma_flat_frames_have_no_contrast(luma, v, w, h, x, y);
    }
    assert forall|k: int| 0 <= k < w * h implies #[trigger] sharpness(luma, w, h, r)[k] == none by {
        lemma_windows_are_full(energy, none, w, h, r, k);
        assert(window_count(r) * none.raw == 0) by (nonlinear_arith)
            requires
                none.raw == 0,
        ;
    }
}

} // verus!
