//! Gaussian and Laplacian pyramids.
//!
//! Burt & Adelson, *IEEE Trans. Communications* 31(4), 1983, 532-540. A band-pass level
//! is what a level loses by being reduced and expanded again, so the pyramid collapses
//! back to the image it was built from.

use vstd::prelude::*;
use crate::image::{clamp_index, clamped, half_up, halved, smaller};
use crate::layout::{channel, column, fill, lemma_place_of, lemma_sample, row};
use crate::sample::{Exact, Fixed, Sample};

verus! {

/// An interleaved image, as contracts see it.
pub struct Picture<S> {
    pub w: int,
    pub h: int,
    pub c: int,
    pub data: Seq<S>,
}

/// A picture holds one sample for each channel of each of its pixels.
pub open spec fn whole_picture<S>(p: Picture<S>) -> bool {
    p.w >= 0 && p.h >= 0 && p.c >= 0 && p.data.len() == p.w * p.h * p.c
}

/// A channel of a pixel.
pub open spec fn texel<S>(p: Picture<S>, x: int, y: int, ch: int) -> S {
    p.data[crate::layout::place(x, y, ch, p.w, p.c)]
}

/// The picture whose samples `f` gives.
pub open spec fn picture<S>(w: int, h: int, c: int, f: spec_fn(int, int, int) -> S) -> Picture<S> {
    Picture { w, h, c, data: crate::layout::image_of(w, h, c, f) }
}

/// An interleaved image.
pub struct Bitmap<S> {
    pub width: u32,
    pub height: u32,
    pub channels: usize,
    pub data: Vec<S>,
}

impl<S> View for Bitmap<S> {
    type V = Picture<S>;

    open spec fn view(&self) -> Picture<S> {
        Picture {
            w: self.width as int,
            h: self.height as int,
            c: self.channels as int,
            data: self.data@,
        }
    }
}

impl<S: Sample> Bitmap<S> {
    /// A black image.
    pub fn new(width: u32, height: u32, channels: usize) -> (r: Self)
        requires
            width * height <= usize::MAX,
            width * height * channels <= usize::MAX,
        ensures
            r@ == black::<S>(width as int, height as int, channels as int),
            whole_picture(r@),
    {
        let zero = S::whole(0);
        assert(0 <= width * height * channels) by (nonlinear_arith);
        let n: usize = width as usize * height as usize * channels;
        let mut data: Vec<S> = Vec::with_capacity(n);
        let mut i: usize = 0;
        while i < n
            invariant
                i <= n,
                data@.len() == i,
                zero == S::spec_whole(0),
                forall|k: int| 0 <= k < i ==> #[trigger] data@[k] == zero,
            decreases n - i,
        {
            data.push(zero);
            i += 1;
        }
        assert(data@ =~= black::<S>(width as int, height as int, channels as int).data);
        Bitmap { width, height, channels, data }
    }
}

/// A picture of zeros.
pub open spec fn black<S: Sample>(w: int, h: int, c: int) -> Picture<S> {
    Picture { w, h, c, data: Seq::new((w * h * c) as nat, |i: int| S::spec_whole(0)) }
}

proof fn lemma_picture_size<S>(w: int, h: int, c: int, f: spec_fn(int, int, int) -> S)
    requires
        w >= 0,
        h >= 0,
        c >= 0,
    ensures
        whole_picture(picture(w, h, c, f)),
{
    assert(w * h * c >= 0) by (nonlinear_arith)
        requires
            w >= 0,
            h >= 0,
            c >= 0,
    ;
}

/// How many pyramid levels an image supports before the coarsest drops below `floor`.
pub open spec fn levels_of(w: int, h: int, floor: int) -> nat
    decreases w,
{
    if w >= 2 && smaller(w, h) / 2 >= (if floor >= 1 {
        floor
    } else {
        1
    }) {
        levels_of(half_up(w), half_up(h), floor) + 1
    } else {
        1
    }
}

/// A pyramid has fewer levels than the doublings that reach its width.
proof fn lemma_levels_bound(w: int, h: int, floor: int)
    requires
        0 <= w,
    ensures
        1 <= levels_of(w, h, floor) <= w + 1,
    decreases w,
{
    if w >= 2 && smaller(w, h) / 2 >= (if floor >= 1 {
        floor
    } else {
        1
    }) {
        lemma_levels_bound(half_up(w), half_up(h), floor);
    }
}

/// How many pyramid levels an image of this size supports before the coarsest drops below
/// `floor`.
///
/// Derived rather than fixed: a fixed count would make the coarsest level stand for
/// another physical scale on each stack.
pub fn level_count(width: u32, height: u32, floor: u32) -> (levels: usize)
    ensures
        levels == levels_of(width as int, height as int, floor as int),
        levels >= 1,
{
    let least: u32 = if floor >= 1 {
        floor
    } else {
        1
    };
    let mut levels: usize = 1;
    let mut w = width;
    let mut h = height;
    while w / 2 >= least && h / 2 >= least
        invariant
            least == (if floor >= 1 {
                floor as int
            } else {
                1
            }),
            w <= width,
            1 <= levels <= 1 + width - w,
            levels_of(width as int, height as int, floor as int) == levels - 1 + levels_of(
                w as int,
                h as int,
                floor as int,
            ),
        decreases w,
    {
        w = halved(w);
        h = halved(h);
        levels += 1;
    }
    levels
}

/// The binomial kernel: 1, 4, 6, 4, 1 sixteenths.
pub open spec fn kernel<S: Sample>(k: int) -> S {
    S::spec_whole(
        if k == 0 || k == 4 {
            1
        } else if k == 1 || k == 3 {
            4
        } else {
            6
        },
    ).spec_over(S::spec_whole(16))
}

/// The first `count` of the five taps of the blur centred on `at`, added in ascending
/// order. Taps outside the axis repeat its border.
pub open spec fn blurred<S: Sample>(tap: spec_fn(int) -> S, at: int, n: int, count: nat) -> S
    decreases count,
{
    if count == 0 {
        S::spec_whole(0)
    } else {
        let k = count - 1;
        blurred(tap, at, n, k as nat).spec_plus(
            kernel::<S>(k).spec_times(tap(clamped(at + k - 2, 0, n - 1))),
        )
    }
}

/// Every other column of the picture, blurred along its rows.
pub open spec fn narrowed<S: Sample>(p: Picture<S>) -> Picture<S> {
    picture(
        half_up(p.w),
        p.h,
        p.c,
        |x: int, y: int, ch: int| blurred(|i: int| texel(p, i, y, ch), 2 * x, p.w, 5),
    )
}

/// The picture blurred with the binomial kernel, with every other sample dropped.
pub open spec fn shrunk<S: Sample>(p: Picture<S>) -> Picture<S> {
    let q = narrowed(p);
    picture(
        half_up(p.w),
        half_up(p.h),
        p.c,
        |x: int, y: int, ch: int| blurred(|j: int| texel(q, x, j, ch), 2 * y, p.h, 5),
    )
}

fn kernel_at<S: Sample>(k: usize) -> (r: S)
    requires
        k < 5,
    ensures
        r == kernel::<S>(k as int),
{
    let n: i64 = if k == 0 || k == 4 {
        1
    } else if k == 1 || k == 3 {
        4
    } else {
        6
    };
    S::whole(n).over(S::whole(16))
}

/// The five-tap blur at one position of an axis of `n` samples.
fn blur<S: Sample, F: Fn(usize) -> S>(
    tap: F,
    at: usize,
    n: usize,
    Ghost(g): Ghost<spec_fn(int) -> S>,
) -> (r: S)
    requires
        0 < n <= 0xffff_ffff,
        at <= 0x1_ffff_ffff,
        forall|i: usize| i < n ==> #[trigger] call_requires(tap, (i,)),
        forall|i: usize, v: S|
            i < n && #[trigger] call_ensures(tap, (i,), v) ==> v == g(i as int),
    ensures
        r == blurred(g, at as int, n as int, 5),
{
    let mut acc = S::whole(0);
    let mut k: usize = 0;
    while k < 5
        invariant
            k <= 5,
            0 < n <= 0xffff_ffff,
            at <= 0x1_ffff_ffff,
            acc == blurred(g, at as int, n as int, k as nat),
            forall|i: usize| i < n ==> #[trigger] call_requires(tap, (i,)),
            forall|i: usize, v: S|
                i < n && #[trigger] call_ensures(tap, (i,), v) ==> v == g(i as int),
        decreases 5 - k,
    {
        let i = clamp_index(at as i64 + k as i64 - 2, n);
        let v = tap(i);
        acc = acc.plus(kernel_at::<S>(k).times(v));
        k += 1;
    }
    acc
}

/// A sample's place in a picture that has it.
proof fn lemma_texel<S>(p: Picture<S>, x: int, y: int, ch: int)
    requires
        whole_picture(p),
        0 <= x < p.w,
        0 <= y < p.h,
        0 <= ch < p.c,
    ensures
        0 <= crate::layout::place(x, y, ch, p.w, p.c) < p.data.len(),
        0 <= y * p.w + x,
        0 <= y * p.w,
        y * p.w + x <= (y * p.w + x) * p.c,
        (y * p.w + x) * p.c <= crate::layout::place(x, y, ch, p.w, p.c),
{
    crate::layout::lemma_sample(x, y, ch, p.w, p.h, p.c);
    crate::layout::lemma_place(x, y, p.w, p.h);
    let i = y * p.w + x;
    assert(i <= i * p.c) by (nonlinear_arith)
        requires
            0 <= i,
            1 <= p.c,
    ;
}

/// Reads one sample of an interleaved image.
fn read<S: Sample>(
    data: &[S],
    w: usize,
    c: usize,
    x: usize,
    y: usize,
    ch: usize,
    Ghost(p): Ghost<Picture<S>>,
) -> (r: S)
    requires
        whole_picture(p),
        data@ == p.data,
        w == p.w,
        c == p.c,
        x < w,
        y < p.h,
        ch < c,
    ensures
        r == texel(p, x as int, y as int, ch as int),
{
    assert(data@.len() == data.len());
    proof {
        lemma_texel(p, x as int, y as int, ch as int);
    }
    data[(y * w + x) * c + ch]
}

/// Smaller sides make a smaller picture.
proof fn lemma_area(w: int, h: int, c: int, bw: int, bh: int)
    requires
        0 <= w <= bw,
        0 <= h <= bh,
        0 <= c,
    ensures
        0 <= w * h <= bw * bh,
        0 <= w * h * c <= bw * bh * c,
        bh >= 1 ==> 0 <= w * c <= bw * bh * c,
{
    assert(0 <= w * h <= bw * bh) by (nonlinear_arith)
        requires
            0 <= w <= bw,
            0 <= h <= bh,
    ;
    assert(0 <= w * h * c <= bw * bh * c) by (nonlinear_arith)
        requires
            0 <= w * h <= bw * bh,
            0 <= c,
    ;
    if bh >= 1 {
        assert(0 <= w <= bw * bh) by (nonlinear_arith)
            requires
                0 <= w <= bw,
                1 <= bh,
        ;
        assert(0 <= w * c <= bw * bh * c) by (nonlinear_arith)
            requires
                0 <= w <= bw * bh,
                0 <= c,
        ;
    }
}

/// Blur with the binomial kernel and drop every other sample.
///
/// The blur is evaluated only at the samples that survive.
pub fn reduce<S: Sample>(src: &Bitmap<S>) -> (out: Bitmap<S>)
    requires
        whole_picture(src@),
        src.width > 0,
        src.height > 0,
    ensures
        out@ == shrunk(src@),
        whole_picture(out@),
        out.width > 0,
        out.height > 0,
{
    reduce_data(src.data.as_slice(), src.width, src.height, src.channels)
}

/// [`reduce`] over borrowed samples, so that a source that is not a [`Bitmap`] does not
/// have to become one first.
pub fn reduce_data<S: Sample>(data: &[S], width: u32, height: u32, channels: usize) -> (out: Bitmap<
    S,
>)
    requires
        data@.len() == width * height * channels,
        width > 0,
        height > 0,
    ensures
        out@ == shrunk(
            Picture { w: width as int, h: height as int, c: channels as int, data: data@ },
        ),
        whole_picture(out@),
        out.width > 0,
        out.height > 0,
{
    let ghost p = Picture {
        w: width as int,
        h: height as int,
        c: channels as int,
        data: data@,
    };
    assert(data@.len() == data.len());
    let (w, h, c): (usize, usize, usize) = (width as usize, height as usize, channels);
    let (out_width, out_height) = (halved(width), halved(height));
    let (ow, oh): (usize, usize) = (out_width as usize, out_height as usize);
    proof {
        lemma_area(ow as int, h as int, c as int, w as int, h as int);
        lemma_area(ow as int, oh as int, c as int, w as int, h as int);
    }
    let ghost across = |x: int, y: int, ch: int|
        blurred(|i: int| texel(p, i, y, ch), 2 * x, p.w, 5);
    let narrow = fill(
        ow,
        h,
        c,
        (|x: usize, y: usize, ch: usize| -> (v: S)
            requires
                x < ow,
                y < h,
                ch < c,
            ensures
                v == across(x as int, y as int, ch as int),
        {
            let ghost g = |i: int| texel(p, i, y as int, ch as int);
            blur(
                (|i: usize| -> (t: S)
                    requires
                        i < w,
                    ensures
                        t == g(i as int),
                {
                    read(data, w, c, i, y, ch, Ghost(p))
                }),
                2 * x,
                w,
                Ghost(g),
            )
        }),
        Ghost(across),
    );
    let ghost q = narrowed(p);
    let rows = narrow.as_slice();
    proof {
        lemma_picture_size(q.w, q.h, q.c, across);
        assert(rows@ =~= q.data);
    }
    let ghost down = |x: int, y: int, ch: int|
        blurred(|j: int| texel(q, x, j, ch), 2 * y, p.h, 5);
    let data = fill(
        ow,
        oh,
        c,
        (|x: usize, y: usize, ch: usize| -> (v: S)
            requires
                x < ow,
                y < oh,
                ch < c,
            ensures
                v == down(x as int, y as int, ch as int),
        {
            let ghost g = |j: int| texel(q, x as int, j, ch as int);
            blur(
                (|j: usize| -> (t: S)
                    requires
                        j < h,
                    ensures
                        t == g(j as int),
                {
                    read(rows, ow, c, x, j, ch, Ghost(q))
                }),
                2 * y,
                h,
                Ghost(g),
            )
        }),
        Ghost(down),
    );
    proof {
        lemma_picture_size(ow as int, oh as int, c as int, down);
        assert(data@ =~= shrunk(p).data);
    }
    Bitmap { width: out_width, height: out_height, channels, data }
}

/// One expanded sample: even outputs take 1, 6, 1 eighths of the source around their
/// half, odd outputs the mean of the two samples they lie between. Both sets of weights
/// sum to one, so a constant expands to that constant, at the borders too.
pub open spec fn phase<S: Sample>(tap: spec_fn(int) -> S, at: int, n: int) -> S {
    let i = at / 2;
    let here = tap(clamped(i, 0, n - 1));
    let next = tap(clamped(i + 1, 0, n - 1));
    if at % 2 == 0 {
        tap(clamped(i - 1, 0, n - 1)).spec_plus(S::spec_whole(6).spec_times(here)).spec_plus(
            next,
        ).spec_over(S::spec_whole(8))
    } else {
        here.spec_plus(next).spec_over(S::spec_whole(2))
    }
}

/// The picture expanded along its rows.
pub open spec fn widened<S: Sample>(p: Picture<S>, w: int) -> Picture<S> {
    picture(
        w,
        p.h,
        p.c,
        |x: int, y: int, ch: int| phase(|i: int| texel(p, i, y, ch), x, p.w),
    )
}

/// The picture expanded to a size.
pub open spec fn expanded<S: Sample>(p: Picture<S>, w: int, h: int) -> Picture<S> {
    let q = widened(p, w);
    picture(
        w,
        h,
        p.c,
        |x: int, y: int, ch: int| phase(|j: int| texel(q, x, j, ch), y, p.h),
    )
}

fn expand_phase<S: Sample, F: Fn(usize) -> S>(
    tap: F,
    at: usize,
    n: usize,
    Ghost(g): Ghost<spec_fn(int) -> S>,
) -> (r: S)
    requires
        0 < n <= 0xffff_ffff,
        at <= 0xffff_ffff,
        forall|i: usize| i < n ==> #[trigger] call_requires(tap, (i,)),
        forall|i: usize, v: S|
            i < n && #[trigger] call_ensures(tap, (i,), v) ==> v == g(i as int),
    ensures
        r == phase(g, at as int, n as int),
{
    let i: i64 = (at / 2) as i64;
    let here = tap(clamp_index(i, n));
    let next = tap(clamp_index(i + 1, n));
    if at % 2 == 0 {
        let before = tap(clamp_index(i - 1, n));
        before.plus(S::whole(6).times(here)).plus(next).over(S::whole(8))
    } else {
        here.plus(next).over(S::whole(2))
    }
}

/// Upsample to the given size.
pub fn expand<S: Sample>(src: &Bitmap<S>, width: u32, height: u32) -> (out: Bitmap<S>)
    requires
        whole_picture(src@),
        src.width > 0,
        src.height > 0,
        width * src.channels <= usize::MAX,
        width * src.height * src.channels <= usize::MAX,
        width * height * src.channels <= usize::MAX,
    ensures
        out@ == expanded(src@, width as int, height as int),
        whole_picture(out@),
{
    let ghost p = src@;
    let data = src.data.as_slice();
    let (w, h, c): (usize, usize, usize) = (
        src.width as usize,
        src.height as usize,
        src.channels,
    );
    let (ow, oh): (usize, usize) = (width as usize, height as usize);
    let ghost across = |x: int, y: int, ch: int| phase(|i: int| texel(p, i, y, ch), x, p.w);
    let wide = fill(
        ow,
        h,
        c,
        (|x: usize, y: usize, ch: usize| -> (v: S)
            requires
                x < ow,
                y < h,
                ch < c,
            ensures
                v == across(x as int, y as int, ch as int),
        {
            let ghost g = |i: int| texel(p, i, y as int, ch as int);
            expand_phase(
                (|i: usize| -> (t: S)
                    requires
                        i < w,
                    ensures
                        t == g(i as int),
                {
                    read(data, w, c, i, y, ch, Ghost(p))
                }),
                x,
                w,
                Ghost(g),
            )
        }),
        Ghost(across),
    );
    let ghost q = widened(p, width as int);
    let rows = wide.as_slice();
    proof {
        lemma_picture_size(q.w, q.h, q.c, across);
        assert(rows@ =~= q.data);
    }
    let ghost down = |x: int, y: int, ch: int| phase(|j: int| texel(q, x, j, ch), y, p.h);
    let data = fill(
        ow,
        oh,
        c,
        (|x: usize, y: usize, ch: usize| -> (v: S)
            requires
                x < ow,
                y < oh,
                ch < c,
            ensures
                v == down(x as int, y as int, ch as int),
        {
            let ghost g = |j: int| texel(q, x as int, j, ch as int);
            expand_phase(
                (|j: usize| -> (t: S)
                    requires
                        j < h,
                    ensures
                        t == g(j as int),
                {
                    read(rows, ow, c, x, j, ch, Ghost(q))
                }),
                y,
                h,
                Ghost(g),
            )
        }),
        Ghost(down),
    );
    proof {
        lemma_picture_size(ow as int, oh as int, c as int, down);
        assert(data@ =~= expanded(p, width as int, height as int).data);
    }
    Bitmap { width, height, channels: src.channels, data }
}

/// The sum of two pictures, sample by sample.
pub open spec fn summed<S: Sample>(a: Picture<S>, b: Picture<S>) -> Picture<S> {
    Picture {
        w: a.w,
        h: a.h,
        c: a.c,
        data: Seq::new(a.data.len(), |i: int| a.data[i].spec_plus(b.data[i])),
    }
}

/// The difference of two pictures, sample by sample.
pub open spec fn difference<S: Sample>(a: Picture<S>, b: Picture<S>) -> Picture<S> {
    Picture {
        w: a.w,
        h: a.h,
        c: a.c,
        data: Seq::new(a.data.len(), |i: int| a.data[i].spec_minus(b.data[i])),
    }
}

/// Level `i` of the Gaussian pyramid.
pub open spec fn gaussian<S: Sample>(p: Picture<S>, i: nat) -> Picture<S>
    decreases i,
{
    if i == 0 {
        p
    } else {
        shrunk(gaussian(p, (i - 1) as nat))
    }
}

/// Level `i` of a Laplacian pyramid of `levels` levels: what the level loses by being
/// reduced, and at the coarsest the level itself.
pub open spec fn laplacian<S: Sample>(p: Picture<S>, levels: nat, i: nat) -> Picture<S> {
    let g = gaussian(p, i);
    if i + 1 < levels {
        difference(g, expanded(gaussian(p, i + 1), g.w, g.h))
    } else {
        g
    }
}

/// A pyramid collapsed: the coarsest level expanded onto the next, and so on down.
pub open spec fn collapsed<S: Sample>(bands: Seq<Picture<S>>, current: Picture<S>) -> Picture<S>
    decreases bands.len(),
{
    if bands.len() == 0 {
        current
    } else {
        let band = bands.last();
        collapsed(bands.drop_last(), summed(expanded(current, band.w, band.h), band))
    }
}

/// The sides of level `i`.
pub open spec fn side(n: int, i: nat) -> int
    decreases i,
{
    if i == 0 {
        n
    } else {
        half_up(side(n, (i - 1) as nat))
    }
}

pub proof fn lemma_side(n: int, i: nat)
    requires
        n >= 1,
    ensures
        1 <= side(n, i) <= n,
    decreases i,
{
    if i > 0 {
        lemma_side(n, (i - 1) as nat);
    }
}

/// Every Gaussian level is whole, and half the size of the one before, rounded up.
pub proof fn lemma_gaussian_size<S: Sample>(p: Picture<S>, i: nat)
    requires
        whole_picture(p),
        p.w >= 1,
        p.h >= 1,
    ensures
        whole_picture(gaussian(p, i)),
        gaussian(p, i).w == side(p.w, i),
        gaussian(p, i).h == side(p.h, i),
        gaussian(p, i).c == p.c,
        1 <= side(p.w, i) <= p.w,
        1 <= side(p.h, i) <= p.h,
    decreases i,
{
    lemma_side(p.w, i);
    lemma_side(p.h, i);
    if i > 0 {
        lemma_gaussian_size(p, (i - 1) as nat);
        let g = gaussian(p, (i - 1) as nat);
        let q = narrowed(g);
        lemma_picture_size(
            half_up(g.w),
            half_up(g.h),
            g.c,
            |x: int, y: int, ch: int| blurred(|j: int| texel(q, x, j, ch), 2 * y, g.h, 5),
        );
    }
}

/// Expansion gives a whole picture.
proof fn lemma_expanded_size<S: Sample>(p: Picture<S>, w: int, h: int)
    requires
        w >= 0,
        h >= 0,
        p.c >= 0,
    ensures
        whole_picture(expanded(p, w, h)),
{
    let q = widened(p, w);
    lemma_picture_size(
        w,
        h,
        p.c,
        |x: int, y: int, ch: int| phase(|j: int| texel(q, x, j, ch), y, p.h),
    );
}

/// Adding back what a level lost gives the level, for exact samples.
proof fn lemma_lost_comes_back<S: Exact>(g: Picture<S>, e: Picture<S>)
    requires
        g.data.len() == e.data.len(),
        g.w == e.w,
        g.h == e.h,
        g.c == e.c,
    ensures
        summed(e, difference(g, e)) == g,
{
    assert forall|i: int| 0 <= i < g.data.len() implies #[trigger] summed(
        e,
        difference(g, e),
    ).data[i] == g.data[i] by {
        let lost = g.data[i].spec_minus(e.data[i]);
        S::lemma_plus_commutes(e.data[i], lost);
        S::lemma_minus_plus(g.data[i], e.data[i]);
    }
    assert(summed(e, difference(g, e)).data =~= g.data);
}

/// The levels of a Laplacian pyramid.
pub open spec fn laplacian_levels<S: Sample>(p: Picture<S>, levels: nat) -> Seq<Picture<S>> {
    Seq::new(
        if levels >= 1 {
            levels
        } else {
            1
        },
        |i: int| laplacian(p, levels, i as nat),
    )
}

/// The finer levels collapsed onto a Gaussian level give the picture back.
proof fn lemma_collapse_from<S: Exact>(p: Picture<S>, levels: nat, i: nat)
    requires
        whole_picture(p),
        p.w >= 1,
        p.h >= 1,
        i < levels,
    ensures
        collapsed(laplacian_levels(p, levels).take(i as int), gaussian(p, i)) == p,
    decreases i,
{
    let bands = laplacian_levels(p, levels).take(i as int);
    if i > 0 {
        let k = (i - 1) as nat;
        lemma_gaussian_size(p, k);
        lemma_gaussian_size(p, i);
        let g = gaussian(p, k);
        let e = expanded(gaussian(p, i), g.w, g.h);
        lemma_expanded_size(gaussian(p, i), g.w, g.h);
        lemma_lost_comes_back(g, e);
        assert(bands.last() == laplacian(p, levels, k));
        assert(bands.drop_last() =~= laplacian_levels(p, levels).take(k as int));
        lemma_collapse_from(p, levels, k);
    }
}

/// The pyramid reconstructs: for exact samples, collapsing a Laplacian pyramid gives back
/// the picture it was built from, at any depth and any size.
pub proof fn lemma_pyramid_reconstructs<S: Exact>(p: Picture<S>, levels: nat)
    requires
        whole_picture(p),
        p.w >= 1,
        p.h >= 1,
        levels >= 1,
    ensures
        collapsed(laplacian_levels(p, levels).drop_last(), laplacian_levels(p, levels).last()) == p,
{
    let all = laplacian_levels(p, levels);
    let i = (levels - 1) as nat;
    lemma_collapse_from(p, levels, i);
    assert(all.drop_last() =~= all.take(i as int));
    assert(all.last() == gaussian(p, i));
}

/// The pictures of a list of bitmaps.
pub open spec fn pictures<S>(v: Seq<Bitmap<S>>) -> Seq<Picture<S>> {
    v.map_values(|b: Bitmap<S>| b@)
}

/// Successive reductions, finest first.
///
/// Takes the base by value: it becomes the finest level.
pub fn gaussian_pyramid<S: Sample>(base: Bitmap<S>, levels: usize) -> (out: Vec<Bitmap<S>>)
    requires
        whole_picture(base@),
        base.width > 0,
        base.height > 0,
    ensures
        out@.len() == (if levels >= 1 {
            levels as int
        } else {
            1
        }),
        forall|i: int|
            0 <= i < out@.len() ==> (#[trigger] out@[i])@ == gaussian(base@, i as nat)
                && whole_picture(out@[i]@) && out@[i].width > 0 && out@[i].height > 0,
{
    let ghost p = base@;
    let mut out: Vec<Bitmap<S>> = Vec::new();
    out.push(base);
    while out.len() < levels
        invariant
            1 <= out@.len(),
            out@.len() <= levels || out@.len() == 1,
            forall|i: int|
                0 <= i < out@.len() ==> (#[trigger] out@[i])@ == gaussian(p, i as nat)
                    && whole_picture(out@[i]@) && out@[i].width > 0 && out@[i].height > 0,
        decreases levels - out@.len(),
    {
        let next = reduce(&out[out.len() - 1]);
        out.push(next);
    }
    out
}

/// What a level loses by being reduced to `coarser`.
fn band_of<S: Sample>(level: &Bitmap<S>, coarser: &Bitmap<S>) -> (out: Bitmap<S>)
    requires
        whole_picture(level@),
        whole_picture(coarser@),
        coarser.width > 0,
        0 < coarser.height <= level.height,
        coarser.channels == level.channels,
    ensures
        out@ == difference(level@, expanded(coarser@, level@.w, level@.h)),
        whole_picture(out@),
{
    let n = level.data.len();
    proof {
        lemma_area(
            level.width as int,
            coarser.height as int,
            level.channels as int,
            level.width as int,
            level.height as int,
        );
    }
    let up = expand(coarser, level.width, level.height);
    let mut data: Vec<S> = Vec::with_capacity(n);
    let mut i: usize = 0;
    while i < n
        invariant
            i <= n,
            n == level.data@.len(),
            n == up.data@.len(),
            data@.len() == i,
            forall|k: int|
                0 <= k < i ==> #[trigger] data@[k] == level.data@[k].spec_minus(up.data@[k]),
        decreases n - i,
    {
        data.push(level.data[i].minus(up.data[i]));
        i += 1;
    }
    assert(data@ =~= difference(level@, up@).data);
    Bitmap { width: level.width, height: level.height, channels: level.channels, data }
}

fn copy_of<S: Sample>(b: &Bitmap<S>) -> (out: Bitmap<S>)
    ensures
        out@ == b@,
        out.width == b.width,
        out.height == b.height,
        out.channels == b.channels,
{
    let n = b.data.len();
    let mut data: Vec<S> = Vec::with_capacity(n);
    let mut i: usize = 0;
    while i < n
        invariant
            i <= n,
            n == b.data@.len(),
            data@.len() == i,
            forall|k: int| 0 <= k < i ==> #[trigger] data@[k] == b.data@[k],
        decreases n - i,
    {
        data.push(b.data[i]);
        i += 1;
    }
    assert(data@ =~= b.data@);
    Bitmap { width: b.width, height: b.height, channels: b.channels, data }
}

/// Band-pass levels, with the coarsest Gaussian residual kept last so that the pyramid
/// reconstructs.
pub fn laplacian_pyramid<S: Sample>(base: Bitmap<S>, levels: usize) -> (out: Vec<Bitmap<S>>)
    requires
        whole_picture(base@),
        base.width > 0,
        base.height > 0,
    ensures
        pictures(out@) == laplacian_levels(base@, levels as nat),
        out@.len() == (if levels >= 1 {
            levels as int
        } else {
            1
        }),
        forall|i: int|
            0 <= i < out@.len() ==> (#[trigger] out@[i])@ == laplacian(
                base@,
                levels as nat,
                i as nat,
            ) && whole_picture(out@[i]@) && out@[i]@.w == side(base@.w, i as nat) && out@[i]@.h
                == side(base@.h, i as nat) && out@[i]@.c == base@.c && out@[i].width > 0
                && out@[i].height > 0,
{
    let ghost p = base@;
    let mut gaussians = gaussian_pyramid(base, levels);
    let n = gaussians.len();
    let mut out: Vec<Bitmap<S>> = Vec::new();
    let mut i: usize = 0;
    while i < n
        invariant
            i <= n,
            n == (if levels >= 1 {
                levels as int
            } else {
                1
            }),
            whole_picture(p),
            p.w > 0,
            p.h > 0,
            gaussians@.len() == n,
            forall|k: int|
                0 <= k < n ==> (#[trigger] gaussians@[k])@ == gaussian(p, k as nat)
                    && whole_picture(gaussians@[k]@) && gaussians@[k].width > 0
                    && gaussians@[k].height > 0,
            out@.len() == i,
            forall|k: int|
                0 <= k < i ==> (#[trigger] out@[k])@ == laplacian(p, levels as nat, k as nat)
                    && whole_picture(out@[k]@) && out@[k]@.w == side(p.w, k as nat) && out@[k]@.h
                    == side(p.h, k as nat) && out@[k]@.c == p.c && out@[k].width > 0
                    && out@[k].height > 0,
        decreases n - i,
    {
        proof {
            lemma_gaussian_size(p, i as nat);
            lemma_gaussian_size(p, (i + 1) as nat);
            assert(gaussians@[i as int]@ == gaussian(p, i as nat));
        }
        if i + 1 < n {
            assert(gaussians@[i + 1]@ == gaussian(p, (i + 1) as nat));
            let band = band_of(&gaussians[i], &gaussians[i + 1]);
            out.push(band);
        } else {
            let last = copy_of(&gaussians[i]);
            out.push(last);
        }
        i += 1;
    }
    assert(pictures(out@) =~= laplacian_levels(p, levels as nat));
    out
}

/// Each band is at least as tall and as wide as what the coarser bands collapse to, so
/// that expanding onto it needs no more room than the band itself.
pub open spec fn collapsible<S>(bands: Seq<Picture<S>>, top: Picture<S>) -> bool {
    &&& whole_picture(top)
    &&& top.w > 0
    &&& top.h > 0
    &&& forall|i: int|
        0 <= i < bands.len() ==> whole_picture(#[trigger] bands[i]) && bands[i].c == top.c
            && bands[i].w > 0 && bands[i].h >= (if i + 1 < bands.len() {
            bands[i + 1].h
        } else {
            top.h
        })
}

/// A band of a collapsible pyramid, and what stands above it.
proof fn lemma_band_below<S>(pyramid: Seq<Bitmap<S>>, level: int)
    requires
        0 < level < pyramid.len(),
        collapsible(pictures(pyramid).drop_last(), pictures(pyramid).last()),
    ensures
        whole_picture(pyramid[level - 1]@),
        pyramid[level - 1]@.c == pictures(pyramid).last().c,
        pyramid[level - 1].width > 0,
        pyramid[level - 1].height >= pyramid[level].height,
        pyramid[level].width > 0,
        pyramid[level].height > 0,
        pictures(pyramid).drop_last().take(level).last() == pyramid[level - 1]@,
        pictures(pyramid).drop_last().take(level).drop_last() == pictures(pyramid).drop_last().take(
            level - 1,
        ),
{
    let all = pictures(pyramid);
    let bands = all.drop_last();
    assert(bands[level - 1] == pyramid[level - 1]@);
    if level < bands.len() {
        assert(bands[level] == pyramid[level]@);
    } else {
        assert(all.last() == pyramid[level]@);
    }
    assert(bands.take(level).drop_last() =~= bands.take(level - 1));
    lemma_heights(pyramid, level);
}

/// Every level of a collapsible pyramid has rows and columns.
proof fn lemma_heights<S>(pyramid: Seq<Bitmap<S>>, level: int)
    requires
        0 <= level < pyramid.len(),
        collapsible(pictures(pyramid).drop_last(), pictures(pyramid).last()),
    ensures
        pyramid[level].height > 0,
        pyramid[level].width > 0,
    decreases pyramid.len() - level,
{
    let bands = pictures(pyramid).drop_last();
    if level < bands.len() {
        lemma_heights(pyramid, level + 1);
        assert(bands[level] == pyramid[level]@);
        if level + 1 < bands.len() {
            assert(bands[level + 1] == pyramid[level + 1]@);
        }
    }
}

/// What stands above a band, expanded onto it.
fn collapse_onto<S: Sample>(current: &Bitmap<S>, target: &Bitmap<S>) -> (out: Bitmap<S>)
    requires
        whole_picture(current@),
        whole_picture(target@),
        current.width > 0,
        0 < current.height <= target.height,
        current.channels == target.channels,
    ensures
        out@ == summed(expanded(current@, target@.w, target@.h), target@),
        whole_picture(out@),
        out.width == target.width,
        out.height == target.height,
        out.channels == target.channels,
{
    let n = target.data.len();
    proof {
        lemma_area(
            target.width as int,
            current.height as int,
            target.channels as int,
            target.width as int,
            target.height as int,
        );
    }
    let up = expand(current, target.width, target.height);
    let mut data: Vec<S> = Vec::with_capacity(n);
    let mut i: usize = 0;
    while i < n
        invariant
            i <= n,
            n == up.data@.len(),
            n == target.data@.len(),
            data@.len() == i,
            forall|k: int|
                0 <= k < i ==> #[trigger] data@[k] == up.data@[k].spec_plus(target.data@[k]),
        decreases n - i,
    {
        data.push(up.data[i].plus(target.data[i]));
        i += 1;
    }
    assert(data@ =~= summed(up@, target@).data);
    Bitmap { width: target.width, height: target.height, channels: target.channels, data }
}

/// Collapse a Laplacian pyramid back to an image.
pub fn reconstruct<S: Sample>(pyramid: &Vec<Bitmap<S>>) -> (out: Bitmap<S>)
    requires
        pyramid@.len() > 0,
        collapsible(pictures(pyramid@).drop_last(), pictures(pyramid@).last()),
    ensures
        out@ == collapsed(pictures(pyramid@).drop_last(), pictures(pyramid@).last()),
        whole_picture(out@),
        out.width == pyramid@[0].width,
        out.height == pyramid@[0].height,
        out.channels == pyramid@[0].channels,
{
    let ghost all = pictures(pyramid@);
    let ghost bands = all.drop_last();
    let ghost top = all.last();
    let mut level: usize = pyramid.len() - 1;
    assert(top == pyramid@[level as int]@);
    let mut current = copy_of(&pyramid[level]);
    assert(bands.take(level as int) =~= bands);
    while level > 0
        invariant
            level < pyramid@.len(),
            all == pictures(pyramid@),
            bands == all.drop_last(),
            top == all.last(),
            collapsible(bands, top),
            current.width == pyramid@[level as int].width,
            current.height == pyramid@[level as int].height,
            current.channels == pyramid@[level as int].channels,
            current.channels == top.c,
            whole_picture(current@),
            collapsed(bands.take(level as int), current@) == collapsed(bands, top),
        decreases level,
    {
        proof {
            lemma_band_below(pyramid@, level as int);
        }
        current = collapse_onto(&current, &pyramid[level - 1]);
        level -= 1;
    }
    current
}

/// A picture that is the same everywhere.
pub open spec fn even<S>(w: int, h: int, c: int, v: S) -> Picture<S> {
    picture(w, h, c, |x: int, y: int, ch: int| v)
}

/// Interpolating between equals gives them back.
#[verifier::spinoff_prover]
pub(crate) proof fn lemma_phase_of_a_constant(tap: spec_fn(int) -> Fixed, v: Fixed, at: int, n: int)
    requires
        n > 0,
        forall|k: int| 0 <= k < n ==> #[trigger] tap(k) == v,
        -0x1000_0000_0000_0000 <= v.raw < 0x1000_0000_0000_0000,
    ensures
        phase(tap, at, n) == v,
{
    let i = at / 2;
    assert(tap(clamped(i, 0, n - 1)) == v);
    assert(tap(clamped(i + 1, 0, n - 1)) == v);
    assert(tap(clamped(i - 1, 0, n - 1)) == v);
    let six = Fixed::spec_whole(6);
    assert(six.raw == 393216);
    assert(Fixed::spec_whole(8).raw == 524288);
    assert(Fixed::spec_whole(2).raw == 131072);
    assert((393216 * v.raw) / 65536 == 6 * v.raw);
    assert(six.spec_times(v).raw == 6 * v.raw);
    let eight = v.spec_plus(six.spec_times(v)).spec_plus(v);
    assert(eight.raw == 8 * v.raw);
    assert((eight.raw * 65536) / 524288 == v.raw);
    assert(v.spec_plus(v).raw == 2 * v.raw);
    assert((2 * v.raw * 65536) / 131072 == v.raw);
}

/// Expanding a constant preserves it, at any size, for every value that leaves room for
/// eight of it.
pub proof fn lemma_expanding_a_constant_preserves_it(
    v: Fixed,
    pw: int,
    ph: int,
    c: int,
    w: int,
    h: int,
)
    requires
        pw > 0,
        ph > 0,
        c > 0,
        w >= 0,
        h >= 0,
        -0x1000_0000_0000_0000 <= v.raw < 0x1000_0000_0000_0000,
    ensures
        expanded(even(pw, ph, c, v), w, h) == even(w, h, c, v),
{
    let p = even(pw, ph, c, v);
    let q = widened(p, w);
    let out = expanded(p, w, h);
    let wanted = even(w, h, c, v);
    assert forall|i: int| 0 <= i < out.data.len() implies out.data[i] == wanted.data[i] by {
        lemma_place_of(i, w, h, c);
        let (x, y, ch) = (column(i, w, c), row(i, w, c), channel(i, c));
        let down = |j: int| texel(q, x, j, ch);
        assert forall|j: int| 0 <= j < ph implies #[trigger] down(j) == v by {
            let across = |k: int| texel(p, k, j, ch);
            assert forall|k: int| 0 <= k < pw implies #[trigger] across(k) == v by {
                lemma_sample(k, j, ch, pw, ph, c);
            }
            lemma_phase_of_a_constant(across, v, x, pw);
            lemma_sample(x, j, ch, w, ph, c);
        }
        lemma_phase_of_a_constant(down, v, y, ph);
    }
    assert(out.data =~= wanted.data);
}

/// Blurring equals gives them back, where the kernel's sixteenths lose nothing.
#[verifier::spinoff_prover]
proof fn lemma_blur_of_a_constant(tap: spec_fn(int) -> Fixed, v: Fixed, at: int, n: int)
    requires
        n > 0,
        forall|k: int| 0 <= k < n ==> #[trigger] tap(k) == v,
        -0x8000_0000_0000 <= v.raw < 0x8000_0000_0000,
        v.raw % 16 == 0,
    ensures
        blurred(tap, at, n, 5) == v,
{
    assert(Fixed::spec_whole(16).raw == 1048576);
    assert(Fixed::spec_whole(1).raw == 65536);
    assert(Fixed::spec_whole(4).raw == 262144);
    assert(Fixed::spec_whole(6).raw == 393216);
    assert((65536int * 65536) / 1048576 == 4096);
    assert((262144int * 65536) / 1048576 == 16384);
    assert((393216int * 65536) / 1048576 == 24576);
    assert(kernel::<Fixed>(0).raw == 4096 && kernel::<Fixed>(4).raw == 4096);
    assert(kernel::<Fixed>(1).raw == 16384 && kernel::<Fixed>(3).raw == 16384);
    assert(kernel::<Fixed>(2).raw == 24576);
    let u = v.raw / 16;
    assert(v.raw == 16 * u);
    assert((4096 * v.raw) / 65536 == u);
    assert((16384 * v.raw) / 65536 == 4 * u);
    assert((24576 * v.raw) / 65536 == 6 * u);
    assert(Fixed::spec_whole(0).raw == 0);
    assert(blurred(tap, at, n, 0).raw == 0);
    assert(tap(clamped(at - 2, 0, n - 1)) == v);
    assert(blurred(tap, at, n, 1).raw == u);
    assert(tap(clamped(at - 1, 0, n - 1)) == v);
    assert(blurred(tap, at, n, 2).raw == 5 * u);
    assert(tap(clamped(at, 0, n - 1)) == v);
    assert(blurred(tap, at, n, 3).raw == 11 * u);
    assert(tap(clamped(at + 1, 0, n - 1)) == v);
    assert(blurred(tap, at, n, 4).raw == 15 * u);
    assert(tap(clamped(at + 2, 0, n - 1)) == v);
    assert(blurred(tap, at, n, 5).raw == 16 * u);
}

proof fn lemma_shrinking_a_constant(v: Fixed, w: int, h: int, c: int)
    requires
        w > 0,
        h > 0,
        c > 0,
        -0x8000_0000_0000 <= v.raw < 0x8000_0000_0000,
        v.raw % 16 == 0,
    ensures
        shrunk(even(w, h, c, v)) == even(half_up(w), half_up(h), c, v),
{
    let p = even(w, h, c, v);
    let q = narrowed(p);
    let out = shrunk(p);
    let (sw, sh) = (half_up(w), half_up(h));
    let wanted = even(sw, sh, c, v);
    assert forall|i: int| 0 <= i < out.data.len() implies out.data[i] == wanted.data[i] by {
        lemma_place_of(i, sw, sh, c);
        let (x, y, ch) = (column(i, sw, c), row(i, sw, c), channel(i, c));
        let down = |j: int| texel(q, x, j, ch);
        assert forall|j: int| 0 <= j < h implies #[trigger] down(j) == v by {
            let across = |k: int| texel(p, k, j, ch);
            assert forall|k: int| 0 <= k < w implies #[trigger] across(k) == v by {
                lemma_sample(k, j, ch, w, h, c);
            }
            lemma_blur_of_a_constant(across, v, 2 * x, w);
            lemma_sample(x, j, ch, sw, h, c);
        }
        lemma_blur_of_a_constant(down, v, 2 * y, h);
    }
    assert(out.data =~= wanted.data);
}

/// Reducing a constant preserves it, however often, for every value that divides into
/// sixteenths and leaves room for them.
pub proof fn lemma_reducing_a_constant_preserves_it(v: Fixed, w: int, h: int, c: int, i: nat)
    requires
        w > 0,
        h > 0,
        c > 0,
        -0x8000_0000_0000 <= v.raw < 0x8000_0000_0000,
        v.raw % 16 == 0,
    ensures
        gaussian(even(w, h, c, v), i) == even(side(w, i), side(h, i), c, v),
    decreases i,
{
    if i > 0 {
        let m = (i - 1) as nat;
        lemma_reducing_a_constant_preserves_it(v, w, h, c, m);
        lemma_side(w, m);
        lemma_side(h, m);
        lemma_shrinking_a_constant(v, side(w, m), side(h, m), c);
    }
}

} // verus!
