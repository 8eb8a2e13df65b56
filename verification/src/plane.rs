//! Single-channel planes of samples.

use vstd::prelude::*;
use crate::error::Error;
use crate::filter::bordered;
use crate::image::{centre, centre_of, clamp_index, clamped};
use crate::layout::fill;
use crate::pipeline::{applied, Transform};
use crate::sample::Sample;

verus! {

/// A plane of samples, as contracts see it.
pub struct Sheet<S> {
    pub w: int,
    pub h: int,
    pub data: Seq<S>,
}

/// A sheet holds one sample for each of its places.
pub open spec fn whole_sheet<S>(s: Sheet<S>) -> bool {
    s.w >= 0 && s.h >= 0 && s.data.len() == s.w * s.h
}

/// The sample in column `x` of row `y`.
pub open spec fn cell<S>(s: Sheet<S>, x: int, y: int) -> S {
    s.data[y * s.w + x]
}

/// The sheet whose samples `f` gives.
pub open spec fn sheet<S>(w: int, h: int, f: spec_fn(int, int) -> S) -> Sheet<S> {
    Sheet { w, h, data: crate::layout::image_of(w, h, 1, |x: int, y: int, ch: int| f(x, y)) }
}

/// A sheet made from a function is whole.
pub proof fn lemma_sheet_size<S>(w: int, h: int, f: spec_fn(int, int) -> S)
    requires
        w >= 0,
        h >= 0,
    ensures
        whole_sheet(sheet(w, h, f)),
{
    assert(w * h * 1 == w * h && w * h >= 0) by (nonlinear_arith)
        requires
            w >= 0,
            h >= 0,
    ;
}

/// A sheet made from a function holds what the function gives.
pub proof fn lemma_cell<S>(w: int, h: int, f: spec_fn(int, int) -> S, x: int, y: int)
    requires
        0 <= x < w,
        0 <= y < h,
    ensures
        cell(sheet(w, h, f), x, y) == f(x, y),
{
    crate::layout::lemma_sample(x, y, 0, w, h, 1);
}

/// Two sheets of one size with the same samples are the same sheet.
pub proof fn lemma_same_sheet<S>(a: Sheet<S>, b: Sheet<S>)
    requires
        whole_sheet(a),
        whole_sheet(b),
        a.w == b.w,
        a.h == b.h,
        forall|x: int, y: int| 0 <= x < a.w && 0 <= y < a.h ==> #[trigger] cell(a, x, y) == cell(b, x, y),
    ensures
        a == b,
{
    assert forall|i: int| 0 <= i < a.data.len() implies a.data[i] == b.data[i] by {
        crate::layout::lemma_column_and_row(i, a.w, a.h);
        assert(cell(a, i % a.w, i / a.w) == cell(b, i % a.w, i / a.w));
    }
    assert(a.data =~= b.data);
}

/// A single-channel plane.
pub struct Plane<S> {
    pub width: u32,
    pub height: u32,
    pub data: Vec<S>,
}

impl<S> View for Plane<S> {
    type V = Sheet<S>;

    open spec fn view(&self) -> Sheet<S> {
        Sheet { w: self.width as int, h: self.height as int, data: self.data@ }
    }
}

impl<S: Sample> Plane<S> {
    /// A plane of zeros.
    pub fn new(width: u32, height: u32) -> (r: Self)
        requires
            width * height <= usize::MAX,
        ensures
            r.width == width,
            r.height == height,
            r.data@ == Seq::new((width * height) as nat, |i: int| S::spec_whole(0)),
            whole_sheet(r@),
    {
        let zero = S::whole(0);
        let n: usize = width as usize * height as usize;
        let mut data: Vec<S> = Vec::with_capacity(n);
        let mut i: usize = 0;
        while i < n
            invariant
                i <= n,
                data@.len() == i,
                zero == S::spec_whole(0),
                forall|k: int| 0 <= k < i ==> #[trigger] data@[k] == zero,
            decreases n - i,
        {
            data.push(zero);
            i += 1;
        }
        assert(data@ =~= Seq::new((width * height) as nat, |i: int| S::spec_whole(0)));
        Plane { width, height, data }
    }

    pub fn len(&self) -> (n: usize)
        ensures
            n == self.data@.len(),
    {
        self.data.len()
    }

    pub fn is_empty(&self) -> (r: bool)
        ensures
            r == (self.data@.len() == 0),
    {
        self.data.len() == 0
    }

    /// The same plane again.
    pub fn copy(&self) -> (r: Self)
        ensures
            r@ == self@,
    {
        let n = self.data.len();
        let mut data: Vec<S> = Vec::with_capacity(n);
        let mut i: usize = 0;
        while i < n
            invariant
                i <= n,
                n == self.data@.len(),
                data@.len() == i,
                forall|k: int| 0 <= k < i ==> #[trigger] data@[k] == self.data@[k],
            decreases n - i,
        {
            data.push(self.data[i]);
            i += 1;
        }
        assert(data@ =~= self.data@);
        Plane { width: self.width, height: self.height, data }
    }
}

/// A plane from its samples, across threads.
pub(crate) fn plane_of<S: Sample, F: Fn(usize, usize) -> S + Sync + Send>(
    width: u32,
    height: u32,
    f: F,
    Ghost(g): Ghost<spec_fn(int, int) -> S>,
) -> (out: Plane<S>)
    requires
        width * height <= usize::MAX,
        forall|x: usize, y: usize|
            x < width && y < height ==> #[trigger] call_requires(f, (x, y)),
        forall|x: usize, y: usize, r: S|
            x < width && y < height && #[trigger] call_ensures(f, (x, y), r) ==> r == g(
                x as int,
                y as int,
            ),
    ensures
        out@ == sheet(width as int, height as int, g),
        whole_sheet(out@),
{
    let (w, h): (usize, usize) = (width as usize, height as usize);
    let f_ref = &f;
    assert(w * 1 == w && w * h * 1 == w * h) by (nonlinear_arith);
    let ghost flat = |x: int, y: int, ch: int| g(x, y);
    let data = fill(
        w,
        h,
        1,
        (|x: usize, y: usize, ch: usize| -> (v: S)
            requires
                x < w,
                y < h,
            ensures
                v == flat(x as int, y as int, ch as int),
        {
            f_ref(x, y)
        }),
        Ghost(flat),
    );
    proof {
        lemma_sheet_size(w as int, h as int, g);
        assert(data@ =~= sheet(w as int, h as int, g).data);
    }
    Plane { width, height, data }
}

/// Where a band of rows lies in a plane: the place of its first sample, and how many
/// samples it has.
pub fn span(width: u32, height: u32, y0: u32, count: u32) -> (r: Result<(usize, usize), Error>)
    requires
        width * height <= usize::MAX,
    ensures
        match r {
            Ok((start, len)) => y0 + count <= height && start == y0 * width && len == count * width
                && start + len <= width * height,
            Err(e) => y0 + count > height && e == (Error::Bounds {
                start: y0 as u64,
                end: (y0 + count) as u64,
                height,
            }),
        },
{
    let end: u64 = y0 as u64 + count as u64;
    if end > height as u64 {
        return Err(Error::Bounds { start: y0 as u64, end, height });
    }
    assert(y0 * width + count * width == (y0 + count) * width) by (nonlinear_arith);
    assert((y0 + count) * width <= width * height) by (nonlinear_arith)
        requires
            y0 + count <= height,
    ;
    assert(0 <= y0 * width && 0 <= count * width) by (nonlinear_arith);
    Ok((y0 as usize * width as usize, count as usize * width as usize))
}

/// A coordinate one further along, as far as it goes.
fn next(v: i64) -> (r: i64)
    ensures
        r == (if v < i64::MAX {
            v + 1
        } else {
            v as int
        }),
{
    if v < i64::MAX {
        v + 1
    } else {
        v
    }
}

/// A bilinear sample between the four around a point.
pub open spec fn bilinear<S: Sample>(get: spec_fn(int, int) -> S, x: S, y: S) -> S {
    let (x0, y0) = (x.spec_floor(), y.spec_floor());
    let (fx, fy) = (x.spec_minus(x0), y.spec_minus(y0));
    let (ix, iy) = (x0.spec_index() as int, y0.spec_index() as int);
    let one = S::spec_whole(1);
    let top = get(ix, iy).spec_times(one.spec_minus(fx)).spec_plus(get(ix + 1, iy).spec_times(fx));
    let bottom = get(ix, iy + 1).spec_times(one.spec_minus(fx)).spec_plus(
        get(ix + 1, iy + 1).spec_times(fx),
    );
    top.spec_times(one.spec_minus(fy)).spec_plus(bottom.spec_times(fy))
}

/// The bilinear sample of four taps.
fn blend<S: Sample>(a: S, b: S, c: S, d: S, fx: S, fy: S) -> (r: S)
    ensures
        r == a.spec_times(S::spec_whole(1).spec_minus(fx)).spec_plus(b.spec_times(fx)).spec_times(
            S::spec_whole(1).spec_minus(fy),
        ).spec_plus(
            c.spec_times(S::spec_whole(1).spec_minus(fx)).spec_plus(d.spec_times(fx)).spec_times(
                fy,
            ),
        ),
{
    let one = S::whole(1);
    let top = a.times(one.minus(fx)).plus(b.times(fx));
    let bottom = c.times(one.minus(fx)).plus(d.times(fx));
    top.times(one.minus(fy)).plus(bottom.times(fy))
}

/// Rows `from..from + count` of an interleaved image, read with the border repeated: of
/// the frame along `x`, and of those rows along `y`.
pub open spec fn banded<S>(
    band: Seq<S>,
    w: int,
    c: int,
    from: int,
    count: int,
    x: int,
    y: int,
    ch: int,
) -> S {
    band[clamped(y - from, 0, count - 1) * (w * c) + (clamped(x, 0, w - 1) * c + ch)]
}

/// A bilinear sample of an interleaved band of rows, clamped at its edges.
pub(crate) fn sample_band<S: Sample>(
    band: &[S],
    w: usize,
    c: usize,
    from: u32,
    count: usize,
    x: S,
    y: S,
    ch: usize,
) -> (r: S)
    requires
        0 < w <= 0xffff_ffff,
        0 < count <= 0xffff_ffff,
        ch < c,
        band@.len() == w * c * count,
    ensures
        r == bilinear(
            |ix: int, iy: int|
                banded(
                    band@,
                    w as int,
                    c as int,
                    from as int,
                    count as int,
                    ix,
                    iy,
                    ch as int,
                ),
            x,
            y,
        ),
{
    let (x0, y0) = (x.floor(), y.floor());
    let (ix, iy) = (x0.index(), y0.index());
    let stride: usize = row_stride(band, w, c, count);
    let (l, r) = (clamp_index(ix, w), clamp_index(next(ix), w));
    let (t, b) = (row_in_band(iy, from, count), row_in_band(next(iy), from, count));
    proof {
        lemma_in_band(l as int, t as int, ch as int, w as int, c as int, count as int);
        lemma_in_band(r as int, t as int, ch as int, w as int, c as int, count as int);
        lemma_in_band(l as int, b as int, ch as int, w as int, c as int, count as int);
        lemma_in_band(r as int, b as int, ch as int, w as int, c as int, count as int);
    }
    assert(band@.len() == band.len());
    blend(
        band[t * stride + (l * c + ch)],
        band[t * stride + (r * c + ch)],
        band[b * stride + (l * c + ch)],
        band[b * stride + (r * c + ch)],
        x.minus(x0),
        y.minus(y0),
    )
}

fn row_stride<S>(band: &[S], w: usize, c: usize, count: usize) -> (stride: usize)
    requires
        0 < count,
        band@.len() == w * c * count,
    ensures
        stride == w * c,
{
    assert(band@.len() == band.len());
    assert(0 <= w * c <= w * c * count) by (nonlinear_arith)
        requires
            0 < count,
            0 <= w,
            0 <= c,
    ;
    w * c
}

/// The row of a band that a row of the frame is read at.
fn row_in_band(y: i64, from: u32, count: usize) -> (r: usize)
    requires
        0 < count <= 0xffff_ffff,
    ensures
        r == clamped(y - from, 0, count - 1),
        r < count,
{
    let d: i128 = y as i128 - from as i128;
    if d < 0 {
        0
    } else if d > count as i128 - 1 {
        count - 1
    } else {
        d as usize
    }
}

proof fn lemma_in_band(x: int, y: int, ch: int, w: int, c: int, count: int)
    requires
        0 <= x < w,
        0 <= y < count,
        0 <= ch < c,
    ensures
        0 <= y * (w * c),
        0 <= x * c,
        0 <= x * c + ch < w * c,
        0 <= y * (w * c) + (x * c + ch) < w * c * count,
{
    crate::layout::lemma_place(ch, x, c, w);
    assert(c * w == w * c) by (nonlinear_arith);
    crate::layout::lemma_place(x * c + ch, y, w * c, count);
}

/// A plane's sample, with the border repeated outside it.
pub open spec fn edge_cell<S>(s: Sheet<S>, x: int, y: int) -> S {
    bordered(s.data, s.w, s.h, x, y)
}

impl<S: Sample> Plane<S> {
    /// Single sample, clamped to the plane's edges.
    pub fn at(&self, x: i64, y: i64) -> (r: S)
        requires
            whole_sheet(self@),
            self.width > 0,
            self.height > 0,
        ensures
            r == edge_cell(self@, x as int, y as int),
    {
        let (w, h): (usize, usize) = (self.width as usize, self.height as usize);
        let (cx, cy) = (clamp_index(x, w), clamp_index(y, h));
        proof {
            crate::layout::lemma_place(cx as int, cy as int, w as int, h as int);
        }
        assert(self.data@.len() == self.data.len());
        self.data[cy * w + cx]
    }

    /// Bilinear sample, clamped at the edges.
    ///
    /// Clamped rather than zero-filled: a focus map warped with zero borders would read
    /// as "nothing in focus" along the frame edge and pull the weight map with it.
    pub fn sample(&self, x: S, y: S) -> (r: S)
        requires
            whole_sheet(self@),
            self.width > 0,
            self.height > 0,
        ensures
            r == bilinear(|ix: int, iy: int| edge_cell(self@, ix, iy), x, y),
    {
        let (x0, y0) = (x.floor(), y.floor());
        let (ix, iy) = (x0.index(), y0.index());
        let (jx, jy) = (next(ix), next(iy));
        let (a, b) = (self.at(ix, iy), self.at(jx, iy));
        let (c, d) = (self.at(ix, jy), self.at(jx, jy));
        blend(a, b, c, d, x.minus(x0), y.minus(y0))
    }
}

/// The point of a frame that a pixel of the anchor is read at: centre-relative
/// coordinates go through the transform, and back.
pub open spec fn source_point<S: Sample>(
    t: Transform<S>,
    w: int,
    h: int,
    x: int,
    y: int,
) -> (S, S) {
    let (cx, cy) = (centre_of::<S>(w), centre_of::<S>(h));
    let (sx, sy) = applied(
        t,
        S::spec_whole(x as i64).spec_minus(cx),
        S::spec_whole(y as i64).spec_minus(cy),
    );
    (sx.spec_plus(cx), sy.spec_plus(cy))
}

/// Where a pixel of the anchor is read from.
pub fn source_of<S: Sample>(t: Transform<S>, width: u32, height: u32, x: u32, y: u32) -> (r: (S, S))
    ensures
        r == source_point(t, width as int, height as int, x as int, y as int),
{
    let (cx, cy) = (centre::<S>(width), centre::<S>(height));
    let (sx, sy) = t.apply(S::whole(x as i64).minus(cx), S::whole(y as i64).minus(cy));
    (sx.plus(cx), sy.plus(cy))
}

/// A plane resampled into anchor coordinates.
pub open spec fn warped_sheet<S: Sample>(s: Sheet<S>, t: Transform<S>) -> Sheet<S> {
    sheet(
        s.w,
        s.h,
        |x: int, y: int|
            bilinear(
                |ix: int, iy: int| edge_cell(s, ix, iy),
                source_point(t, s.w, s.h, x, y).0,
                source_point(t, s.w, s.h, x, y).1,
            ),
    )
}

/// Resample a plane under `transform`, which maps anchor coordinates onto the frame's
/// own, so each pixel reads straight through it.
pub fn warp_plane<S: Sample>(src: &Plane<S>, transform: Transform<S>) -> (out: Plane<S>)
    requires
        whole_sheet(src@),
        src.width > 0,
        src.height > 0,
    ensures
        out@ == warped_sheet(src@, transform),
        whole_sheet(out@),
{
    let (width, height) = (src.width, src.height);
    let ghost s = src@;
    let ghost g = |x: int, y: int|
        bilinear(
            |ix: int, iy: int| edge_cell(s, ix, iy),
            source_point(transform, s.w, s.h, x, y).0,
            source_point(transform, s.w, s.h, x, y).1,
        );
    assert(src.data@.len() == src.data.len());
    let out = plane_of(
        width,
        height,
        (|x: usize, y: usize| -> (v: S)
            requires
                x < width,
                y < height,
            ensures
                v == g(x as int, y as int),
        {
            let (sx, sy) = source_of(transform, width, height, x as u32, y as u32);
            src.sample(sx, sy)
        }),
        Ghost(g),
    );
    assert(out@.data =~= warped_sheet(src@, transform).data);
    out
}

} // verus!
