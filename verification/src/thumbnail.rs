//! Shrinking a frame to a filmstrip thumbnail.

use vstd::prelude::*;
use crate::error::Error;
use crate::image::{larger, smaller, FrameInfo};
use crate::layout::{channel, column, lemma_place_of, lemma_sample, place, row};
use crate::pyramid::{picture, whole_picture, Bitmap, Picture};
use crate::reading::{append, read_fails, readable, reads_from, rows_of, unread};
use crate::sample::Sample;
use crate::tiff_io::Unread;

verus! {

/// Thumbnail width in pixels, which is the filmstrip's inner width.
pub const THUMBNAIL_WIDTH: u32 = 128;

/// Source rows averaged for each output row, at most.
///
/// Averaging a whole band would mean reading every row of every frame just to draw a
/// filmstrip. The first few rows of each band keep the worst aliasing out; thumbnails are
/// for recognizing a frame, not for judging it.
pub const MAX_ROWS_PER_BAND: u32 = 4;

/// How a frame is shrunk: by the same factor on both edges.
#[derive(Debug, Clone, Copy, PartialEq, Eq, Structural)]
pub struct Shrink {
    pub factor: u32,
    pub width: u32,
    pub height: u32,
    /// Source rows that are read for an output row.
    pub rows: u32,
}

/// How a frame of this size is shrunk.
pub open spec fn shrink_of(info: FrameInfo) -> Shrink {
    let factor = larger((info.width / THUMBNAIL_WIDTH) as int, 1);
    Shrink {
        factor: factor as u32,
        width: larger(info.width as int / factor, 1) as u32,
        height: larger(info.height as int / factor, 1) as u32,
        rows: smaller(factor, MAX_ROWS_PER_BAND as int) as u32,
    }
}

/// How a frame of this size is shrunk. A frame narrower than a thumbnail keeps its size.
pub fn shrink(info: FrameInfo) -> (r: Shrink)
    ensures
        r == shrink_of(info),
        r.factor >= 1,
        1 <= r.rows <= r.factor,
{
    let whole = info.width / THUMBNAIL_WIDTH;
    let factor = if whole > 1 {
        whole
    } else {
        1
    };
    let (w, h) = (info.width / factor, info.height / factor);
    Shrink {
        factor,
        width: if w > 1 {
            w
        } else {
            1
        },
        height: if h > 1 {
            h
        } else {
            1
        },
        rows: if factor < MAX_ROWS_PER_BAND {
            factor
        } else {
            MAX_ROWS_PER_BAND
        },
    }
}

/// The rows that are read for an output row: where they start, and how many there are.
pub open spec fn band_of(info: FrameInfo, ty: int) -> (int, int) {
    let s = shrink_of(info);
    let y0 = ty * s.factor;
    (y0, smaller(s.rows as int, info.height - y0))
}

/// The rows that are read for an output row. They lie inside the frame.
pub fn band(info: FrameInfo, ty: u32) -> (r: (u32, u32))
    requires
        info.height > 0,
        ty < shrink_of(info).height,
    ensures
        r.0 == band_of(info, ty as int).0,
        r.1 == band_of(info, ty as int).1,
        1 <= r.1 <= shrink_of(info).rows,
        r.0 + r.1 <= info.height,
{
    let s = shrink(info);
    proof {
        let (f, h, t) = (s.factor as int, info.height as int, ty as int);
        if h / f >= 1 {
            assert(t * f < h) by (nonlinear_arith)
                requires
                    0 <= t < h / f,
                    f >= 1,
                    h >= 0,
            ;
        } else {
            assert(t == 0);
            assert(t * f == 0) by (nonlinear_arith)
                requires
                    t == 0,
            ;
        }
        assert(t * f >= 0) by (nonlinear_arith)
            requires
                t >= 0,
                f >= 1,
        ;
    }
    let y0 = ty * s.factor;
    let left = info.height - y0;
    (
        y0,
        if s.rows < left {
            s.rows
        } else {
            left
        },
    )
}

/// Where a sample of a band stands: in a row, under an output column, `sx` source columns
/// in. A column past the frame's edge is its last one.
pub open spec fn source_at(info: FrameInfo, row: int, tx: int, sx: int, c: int) -> int {
    row * info.width * 3 + smaller(tx * shrink_of(info).factor + sx, info.width - 1) * 3 + c
}

/// A sum with the first `k` samples of a row added to it.
pub open spec fn row_added<S: Sample>(
    acc: S,
    band: Seq<S>,
    info: FrameInfo,
    row: int,
    tx: int,
    c: int,
    k: nat,
) -> S
    decreases k,
{
    if k == 0 {
        acc
    } else {
        row_added(acc, band, info, row, tx, c, (k - 1) as nat).spec_plus(
            band[source_at(info, row, tx, k - 1, c)],
        )
    }
}

/// The sum of a cell over the first `n` rows of a band.
pub open spec fn cell_sum<S: Sample>(
    band: Seq<S>,
    info: FrameInfo,
    tx: int,
    c: int,
    n: nat,
) -> S
    decreases n,
{
    if n == 0 {
        S::spec_whole(0)
    } else {
        row_added(
            cell_sum(band, info, tx, c, (n - 1) as nat),
            band,
            info,
            n - 1,
            tx,
            c,
            shrink_of(info).factor as nat,
        )
    }
}

/// A cell's average over `count` rows.
pub open spec fn cell_of<S: Sample>(
    band: Seq<S>,
    info: FrameInfo,
    count: nat,
    tx: int,
    c: int,
) -> S {
    let inv = S::spec_whole(1).spec_over(
        S::spec_whole(count as i64).spec_times(S::spec_whole(shrink_of(info).factor as i64)),
    );
    cell_sum(band, info, tx, c, count).spec_times(inv)
}

/// One sample of a thumbnail, in linear light: the average of the source samples it covers.
pub fn cell<S: Sample>(band: &[S], info: FrameInfo, count: u32, tx: u32, c: u32) -> (r: S)
    requires
        info.width > 0,
        c < 3,
        count * info.width * 3 <= band@.len(),
    ensures
        r == cell_of(band@, info, count as nat, tx as int, c as int),
{
    let s = shrink(info);
    let mut acc = S::whole(0);
    let mut row: u32 = 0;
    assert(band@.len() == band.len());
    while row < count
        invariant
            row <= count,
            info.width > 0,
            c < 3,
            band@.len() == band.len(),
            count * info.width * 3 <= band@.len(),
            s == shrink_of(info),
            acc == cell_sum(band@, info, tx as int, c as int, row as nat),
        decreases count - row,
    {
        let ghost start = acc;
        let mut sx: u32 = 0;
        while sx < s.factor
            invariant
                row < count,
                sx <= s.factor,
                info.width > 0,
                c < 3,
                band@.len() == band.len(),
                count * info.width * 3 <= band@.len(),
                s == shrink_of(info),
                start == cell_sum(band@, info, tx as int, c as int, row as nat),
                acc == row_added(
                    start,
                    band@,
                    info,
                    row as int,
                    tx as int,
                    c as int,
                    sx as nat,
                ),
            decreases s.factor - sx,
        {
            proof {
                assert(0 <= tx * s.factor <= 0xffff_ffff * 0xffff_ffff) by (nonlinear_arith)
                    requires
                        0 <= tx <= 0xffff_ffff,
                        0 <= s.factor <= 0xffff_ffff,
                ;
            }
            let at = tx as u64 * s.factor as u64;
            let last = info.width as u64 - 1;
            let x = if at > last || sx as u64 > last - at {
                last
            } else {
                at + sx as u64
            };
            proof {
                let (a, b, w) = (row as int, count as int, info.width as int);
                assert(a * w * 3 + w * 3 <= b * w * 3) by (nonlinear_arith)
                    requires
                        0 <= a < b,
                        w >= 0,
                ;
                assert(a * w >= 0 && a * w * 3 >= 0) by (nonlinear_arith)
                    requires
                        a >= 0,
                        w >= 0,
                ;
                assert(x == smaller(tx * s.factor + sx, w - 1));
            }
            let from = row as usize * info.width as usize * 3;
            acc = acc.plus(band[from + x as usize * 3 + c as usize]);
            sx += 1;
        }
        row += 1;
    }
    let inv = S::whole(1).over(S::whole(count as i64).times(S::whole(s.factor as i64)));
    acc.times(inv)
}

/// A channel of a thumbnail's pixel, in linear light.
pub open spec fn small_cell<S: Sample>(frame: Seq<S>, info: FrameInfo, tx: int, ty: int, c: int) -> S {
    let (y0, count) = band_of(info, ty);
    cell_of(rows_of(frame, info.width * 3, y0, count), info, count as nat, tx, c)
}

/// A frame's thumbnail, in linear light.
pub open spec fn thumbnail_of<S: Sample>(frame: Seq<S>, info: FrameInfo) -> Picture<S> {
    picture(
        shrink_of(info).width as int,
        shrink_of(info).height as int,
        3,
        |tx: int, ty: int, c: int| small_cell(frame, info, tx, ty, c),
    )
}

/// One row of a thumbnail, from the rows that are read for it.
fn small_row<S: Sample>(rows: &Vec<S>, info: FrameInfo, count: u32, width: u32) -> (line: Vec<S>)
    requires
        info.width > 0,
        count * info.width * 3 <= rows@.len(),
        width * 3 <= usize::MAX,
    ensures
        line@.len() == width * 3,
        forall|k: int|
            0 <= k < width * 3 ==> #[trigger] line@[k] == cell_of(
                rows@,
                info,
                count as nat,
                k / 3,
                k % 3,
            ),
{
    let n: usize = width as usize * 3;
    let mut line: Vec<S> = Vec::with_capacity(n);
    let mut k: usize = 0;
    while k < n
        invariant
            k <= n,
            n == width * 3,
            info.width > 0,
            count * info.width * 3 <= rows@.len(),
            line@.len() == k,
            forall|j: int|
                0 <= j < k ==> #[trigger] line@[j] == cell_of(
                    rows@,
                    info,
                    count as nat,
                    j / 3,
                    j % 3,
                ),
        decreases n - k,
    {
        line.push(cell(rows.as_slice(), info, count, (k / 3) as u32, (k % 3) as u32));
        k += 1;
    }
    line
}

/// Shrinks a frame to a thumbnail, in linear light, reading a fraction of it. A frame with
/// fewer rows than are read for an output row does not fill the buffer for them, and is
/// refused.
pub fn thumbnail<S: Sample, E, F: Fn(u32, u32) -> Result<Vec<S>, E>>(info: FrameInfo, read: &F) -> (r:
    Result<Bitmap<S>, Unread<E>>)
    requires
        info.width > 0,
        info.width * info.height * 3 <= usize::MAX,
        shrink_of(info).rows * (info.width * 3) <= usize::MAX,
        readable(read, info.height, info.width * 3),
    ensures
        match r {
            Ok(small) => {
                &&& shrink_of(info).rows <= info.height
                &&& small.width == shrink_of(info).width
                &&& small.height == shrink_of(info).height
                &&& small.channels == 3
                &&& whole_picture(small@)
                &&& forall|frame: Seq<S>| #[trigger]
                    reads_from(read, frame, info.height, info.width * 3) ==> small@ == thumbnail_of(
                        frame,
                        info,
                    )
            },
            Err(Unread::Refused(e)) => {
                &&& shrink_of(info).rows > info.height
                &&& e == (Error::BufferSize {
                    got: (shrink_of(info).rows * (info.width * 3)) as usize,
                    want: (info.height * (info.width * 3)) as usize,
                })
            },
            Err(Unread::Failed(e)) => {
                &&& shrink_of(info).rows <= info.height
                &&& unread(read, info.height, e)
            },
        },
{
    let s = shrink(info);
    if info.height < s.rows {
        proof {
            assert(info.width * 3 <= s.rows * (info.width * 3)) by (nonlinear_arith)
                requires
                    s.rows >= 1,
            ;
            assert(info.height * (info.width * 3) == info.width * info.height * 3)
                by (nonlinear_arith);
        }
        let row_len: usize = info.width as usize * 3;
        return Err(
            Unread::Refused(
                Error::BufferSize {
                    got: s.rows as usize * row_len,
                    want: info.height as usize * row_len,
                },
            ),
        );
    }
    let (width, height): (u32, u32) = (s.width, s.height);
    proof {
        lemma_thumbnail_fits(info);
        assert(width * 3 <= width * height * 3) by (nonlinear_arith)
            requires
                height >= 1,
        ;
    }
    let mut data: Vec<S> = Vec::new();
    let mut ty: u32 = 0;
    assert(0 * (width * 3) == 0) by (nonlinear_arith);
    while ty < height
        invariant
            ty <= height,
            s == shrink_of(info),
            width == s.width,
            height == s.height,
            info.width > 0,
            s.rows <= info.height,
            info.height > 0,
            width * 3 <= usize::MAX,
            readable(read, info.height, info.width * 3),
            data@.len() == ty * (width * 3),
            forall|frame: Seq<S>, x: int, y: int, c: int|
                #![trigger reads_from(read, frame, info.height, info.width * 3), data@[place(x, y, c, width as int, 3)]]
                reads_from(read, frame, info.height, info.width * 3) && 0 <= x < width && 0 <= y
                    < ty && 0 <= c < 3 ==> data@[place(x, y, c, width as int, 3)] == small_cell(
                    frame,
                    info,
                    x,
                    y,
                    c,
                ),
        decreases height - ty,
    {
        let (y0, count) = band(info, ty);
        let rows = match read(y0, count) {
            Ok(rows) => rows,
            Err(e) => {
                proof {
                    assert(read_fails(read, info.height, y0, count, e));
                    assert(unread(read, info.height, e));
                }
                let failed = Unread::Failed(e);
                assert(failed->Failed_0 == e);
                return Err(failed);
            },
        };
        assert(count * (info.width * 3) == count * info.width * 3) by (nonlinear_arith);
        let line = small_row(&rows, info, count, width);
        let ghost before = data@;
        append(&mut data, &line);
        proof {
            let w = width as int;
            assert((ty + 1) * (w * 3) == ty * (w * 3) + w * 3) by (nonlinear_arith);
            assert forall|frame: Seq<S>, x: int, y: int, c: int|
                #![trigger reads_from(read, frame, info.height, info.width * 3), data@[place(x, y, c, width as int, 3)]]
                reads_from(read, frame, info.height, info.width * 3) && 0 <= x < width && 0 <= y
                    < ty + 1 && 0 <= c < 3 implies data@[place(x, y, c, width as int, 3)]
                == small_cell(frame, info, x, y, c) by {
                lemma_sample(x, y, c, w, ty + 1, 3);
                if y < ty {
                    lemma_sample(x, y, c, w, ty as int, 3);
                    assert(w * ty * 3 == ty * (w * 3)) by (nonlinear_arith);
                    assert(data@[place(x, y, c, w, 3)] == before[place(x, y, c, w, 3)]);
                } else {
                    assert(data@[place(x, y, c, w, 3)] == line@[x * 3 + c]);
                }
            }
        }
        ty += 1;
    }
    let small = Bitmap { width, height, channels: 3, data };
    proof {
        let (w, h) = (width as int, height as int);
        assert(h * (w * 3) == w * h * 3) by (nonlinear_arith);
        assert forall|frame: Seq<S>| #[trigger]
            reads_from(read, frame, info.height, info.width * 3) implies small@ == thumbnail_of(
            frame,
            info,
        ) by {
            let goal = thumbnail_of(frame, info);
            assert forall|i: int| 0 <= i < data@.len() implies data@[i] == goal.data[i] by {
                lemma_place_of(i, w, h, 3);
                let (x, y, c) = (column(i, w, 3), row(i, w, 3), channel(i, 3));
                assert(data@[place(x, y, c, w, 3)] == small_cell(frame, info, x, y, c));
            }
            assert(data@ =~= goal.data);
        }
    }
    Ok(small)
}

/// A thumbnail has no more pixels than its frame.
proof fn lemma_thumbnail_fits(info: FrameInfo)
    requires
        info.width > 0,
        info.height > 0,
    ensures
        1 <= shrink_of(info).width <= info.width,
        1 <= shrink_of(info).height <= info.height,
        shrink_of(info).width * shrink_of(info).height * 3 <= info.width * info.height * 3,
{
    let f = larger((info.width / THUMBNAIL_WIDTH) as int, 1);
    let (w, h) = (info.width as int, info.height as int);
    assert(0 <= w / f <= w && 0 <= h / f <= h) by (nonlinear_arith)
        requires
            f >= 1,
            w >= 0,
            h >= 0,
    ;
    let (a, b) = (shrink_of(info).width as int, shrink_of(info).height as int);
    assert(a * b * 3 <= w * h * 3) by (nonlinear_arith)
        requires
            0 <= a <= w,
            0 <= b <= h,
    ;
}

/// A thumbnail keeps its frame's shape: both edges shrink by the same factor, up to the
/// fraction of a pixel that does not divide, and no edge vanishes.
pub proof fn lemma_thumbnail_keeps_the_shape(info: FrameInfo)
    requires
        info.width > 0,
        info.height > 0,
    ensures
        ({
            let s = shrink_of(info);
            &&& s.factor >= 1
            &&& s.width >= 1
            &&& s.height >= 1
            &&& s.width == info.width / s.factor
            &&& info.height >= s.factor ==> s.height == info.height / s.factor
            &&& info.width < 2 * THUMBNAIL_WIDTH ==> s.width == info.width
            &&& s.width < 2 * THUMBNAIL_WIDTH
        }),
{
    let s = shrink_of(info);
    let (w, h, f) = (info.width as int, info.height as int, s.factor as int);
    assert(1 <= f <= w);
    assert(w / f >= 1) by (nonlinear_arith)
        requires
            1 <= f <= w,
    ;
    if h >= f {
        assert(h / f >= 1) by (nonlinear_arith)
            requires
                1 <= f <= h,
        ;
    }
    if w >= 256 {
        assert(f == w / 128);
        assert(w < 128 * f + 128);
        assert(w / f < 256) by (nonlinear_arith)
            requires
                w < 128 * f + 128,
                f >= 2,
        ;
    } else {
        assert(f == 1);
        assert(w / 1 == w);
    }
}

/// Every how many pixels of a region are taken to show it at about `width` across.
pub fn stride(region_width: u32, width: u32) -> (r: u32)
    ensures
        r == larger(region_width as int / larger(width as int, 1), 1),
{
    let wide: u32 = if width >= 1 {
        width
    } else {
        1
    };
    let step: u32 = region_width / wide;
    if step >= 1 {
        step
    } else {
        1
    }
}

/// The pixels of an extent that are taken: the first, and every `step`th after it.
pub fn stops(extent: u32, step: u32) -> (r: Vec<u32>)
    requires
        step >= 1,
    ensures
        r@.len() == (extent + step - 1) / step as int,
        forall|i: int| 0 <= i < r@.len() ==> #[trigger] r@[i] == i * step && r@[i] < extent,
{
    let mut out: Vec<u32> = Vec::new();
    let mut at: u64 = 0;
    assert(0 * step == 0) by (nonlinear_arith);
    while at < extent as u64
        invariant
            step >= 1,
            at == out@.len() * step,
            at < extent + step,
            forall|i: int| 0 <= i < out@.len() ==> #[trigger] out@[i] == i * step && out@[i] < extent,
        decreases extent + step - at,
    {
        let ghost n = out@.len();
        out.push(at as u32);
        at = at + step as u64;
        assert((n + 1) * step == n * step + step) by (nonlinear_arith);
    }
    proof {
        let n = out@.len() as int;
        vstd::arithmetic::div_mod::lemma_fundamental_div_mod_converse(
            extent + step - 1,
            step as int,
            n,
            extent + step - 1 - n * step,
        );
    }
    out
}

} // verus!
