//! Warping a frame in chunks.
//!
//! A chunk of output rows reads only the source rows between those that its first and last
//! row land on. Because a transform moves rows in order, or all in reverse, nothing else is
//! ever read.

use vstd::prelude::*;
use crate::fusion::{chunk_from, chunk_to, warp_rows, warp_span, warped_texel, WARP_CHUNK};
use crate::image::{ceiling, centre_of, clamped, FrameInfo, BAND_ROWS};
use crate::layout::{channel, column, image_of, lemma_place_of, lemma_sample, place, row};
use crate::pipeline::Transform;
use crate::plane::{banded, source_point};
use crate::pyramid::{whole_picture, Bitmap};
use crate::reading::{
    band_slice, gather_frame, lemma_band, lemma_bands_decide, made_of, read_fails, readable,
    reads_from, rows_at, rows_of, unread,
};
use crate::sample::{Fixed, Sample};

verus! {

/// A transform whose source rows stay inside the number range: magnification below
/// sixteen thousand, and a shift below thirty million million pixels.
pub open spec fn steady(t: Transform<Fixed>) -> bool {
    &&& -0x4000_0000 <= t.scale.raw <= 0x4000_0000
    &&& -0x2000_0000_0000_0000 <= t.dy.raw <= 0x2000_0000_0000_0000
}

/// How far an output row lies from the centre, in steps.
spec fn from_centre(h: int, y: int) -> int {
    y * 65536 - h * 32768
}

/// The source row of an output row, written out.
proof fn lemma_source_row(t: Transform<Fixed>, w: int, h: int, x: int, y: int)
    requires
        steady(t),
        0 <= h <= u32::MAX,
        0 <= y <= h,
    ensures
        source_point(t, w, h, x, y).1.raw == (t.scale.raw * from_centre(h, y)) / 65536 + t.dy.raw
            + h * 32768,
        -0x7000_0000_0000_0000 <= source_point(t, w, h, x, y).1.raw <= 0x7000_0000_0000_0000,
{
    let d = from_centre(h, y);
    assert(Fixed::spec_whole(2).raw == 131072);
    assert(Fixed::spec_whole(h as i64).raw == h * 65536);
    vstd::arithmetic::div_mod::lemma_fundamental_div_mod_converse(
        h * 65536 * 65536,
        131072,
        h * 32768,
        0,
    );
    assert(centre_of::<Fixed>(h).raw == h * 32768);
    assert(Fixed::spec_whole(y as i64).raw == y * 65536);
    assert(Fixed::spec_whole(y as i64).spec_minus(centre_of::<Fixed>(h)).raw == d);
    let p = t.scale.raw * d;
    assert(-0x4000_0000 * 0x1_0000_0000_0000 <= p <= 0x4000_0000 * 0x1_0000_0000_0000)
        by (nonlinear_arith)
        requires
            p == t.scale.raw * d,
            -0x4000_0000 <= t.scale.raw <= 0x4000_0000,
            -0x1_0000_0000_0000 <= d <= 0x1_0000_0000_0000,
    ;
    assert(-0x4000_0000_0000_0000 <= p / 65536 <= 0x4000_0000_0000_0000);
}

/// Rows between two rows land between where those two land.
proof fn lemma_rows_keep_order(t: Transform<Fixed>, w: int, h: int, a: int, y: int, b: int)
    requires
        steady(t),
        0 <= h <= u32::MAX,
        0 <= a <= y <= b <= h,
    ensures
        ({
            let (pa, py, pb) = (
                source_point(t, w, h, 0, a).1.raw,
                source_point(t, w, h, 0, y).1.raw,
                source_point(t, w, h, 0, b).1.raw,
            );
            pa <= py <= pb || pb <= py <= pa
        }),
{
    lemma_source_row(t, w, h, 0, a);
    lemma_source_row(t, w, h, 0, y);
    lemma_source_row(t, w, h, 0, b);
    let s = t.scale.raw as int;
    let (da, dy, db) = (from_centre(h, a), from_centre(h, y), from_centre(h, b));
    if s >= 0 {
        assert(s * da <= s * dy <= s * db) by (nonlinear_arith)
            requires
                s >= 0,
                da <= dy <= db,
        ;
    } else {
        assert(s * db <= s * dy <= s * da) by (nonlinear_arith)
            requires
                s < 0,
                da <= dy <= db,
        ;
    }
}

/// Rounding down and taking the whole part is dividing by a step's size.
proof fn lemma_floor_index(v: Fixed)
    ensures
        v.spec_floor().spec_index() == v.raw as int / 65536,
{
    let q = v.raw as int / 65536;
    assert(v.spec_floor().raw == q * 65536);
}

/// Rounding up never falls below rounding down.
proof fn lemma_ceiling_index(v: Fixed)
    requires
        -0x7000_0000_0000_0000 <= v.raw <= 0x7000_0000_0000_0000,
    ensures
        ceiling(v).spec_index() == -((-v.raw) / 65536),
        ceiling(v).spec_index() >= v.raw as int / 65536,
{
    assert(Fixed::spec_whole(0).raw == 0);
    let under = Fixed::spec_whole(0).spec_minus(v);
    assert(under.raw == -v.raw);
    let q = (-v.raw) / 65536;
    assert(under.spec_floor().raw == q * 65536);
    assert(ceiling(v).raw == -(q * 65536));
}

/// A span that starts before a row and ends after it holds the row, up to the frame's own
/// edges.
proof fn lemma_span_holds(lo: int, hi: int, at: int, h: int, r: int)
    requires
        0 < h,
        lo <= at <= hi,
        r == at || r == at + 1,
    ensures
        ({
            let from = clamped(lo - 1, 0, h - 1);
            let end = clamped(hi + 2, 1, h);
            let to = if end > from + 1 {
                end
            } else {
                from + 1
            };
            &&& 0 <= from < to <= h
            &&& from + clamped(r - from, 0, to - from - 1) == clamped(r, 0, h - 1)
        }),
{
}

/// The source rows that an output row blends are all in the chunk that was read for it.
proof fn lemma_chunk_holds_its_rows(
    t: Transform<Fixed>,
    w: int,
    h: int,
    y0: int,
    rows: int,
    y: int,
    r: int,
)
    requires
        steady(t),
        0 < h <= u32::MAX,
        0 <= y0 <= y < y0 + rows <= h,
        ({
            let at = source_point(t, w, h, 0, y).1.spec_floor().spec_index();
            r == at || r == at + 1
        }),
    ensures
        ({
            let (from, to) = (chunk_from(t, w, h, y0, rows), chunk_to(t, w, h, y0, rows));
            &&& 0 <= from < to <= h
            &&& from + clamped(r - from, 0, to - from - 1) == clamped(r, 0, h - 1)
        }),
{
    let last = y0 + rows - 1;
    let a = source_point(t, w, h, 0, y0).1;
    let b = source_point(t, w, h, 0, last).1;
    let p = source_point(t, w, h, 0, y).1;
    assert(-0x7000_0000_0000_0000 <= a.raw <= 0x7000_0000_0000_0000
        && -0x7000_0000_0000_0000 <= b.raw <= 0x7000_0000_0000_0000) by {
        lemma_source_row(t, w, h, 0, y0);
        lemma_source_row(t, w, h, 0, last);
    }
    lemma_rows_keep_order(t, w, h, y0, y, last);
    let low = if a.spec_exceeds(b) {
        b
    } else {
        a
    };
    let high = if b.spec_exceeds(a) {
        b
    } else {
        a
    };
    lemma_ends(a, p, b, low, high);
    lemma_floor_index(p);
    lemma_floor_index(low);
    lemma_ceiling_index(high);
    let lo = low.spec_floor().spec_index() as int;
    let hi = ceiling(high).spec_index() as int;
    let at = p.spec_floor().spec_index() as int;
    assert(low.raw as int / 65536 <= p.raw as int / 65536 <= high.raw as int / 65536);
    lemma_span_holds(lo, hi, at, h, r);
}

/// The lower and the higher of two ends, with a point between them.
proof fn lemma_ends(a: Fixed, p: Fixed, b: Fixed, low: Fixed, high: Fixed)
    requires
        a.raw <= p.raw <= b.raw || b.raw <= p.raw <= a.raw,
        low == (if a.raw > b.raw {
            b
        } else {
            a
        }),
        high == (if b.raw > a.raw {
            b
        } else {
            a
        }),
    ensures
        low.raw <= p.raw <= high.raw,
{
}

/// A tap of a chunk is the same tap of the frame.
proof fn lemma_tap(
    frame: Seq<Fixed>,
    w: int,
    h: int,
    from: int,
    to: int,
    ix: int,
    r: int,
    ch: int,
)
    requires
        0 < w,
        0 < h,
        frame.len() == w * 3 * h,
        0 <= from < to <= h,
        0 <= ch < 3,
        from + clamped(r - from, 0, to - from - 1) == clamped(r, 0, h - 1),
    ensures
        banded(frame.subrange(from * (w * 3), to * (w * 3)), w, 3, from, to - from, ix, r, ch)
            == banded(frame, w, 3, 0, h, ix, r, ch),
{
    let k = clamped(r - from, 0, to - from - 1);
    let across = clamped(ix, 0, w - 1) * 3 + ch;
    let n = w * 3;
    assert(0 <= across < n);
    assert(0 <= from * n <= to * n <= frame.len()) by (nonlinear_arith)
        requires
            0 <= from < to <= h,
            n > 0,
            frame.len() == n * h,
    ;
    assert(from * n + (k * n + across) == (from + k) * n + across) by (nonlinear_arith);
    assert(0 <= k * n + across < to * n - from * n) by (nonlinear_arith)
        requires
            0 <= k <= to - from - 1,
            0 <= across < n,
    ;
}

/// A frame warped in chunks has no seam: reading only a chunk's own source rows gives the
/// pixels that reading the whole frame would.
pub proof fn lemma_warped_chunks_leave_no_seam(
    t: Transform<Fixed>,
    frame: Seq<Fixed>,
    w: int,
    h: int,
    y0: int,
    rows: int,
    x: int,
    y: int,
    ch: int,
)
    requires
        steady(t),
        0 < w,
        0 < h <= u32::MAX,
        frame.len() == w * 3 * h,
        0 <= y0 <= y < y0 + rows <= h,
        0 <= ch < 3,
    ensures
        ({
            let (from, to) = (chunk_from(t, w, h, y0, rows), chunk_to(t, w, h, y0, rows));
            let chunk = frame.subrange(from * (w * 3), to * (w * 3));
            &&& 0 <= from < to <= h
            &&& warped_texel(t, w, h, chunk, from, to - from, x, y, ch) == warped_texel(
                t,
                w,
                h,
                frame,
                0,
                h,
                x,
                y,
                ch,
            )
        }),
{
    let (from, to) = (chunk_from(t, w, h, y0, rows), chunk_to(t, w, h, y0, rows));
    let (sx, sy) = source_point(t, w, h, x, y);
    assert(sy == source_point(t, w, h, 0, y).1);
    let ix = sx.spec_floor().spec_index() as int;
    let iy = sy.spec_floor().spec_index() as int;
    lemma_chunk_holds_its_rows(t, w, h, y0, rows, y, iy);
    lemma_chunk_holds_its_rows(t, w, h, y0, rows, y, iy + 1);
    lemma_tap(frame, w, h, from, to, ix, iy, ch);
    lemma_tap(frame, w, h, from, to, ix + 1, iy, ch);
    lemma_tap(frame, w, h, from, to, ix, iy + 1, ch);
    lemma_tap(frame, w, h, from, to, ix + 1, iy + 1, ch);
}

/// The pixels of a chunk of output rows, from the source rows that are read for it.
pub open spec fn warped_piece<S: Sample>(
    t: Transform<S>,
    w: int,
    h: int,
    frame: Seq<S>,
    y0: int,
) -> Seq<S> {
    let rows = rows_at(h, y0);
    let (from, to) = (chunk_from(t, w, h, y0, rows), chunk_to(t, w, h, y0, rows));
    let chunk = rows_of(frame, w * 3, from, to - from);
    image_of(
        w,
        rows,
        3,
        |x: int, y: int, ch: int| warped_texel(t, w, h, chunk, from, to - from, x, y0 + y, ch),
    )
}

/// The pixels of each chunk of output rows, by its first row.
pub open spec fn warped_pieces<S: Sample>(t: Transform<S>, w: int, h: int) -> spec_fn(
    Seq<S>,
    int,
) -> Seq<S> {
    |frame: Seq<S>, y0: int| warped_piece(t, w, h, frame, y0)
}

/// The pixels of a frame that is warped as a whole.
pub open spec fn warped_whole<S: Sample>(t: Transform<S>, w: int, h: int, frame: Seq<S>) -> Seq<S> {
    image_of(w, h, 3, |x: int, y: int, ch: int| warped_texel(t, w, h, frame, 0, h, x, y, ch))
}

/// A frame resampled into the anchor's coordinates. It is read a chunk at a time.
pub fn warp_frame<S: Sample, E, F: Fn(u32, u32) -> Result<Vec<S>, E>>(
    info: FrameInfo,
    transform: Transform<S>,
    read: &F,
) -> (r: Result<Bitmap<S>, E>)
    requires
        info.width > 0,
        info.width * info.height * 3 <= usize::MAX,
        info.width * 3 <= usize::MAX,
        readable(read, info.height, info.width * 3),
    ensures
        match r {
            Ok(warped) => {
                &&& warped.width == info.width
                &&& warped.height == info.height
                &&& warped.channels == 3
                &&& whole_picture(warped@)
                &&& forall|frame: Seq<S>| #[trigger]
                    reads_from(read, frame, info.height, info.width * 3) ==> made_of(
                        warped.data@,
                        info.height as int,
                        info.width * 3,
                        warped_pieces(transform, info.width as int, info.height as int),
                        frame,
                    )
            },
            Err(e) => unread(read, info.height, e),
        },
{
    let row_len: usize = info.width as usize * 3;
    proof {
        assert(info.width * info.height * 3 == info.height * (info.width * 3)) by (nonlinear_arith);
    }
    let piece = |y0: u32| -> (out: Result<Vec<S>, E>)
        requires
            y0 < info.height,
        ensures
            match out {
                Ok(v) => {
                    &&& v@.len() == rows_at(info.height as int, y0 as int) * row_len
                    &&& forall|frame: Seq<S>| #[trigger]
                        reads_from(read, frame, info.height, info.width * 3) ==> v@ == warped_piece(
                            transform,
                            info.width as int,
                            info.height as int,
                            frame,
                            y0 as int,
                        )
                },
                Err(e) => unread(read, info.height, e),
            },
        {
            let left: u32 = info.height - y0;
            let rows: u32 = if left < WARP_CHUNK {
                left
            } else {
                WARP_CHUNK
            };
            let (from, to) = warp_span(transform, info, y0, rows);
            match read(from, to - from) {
                Ok(band) => {
                    proof {
                        let count = to - from;
                        assert(count * (info.width * 3) == info.width * 3 * count)
                            by (nonlinear_arith);
                        assert(info.width * rows * 3 <= info.width * info.height * 3)
                            by (nonlinear_arith)
                            requires
                                rows <= info.height,
                        ;
                        assert(info.width * rows * 3 == rows * (info.width * 3))
                            by (nonlinear_arith);
                    }
                    let out = warp_rows(
                        transform,
                        info,
                        band.as_slice(),
                        from,
                        to - from,
                        y0,
                        rows,
                    );
                    proof {
                        assert(0 <= info.width * rows * 3) by (nonlinear_arith);
                        assert forall|frame: Seq<S>| #[trigger]
                            reads_from(read, frame, info.height, info.width * 3) implies out@ == warped_piece(
                            transform,
                            info.width as int,
                            info.height as int,
                            frame,
                            y0 as int,
                        ) by {
                            assert(out@ =~= warped_piece(
                                transform,
                                info.width as int,
                                info.height as int,
                                frame,
                                y0 as int,
                            ));
                        }
                    }
                    Ok(out)
                },
                Err(e) => {
                    assert(read_fails(read, info.height, from, (to - from) as u32, e));
                    Err(e)
                },
            }
        };
    let ghost goal = warped_pieces(transform, info.width as int, info.height as int);
    match gather_frame(
        read,
        info.height,
        Ghost(info.width * 3),
        row_len,
        piece,
        Ghost(goal),
    ) {
        Ok(data) => Ok(
            Bitmap { width: info.width, height: info.height, channels: 3, data },
        ),
        Err(e) => Err(e),
    }
}

/// A frame warped a chunk at a time is warped as a whole.
pub proof fn lemma_warped_frame_has_no_seam(
    t: Transform<Fixed>,
    data: Seq<Fixed>,
    frame: Seq<Fixed>,
    w: int,
    h: int,
)
    requires
        steady(t),
        0 < w,
        0 <= h <= u32::MAX,
        frame.len() == w * h * 3,
        made_of(data, h, w * 3, warped_pieces(t, w, h), frame),
    ensures
        data == warped_whole(t, w, h, frame),
{
    let whole = warped_whole(t, w, h, frame);
    let n = w * 3;
    assert(w * h * 3 == h * n) by (nonlinear_arith)
        requires
            n == w * 3,
    ;
    assert(w * 3 * h == w * h * 3) by (nonlinear_arith);
    assert(0 <= h * n) by (nonlinear_arith)
        requires
            0 <= h,
            n == w * 3,
            0 < w,
    ;
    assert forall|k: int| 0 <= k && k * BAND_ROWS < h implies #[trigger] band_slice(data, h, n, k)
        == band_slice(whole, h, n, k) by {
        lemma_band(h, n, k);
        let y0 = k * BAND_ROWS;
        let rows = rows_at(h, y0);
        let piece = warped_piece(t, w, h, frame, y0);
        assert(band_slice(data, h, n, k) == warped_pieces::<Fixed>(t, w, h)(frame, y0));
        assert((y0 + rows) * n - y0 * n == w * rows * 3) by (nonlinear_arith)
            requires
                n == w * 3,
        ;
        assert forall|i: int| 0 <= i < piece.len() implies piece[i] == band_slice(whole, h, n, k)[i] by {
            lemma_place_of(i, w, rows, 3);
            let (x, y, ch) = (column(i, w, 3), row(i, w, 3), channel(i, 3));
            lemma_sample(x, y0 + y, ch, w, h, 3);
            assert(place(x, y0 + y, ch, w, 3) == place(x, y, ch, w, 3) + y0 * n)
                by (nonlinear_arith)
                requires
                    n == w * 3,
                    place(x, y0 + y, ch, w, 3) == ((y0 + y) * w + x) * 3 + ch,
                    place(x, y, ch, w, 3) == (y * w + x) * 3 + ch,
            ;
            lemma_warped_chunks_leave_no_seam(t, frame, w, h, y0, rows, x, y0 + y, ch);
        }
        assert(piece =~= band_slice(whole, h, n, k));
    }
    lemma_bands_decide(data, whole, h, n);
}

} // verus!
