//! A frame warped straight from its file: its rows are read a chunk at a time through the
//! strip cache, and once it is warped nothing of it stays cached.
//!
//! That release is what keeps the number of frames out of the memory that a run takes: every
//! reader lives as long as its stage, and a frame in a single strip is cached whole.

use vstd::prelude::*;
use crate::drive::{all_read, read_as, Exposure, Shot};
use crate::error::{Error, Found};
use crate::fusion::{warp_rows, warp_span, zeros, WARP_CHUNK};
use crate::image::smaller;
use crate::pipeline::Transform;
use crate::pyramid::{whole_picture, Bitmap};
use crate::reading::{append, band_slice, lemma_band, made_of, rows_at, rows_of};
use crate::sample::Sample;
use crate::tiff_io::{
    all_served, band_row, bytes_held, decodable, decode_fails, decode_mismatches, held,
    lemma_cache_stays_true, lemma_reads_do_not_depend_on_the_cache, lemma_served_again,
    lemma_served_itself, linear_row, read_until, row_served, true_to, FrameLayout,
    FrameReader, StripCache, Unread,
};
use crate::warp::{warped_piece, warped_pieces};

verus! {

/// A row of a file's frame, in linear light.
pub open spec fn filed_row<S>(
    file: spec_fn(u32) -> Seq<u16>,
    l: FrameLayout,
    table: Seq<S>,
    y: int,
) -> Seq<S> {
    linear_row(
        file((y as u32 / l.rows_per_strip) as u32),
        (y as u32 % l.rows_per_strip) as int,
        l.info.width * 3,
        table,
    )
}

/// A file's whole frame, in linear light.
pub open spec fn filed<S>(
    file: spec_fn(u32) -> Seq<u16>,
    l: FrameLayout,
    table: Seq<S>,
) -> Seq<S> {
    let n = l.info.width * 3;
    Seq::new((l.info.height * n) as nat, |i: int| filed_row(file, l, table, i / n)[i % n])
}

/// Does a reader hold nothing?
pub open spec fn released(reader: FrameReader) -> bool {
    held(reader.cache) == Seq::<(u32, Seq<u16>)>::empty()
}

/// Rows that were read are the file's own.
proof fn lemma_read_rows_are_filed<S, E, D: Fn(u32) -> Result<Option<Vec<u16>>, E>>(
    file: spec_fn(u32) -> Seq<u16>,
    c: StripCache,
    decode: D,
    l: FrameLayout,
    table: Seq<S>,
    y0: u32,
    count: u32,
    before: Seq<S>,
    band: Seq<S>,
)
    requires
        true_to(file, c, decode),
        l.info.width > 0,
        y0 + count <= l.info.height,
        before.len() == count * (l.info.width * 3),
        read_until(c, decode, l, table, y0, count as int, before, band),
    ensures
        band == rows_of(filed(file, l, table), l.info.width * 3, y0 as int, count as int),
{
    let n = l.info.width * 3;
    let h = l.info.height as int;
    let whole = filed(file, l, table);
    assert(0 <= y0 * n <= (y0 + count) * n <= h * n && (y0 + count) * n - y0 * n == count * n)
        by (nonlinear_arith)
        requires
            0 <= y0,
            0 <= count,
            y0 + count <= h,
            0 < n,
    ;
    let rows = rows_of(whole, n, y0 as int, count as int);
    assert forall|j: int| 0 <= j < band.len() implies band[j] == rows[j] by {
        let (i, x) = (j / n, j % n);
        vstd::arithmetic::div_mod::lemma_fundamental_div_mod(j, n);
        assert(0 <= i < count && i * n + x == j && (y0 + i) * n + x == y0 * n + j)
            by (nonlinear_arith)
            requires
                j == n * i + x,
                0 <= x < n,
                0 <= j < count * n,
        ;
        vstd::arithmetic::div_mod::lemma_fundamental_div_mod_converse(y0 * n + j, n, y0 + i, x);
        assert(i * n + n <= count * n) by (nonlinear_arith)
            requires
                i + 1 <= count,
                0 < n,
        ;
        assert(0 <= i * n) by (nonlinear_arith)
            requires
                0 <= i,
                0 < n,
        ;
        let row = band_row(band, i, n);
        assert(row_served(c, decode, l, table, (y0 + i) as u32, row));
        lemma_reads_do_not_depend_on_the_cache(
            file,
            c,
            decode,
            l,
            table,
            (y0 + i) as u32,
            row,
        );
        assert(row[x] == band[j]);
        assert(rows[j] == whole[y0 * n + j]);
    }
    assert(band =~= rows);
}

impl FrameReader {
    /// `count` rows in linear light starting at row `y0`.
    fn rows<S: Sample, E, D: Fn(u32) -> Result<Option<Vec<u16>>, E> + Copy>(
        &mut self,
        y0: u32,
        count: u32,
        table: &[S],
        decode: D,
    ) -> (r: Result<Vec<S>, Unread<E>>)
        requires
            old(self).well_formed(),
            old(self).layout.info.width > 0,
            table@.len() == 0x1_0000,
            0 < count,
            y0 + count <= old(self).layout.info.height,
            count * (old(self).layout.info.width * 3) <= usize::MAX,
            decodable(decode, old(self).layout),
        ensures
            final(self).well_formed(),
            final(self).path == old(self).path,
            final(self).layout == old(self).layout,
            all_served(old(self).cache, decode, final(self).cache),
            match r {
                Ok(band) => {
                    &&& band@.len() == count * (old(self).layout.info.width * 3)
                    &&& forall|file: spec_fn(u32) -> Seq<u16>| #[trigger]
                        true_to(file, old(self).cache, decode) ==> band@ == rows_of(
                            filed(file, old(self).layout, table@),
                            old(self).layout.info.width * 3,
                            y0 as int,
                            count as int,
                        )
                },
                Err(Unread::Refused(e)) => {
                    &&& e == (Error::UnsupportedFormat {
                        path: old(self).path,
                        found: Found::OtherDepth,
                    })
                    &&& exists|i: u32| #[trigger] decode_mismatches(decode, i)
                },
                Err(Unread::Failed(e)) => exists|i: u32| #[trigger] decode_fails(decode, i, e),
            },
    {
        let ghost start = *self;
        proof {
            let (c, w) = (count as int, self.layout.info.width as int);
            assert(w * 3 <= c * (w * 3)) by (nonlinear_arith)
                requires
                    c >= 1,
                    w >= 0,
            ;
        }
        let mut out: Vec<S> = zeros(count as usize * (self.layout.info.width as usize * 3));
        let ghost before = out@;
        match self.read_rows(y0, count, &mut out, table, decode) {
            Ok(()) => {
                proof {
                    assert forall|file: spec_fn(u32) -> Seq<u16>| #[trigger]
                        true_to(file, start.cache, decode) implies out@ == rows_of(
                        filed(file, start.layout, table@),
                        start.layout.info.width * 3,
                        y0 as int,
                        count as int,
                    ) by {
                        lemma_read_rows_are_filed(
                            file,
                            start.cache,
                            decode,
                            start.layout,
                            table@,
                            y0,
                            count,
                            before,
                            out@,
                        );
                    }
                }
                Ok(out)
            },
            Err(Unread::Refused(e)) => Err(Unread::Refused(e)),
            Err(Unread::Failed(e)) => {
                let failed = Unread::Failed(e);
                assert(failed->Failed_0 == e);
                Err(failed)
            },
        }
    }

    /// The frame resampled into the anchor's coordinates, read a chunk at a time. Nothing of
    /// it stays cached.
    pub fn warp<S: Sample, E, D: Fn(u32) -> Result<Option<Vec<u16>>, E> + Copy>(
        &mut self,
        transform: Transform<S>,
        table: &[S],
        decode: D,
    ) -> (r: Result<Bitmap<S>, Unread<E>>)
        requires
            old(self).well_formed(),
            old(self).layout.info.width > 0,
            old(self).layout.info.width * 3 * old(self).layout.info.height <= usize::MAX,
            table@.len() == 0x1_0000,
            decodable(decode, old(self).layout),
        ensures
            final(self).well_formed(),
            final(self).path == old(self).path,
            final(self).layout == old(self).layout,
            ({
                let info = old(self).layout.info;
                match r {
                    Ok(warped) => {
                        &&& released(*final(self))
                        &&& warped.width == info.width
                        &&& warped.height == info.height
                        &&& warped.channels == 3
                        &&& whole_picture(warped@)
                        &&& forall|file: spec_fn(u32) -> Seq<u16>| #[trigger]
                            true_to(file, old(self).cache, decode) ==> made_of(
                                warped.data@,
                                info.height as int,
                                info.width * 3,
                                warped_pieces(transform, info.width as int, info.height as int),
                                filed(file, old(self).layout, table@),
                            )
                    },
                    Err(Unread::Refused(e)) => {
                        &&& e == (Error::UnsupportedFormat {
                            path: old(self).path,
                            found: Found::OtherDepth,
                        })
                        &&& exists|i: u32| #[trigger] decode_mismatches(decode, i)
                    },
                    Err(Unread::Failed(e)) => exists|i: u32| #[trigger] decode_fails(decode, i, e),
                }
            }),
    {
        let info = self.layout.info;
        let ghost start = *self;
        let ghost (w, h, n) = (info.width as int, info.height as int, info.width * 3);
        let mut data: Vec<S> = Vec::new();
        let mut y0: u32 = 0;
        let ghost mut done: int = 0;
        proof {
            assert(0 * n == 0) by (nonlinear_arith);
            lemma_served_itself(start.cache, decode);
        }
        while y0 < info.height
            invariant
                start == *old(self),
                self.well_formed(),
                self.path == start.path,
                self.layout == start.layout,
                info == start.layout.info,
                w == info.width,
                h == info.height,
                n == w * 3,
                0 < w,
                n * h <= usize::MAX,
                table@.len() == 0x1_0000,
                decodable(decode, start.layout),
                all_served(start.cache, decode, self.cache),
                y0 <= h,
                0 <= done,
                y0 == smaller(done * WARP_CHUNK, h),
                data@.len() == y0 * n,
                forall|file: spec_fn(u32) -> Seq<u16>, k: int|
                    #![trigger true_to(file, start.cache, decode), band_slice(data@, h, n, k)]
                    true_to(file, start.cache, decode) && 0 <= k < done ==> band_slice(
                        data@,
                        h,
                        n,
                        k,
                    ) == warped_piece(
                        transform,
                        w,
                        h,
                        filed(file, start.layout, table@),
                        k * WARP_CHUNK,
                    ),
            decreases h - y0,
        {
            let left: u32 = info.height - y0;
            let rows: u32 = if left < WARP_CHUNK {
                left
            } else {
                WARP_CHUNK
            };
            let (from, to) = warp_span(transform, info, y0, rows);
            proof {
                let count = to - from;
                assert(count * n <= n * h && n * count == count * n && w * count * 3 == count * n)
                    by (nonlinear_arith)
                    requires
                        0 <= count <= h,
                        n == w * 3,
                        0 <= n,
                ;
                assert(w * rows * 3 <= n * h && w * rows * 3 == rows * n && 0 <= rows * n)
                    by (nonlinear_arith)
                    requires
                        0 <= rows <= h,
                        n == w * 3,
                        0 <= n,
                ;
            }
            let ghost middle = self.cache;
            let band = match self.rows(from, to - from, table, decode) {
                Ok(band) => band,
                Err(Unread::Refused(e)) => {
                    return Err(Unread::Refused(e));
                },
                Err(Unread::Failed(e)) => {
                    let failed = Unread::Failed(e);
                    assert(failed->Failed_0 == e);
                    return Err(failed);
                },
            };
            let piece = warp_rows(transform, info, band.as_slice(), from, to - from, y0, rows);
            let ghost before = data@;
            append(&mut data, &piece);
            proof {
                lemma_served_again(start.cache, middle, self.cache, decode);
                lemma_band(h, n, done);
                assert((y0 + rows) * n == y0 * n + rows * n) by (nonlinear_arith);
                assert(band_slice(data@, h, n, done) =~= piece@);
                assert forall|file: spec_fn(u32) -> Seq<u16>, k: int|
                    #![trigger true_to(file, start.cache, decode), band_slice(data@, h, n, k)]
                    true_to(file, start.cache, decode) && 0 <= k < done + 1 implies band_slice(
                    data@,
                    h,
                    n,
                    k,
                ) == warped_piece(
                    transform,
                    w,
                    h,
                    filed(file, start.layout, table@),
                    k * WARP_CHUNK,
                ) by {
                    if k < done {
                        lemma_band(h, n, k);
                        let (a, b) = (k * WARP_CHUNK + rows_at(h, k * WARP_CHUNK), y0 as int);
                        assert(a * n <= b * n) by (nonlinear_arith)
                            requires
                                a <= b,
                                0 <= n,
                        ;
                        assert(band_slice(data@, h, n, k) =~= band_slice(before, h, n, k));
                    } else {
                        lemma_cache_stays_true(file, start.cache, decode, middle);
                        assert(true_to(file, middle, decode));
                        assert(piece@ =~= warped_piece(
                            transform,
                            w,
                            h,
                            filed(file, start.layout, table@),
                            y0 as int,
                        ));
                    }
                }
                done = done + 1;
            }
            y0 = y0 + rows;
        }
        self.release_cache();
        assert(h * n == w * h * 3 && h * n == n * h) by (nonlinear_arith)
            requires
                n == w * 3,
        ;
        Ok(Bitmap { width: info.width, height: info.height, channels: 3, data })
    }
}

/// Fusing leaves no frame cached, whatever was cached before: where reading a frame leaves its
/// reader holding nothing, as [`FrameReader::warp`] does, every reader holds nothing once all
/// frames are fused.
pub proof fn lemma_fusing_leaves_no_frame_cached<
    S,
    E,
    F: Fn(usize, FrameReader) -> (FrameReader, Result<Exposure<S>, E>),
>(
    read: F,
    before: Seq<FrameReader>,
    after: Seq<FrameReader>,
    shots: Seq<Shot<S>>,
    i: int,
)
    requires
        forall|k: usize, a: FrameReader, b: FrameReader, e: Exposure<S>| #[trigger]
            call_ensures(read, (k, a), (b, Ok(e))) ==> released(b),
        shots.len() == before.len(),
        all_read(read, before, after, shots),
        0 <= i < before.len(),
    ensures
        released(after[i]),
        bytes_held(after[i].cache, after[i].cache.strips@.len()) == 0,
{
    assert(read_as(read, i, before[i], after[i], shots[i]));
    assert(held(after[i].cache).len() == after[i].cache.strips@.len());
}

} // verus!
