//! What a thumbnail shows: each of its pixels is the mean of the block of the frame that it
//! stands for, in every channel by itself.

use vstd::prelude::*;
use crate::image::FrameInfo;
use crate::layout::lemma_sample;
use crate::reading::rows_of;
use crate::rounding::{lemma_part, lemma_product_of, lemma_sum, lemma_whole};
use crate::sample::{Fixed, Sample};
use crate::thumbnail::{
    band_of, cell_sum, lemma_thumbnail_keeps_the_shape, row_added, shrink_of, small_cell, source_at,
    thumbnail_of,
};
use crate::windows::{block_sum, row_total};

verus! {

/// The levels of one channel of a frame.
pub open spec fn channel_levels(frame: Seq<Fixed>, width: int, c: int) -> spec_fn(int, int) -> int {
    |u: int, v: int| frame[(v * width + u) * 3 + c].raw as int
}

/// Are all the samples of a frame between zero and 65536?
pub open spec fn lit(frame: Seq<Fixed>) -> bool {
    forall|i: int| 0 <= i < frame.len() ==> 0 <= (#[trigger] frame[i]).raw <= 0x1_0000_0000
}

proof fn lemma_row_added(
    frame: Seq<Fixed>,
    info: FrameInfo,
    acc: Fixed,
    y0: int,
    count: int,
    row: int,
    tx: int,
    c: int,
    k: nat,
)
    requires
        lit(frame),
        frame.len() == info.width * info.height * 3,
        0 <= y0,
        y0 + count <= info.height,
        0 <= row < count,
        0 <= c < 3,
        0 <= tx,
        0 <= tx * shrink_of(info).factor,
        k <= 0x200_0000,
        tx * shrink_of(info).factor + k <= info.width,
        0 <= acc.raw <= 0x1000_0000_0000_0000,
    ensures
        ({
            let f = channel_levels(frame, info.width as int, c);
            let total = row_total(f, tx * shrink_of(info).factor, y0 + row, k);
            &&& row_added(acc, rows_of(frame, info.width * 3, y0, count), info, row, tx, c, k).raw
                == acc.raw + total
            &&& 0 <= total <= k * 0x1_0000_0000
        }),
    decreases k,
{
    if k > 0 {
        lemma_row_added(frame, info, acc, y0, count, row, tx, c, (k - 1) as nat);
        let (w, h) = (info.width as int, info.height as int);
        let u = tx * shrink_of(info).factor + k - 1;
        let band = rows_of(frame, w * 3, y0, count);
        let at = source_at(info, row, tx, k - 1, c);
        lemma_sample(u, y0 + row, c, w, h, 3);
        assert(0 <= at < count * (w * 3) && y0 * (w * 3) + at == ((y0 + row) * w + u) * 3 + c)
            by (nonlinear_arith)
            requires
                at == row * w * 3 + u * 3 + c,
                0 <= row < count,
                0 <= u < w,
                0 <= c < 3,
        ;
        assert((y0 + count) * (w * 3) - y0 * (w * 3) == count * (w * 3)) by (nonlinear_arith);
        assert(0 <= y0 * (w * 3) && (y0 + count) * (w * 3) <= w * h * 3) by (nonlinear_arith)
            requires
                0 <= y0,
                y0 + count <= h,
                0 <= w,
        ;
        assert(band[at] == frame[((y0 + row) * w + u) * 3 + c]);
        lemma_sum(row_added(acc, band, info, row, tx, c, (k - 1) as nat), band[at]);
    }
}

proof fn lemma_cell_sum(
    frame: Seq<Fixed>,
    info: FrameInfo,
    y0: int,
    count: int,
    tx: int,
    c: int,
    n: nat,
)
    requires
        lit(frame),
        frame.len() == info.width * info.height * 3,
        0 <= y0,
        y0 + count <= info.height,
        n <= count <= 4,
        0 <= c < 3,
        0 <= tx,
        0 <= tx * shrink_of(info).factor,
        shrink_of(info).factor <= 0x200_0000,
        tx * shrink_of(info).factor + shrink_of(info).factor <= info.width,
    ensures
        ({
            let f = channel_levels(frame, info.width as int, c);
            let s = shrink_of(info);
            let all = block_sum(f, tx * s.factor, y0, s.factor as nat, n);
            &&& cell_sum(rows_of(frame, info.width * 3, y0, count), info, tx, c, n).raw == all
            &&& 0 <= all <= n * 0x200_0000_0000_0000
        }),
    decreases n,
{
    if n == 0 {
        lemma_whole(0);
    } else {
        let k = (n - 1) as nat;
        lemma_cell_sum(frame, info, y0, count, tx, c, k);
        let acc = cell_sum(rows_of(frame, info.width * 3, y0, count), info, tx, c, k);
        lemma_row_added(
            frame,
            info,
            acc,
            y0,
            count,
            k as int,
            tx,
            c,
            shrink_of(info).factor as nat,
        );
    }
}

/// The share of one pixel in `n`, rounded down to a step.
pub(crate) proof fn lemma_share(d: Fixed, n: int)
    requires
        n >= 1,
        d.raw == n * 65536,
    ensures
        ({
            let inv = Fixed::spec_whole(1).spec_over(d).raw;
            n * inv <= 65536 < n * inv + n && (65536int % n == 0 ==> n * inv == 65536)
        }),
{
    lemma_whole(1);
    let wide = n * 65536;
    let q = 0x1_0000_0000int / wide;
    assert(n * q <= 65536 < n * q + n && 0 <= q <= 65536) by (nonlinear_arith)
        requires
            q == 0x1_0000_0000int / wide,
            wide == n * 65536,
            1 <= n,
    ;
    assert(Fixed::spec_whole(1).spec_over(d).raw == q);
    if 65536int % n == 0 {
        let e = 65536int / n;
        vstd::arithmetic::div_mod::lemma_fundamental_div_mod(65536, n);
        assert(q == e) by (nonlinear_arith)
            requires
                n * q <= 65536 < n * q + n,
                65536 == n * e,
                n >= 1,
        ;
    }
}

/// A sum shared out over `n` pixels.
pub(crate) proof fn lemma_shared(sum: Fixed, inv: Fixed, n: int)
    requires
        n >= 1,
        0 <= sum.raw <= 0x1000_0000_0000_0000,
        n * inv.raw <= 65536 < n * inv.raw + n,
    ensures
        ({
            let r = sum.spec_times(inv).raw;
            &&& 0 <= n * r <= sum.raw
            &&& 65536 * (sum.raw - n * r) < n * (sum.raw + 65536)
            &&& n * inv.raw == 65536 ==> r == sum.raw as int / n
        }),
{
    let (s, i) = (sum.raw as int, inv.raw as int);
    assert(0 <= i <= 65536) by (nonlinear_arith)
        requires
            n >= 1,
            n * i <= 65536 < n * i + n,
    ;
    lemma_part(sum, inv, 0x1000_0000_0000_0000);
    let r = sum.spec_times(inv).raw as int;
    let si = s * i;
    assert(0 <= si) by (nonlinear_arith)
        requires
            si == s * i,
            0 <= s,
            0 <= i,
    ;
    assert(0 <= r);
    assert(0 <= n * r <= s && 65536 * (s - n * r) < n * (s + 65536)) by (nonlinear_arith)
        requires
            si == s * i,
            si - 65536 < 65536 * r <= si,
            n * i <= 65536 < n * i + n,
            0 <= s,
            0 <= r,
            n >= 1,
    ;
    if n * i == 65536 {
        assert(n * r <= s < n * r + n) by (nonlinear_arith)
            requires
                si == s * i,
                si - 65536 < 65536 * r <= si,
                n * i == 65536,
                0 <= s,
                n >= 1,
        ;
        assert(s / n == r) by (nonlinear_arith)
            requires
                n * r <= s < n * r + n,
                n >= 1,
        ;
    }
}

proof fn lemma_blocks_are_inside(t: int, f: int, extent: int)
    requires
        1 <= f <= extent,
        0 <= t < extent / f,
    ensures
        0 <= t * f,
        t * f + f <= extent,
{
    vstd::arithmetic::div_mod::lemma_fundamental_div_mod(extent, f);
    vstd::arithmetic::div_mod::lemma_mod_bound(extent, f);
    let q = extent / f;
    assert(0 <= t * f && t * f + f <= extent) by (nonlinear_arith)
        requires
            extent == f * q + extent % f,
            0 <= extent % f,
            0 <= t,
            t + 1 <= q,
            1 <= f,
    ;
}

/// A pixel of a thumbnail is the mean of its block, in each channel: of as many columns as the
/// frame is shrunk by and of the rows that are read, each pixel once. What is lost is less than
/// a step, and less than a step of the share of a pixel; where the pixels of a block divide
/// 65536, no more than rounding the mean down.
#[verifier::spinoff_prover]
pub proof fn lemma_thumbnails_average_their_blocks(
    frame: Seq<Fixed>,
    info: FrameInfo,
    tx: int,
    ty: int,
    c: int,
)
    requires
        info.width > 0,
        info.height >= shrink_of(info).rows,
        frame.len() == info.width * info.height * 3,
        lit(frame),
        0 <= tx < shrink_of(info).width,
        0 <= ty < shrink_of(info).height,
        0 <= c < 3,
    ensures
        ({
            let s = shrink_of(info);
            let sum = block_sum(
                channel_levels(frame, info.width as int, c),
                tx * s.factor,
                ty * s.factor,
                s.factor as nat,
                s.rows as nat,
            );
            let n = s.rows * s.factor;
            let small = thumbnail_of(frame, info);
            let r = small.data[(ty * small.w + tx) * 3 + c].raw;
            &&& small.w == s.width && small.h == s.height && small.c == 3
            &&& 0 <= n * r <= sum
            &&& 65536 * (sum - n * r) < n * (sum + 65536)
            &&& 65536int % n == 0 ==> r == sum / n
        }),
{
    let s = shrink_of(info);
    let (f, w, h) = (s.factor as int, info.width as int, info.height as int);
    lemma_thumbnail_keeps_the_shape(info);
    assert(f <= 0x200_0000);
    lemma_blocks_are_inside(tx, f, w);
    if h >= f {
        lemma_blocks_are_inside(ty, f, h);
    } else {
        assert(h / f == 0) by (nonlinear_arith)
            requires
                0 <= h < f,
        ;
        assert(ty == 0);
        assert(ty * f == 0) by (nonlinear_arith)
            requires
                ty == 0,
        ;
    }
    let (y0, count) = band_of(info, ty);
    assert(count == s.rows && y0 + count <= h);
    lemma_cell_sum(frame, info, y0, count, tx, c, count as nat);
    let band = rows_of(frame, w * 3, y0, count);
    let sum = cell_sum(band, info, tx, c, count as nat);
    let n = count * f;
    lemma_whole(count);
    lemma_whole(f);
    lemma_whole(1);
    let (a, b) = (Fixed::spec_whole(count as i64), Fixed::spec_whole(f as i64));
    assert((count * 65536) * (f * 65536) == (n * 65536) * 65536 && 1 <= n <= 0x800_0000)
        by (nonlinear_arith)
        requires
            n == count * f,
            1 <= count <= 4,
            1 <= f <= 0x200_0000,
    ;
    let wide = n * 65536;
    assert((wide * 65536) / 65536 == wide);
    lemma_product_of(a, b);
    let d = a.spec_times(b);
    assert(d.raw == n * 65536);
    let inv = Fixed::spec_whole(1).spec_over(d);
    lemma_share(d, n);
    lemma_shared(sum, inv, n);
    lemma_sample(tx, ty, c, s.width as int, s.height as int, 3);
    let small = thumbnail_of(frame, info);
    assert(small.data[(ty * small.w + tx) * 3 + c] == small_cell(frame, info, tx, ty, c));
}

} // verus!
