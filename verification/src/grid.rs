//! Single-channel images held in memory, used for registration and for looking at.

use vstd::prelude::*;
use crate::image::{larger, lemma_two_to_grows, two_to, FrameInfo};
use crate::layout::lemma_place;
use crate::luma::{luma, luminance};
use crate::pipeline::{inverse_of, Transform};
use crate::plane::{
    cell, lemma_cell, lemma_same_sheet, lemma_sheet_size, plane_of, sheet, source_of, source_point,
    whole_sheet, Plane, Sheet,
};
use crate::reading::{append, read_fails, readable, reads_from, rows_of, unread};
use crate::sample::Sample;

verus! {

/// A single-channel image.
#[derive(Debug, PartialEq)]
pub struct Grid<S> {
    pub width: u32,
    pub height: u32,
    pub data: Vec<S>,
}

impl<S> View for Grid<S> {
    type V = Sheet<S>;

    open spec fn view(&self) -> Sheet<S> {
        Sheet { w: self.width as int, h: self.height as int, data: self.data@ }
    }
}

/// A plane as a grid.
fn as_grid<S>(p: Plane<S>) -> (g: Grid<S>)
    ensures
        g@ == p@,
{
    Grid { width: p.width, height: p.height, data: p.data }
}

/// The luminance of a block's row of `count` pixels from pixel `x` on, added in order.
pub open spec fn row_light<S: Sample>(row: Seq<S>, x: int, count: nat) -> S
    decreases count,
{
    if count == 0 {
        S::spec_whole(0)
    } else {
        let p = 3 * (x + count - 1);
        row_light(row, x, (count - 1) as nat).spec_plus(
            luminance(row[p], row[p + 1], row[p + 2]),
        )
    }
}

/// The light of the first `rows` rows of a block that starts at pixel `x`, each row added
/// as a whole.
pub open spec fn block_light<S: Sample>(
    band: Seq<S>,
    row_len: int,
    x: int,
    scale: nat,
    rows: nat,
) -> S
    decreases rows,
{
    if rows == 0 {
        S::spec_whole(0)
    } else {
        let at = (rows - 1) * row_len;
        block_light(band, row_len, x, scale, (rows - 1) as nat).spec_plus(
            row_light(band.subrange(at, at + row_len), x, scale),
        )
    }
}

/// The mean luminance of a block.
pub open spec fn block_mean<S: Sample>(band: Seq<S>, row_len: int, scale: int, ox: int) -> S {
    let side = S::spec_whole(scale as i64);
    block_light(band, row_len, ox * scale, scale as nat, scale as nat).spec_times(
        S::spec_whole(1).spec_over(side.spec_times(side)),
    )
}

/// The light of one row of a block.
fn row_light_of<S: Sample>(
    band: &[S],
    at: usize,
    row_len: usize,
    x: usize,
    scale: usize,
) -> (acc: S)
    requires
        at + row_len <= band@.len(),
        3 * (x + scale) <= row_len,
    ensures
        acc == row_light(band@.subrange(at as int, at + row_len), x as int, scale as nat),
{
    let ghost row = band@.subrange(at as int, at + row_len);
    assert(band@.len() == band.len());
    let mut acc = S::whole(0);
    let mut i: usize = 0;
    while i < scale
        invariant
            i <= scale,
            at + row_len <= band@.len(),
            band@.len() <= usize::MAX,
            3 * (x + scale) <= row_len,
            row == band@.subrange(at as int, at + row_len),
            acc == row_light(row, x as int, i as nat),
        decreases scale - i,
    {
        let p: usize = at + 3 * (x + i);
        assert(row[3 * (x + i)] == band@[p as int] && row[3 * (x + i) + 1] == band@[p + 1] && row[3
            * (x + i) + 2] == band@[p + 2]);
        acc = acc.plus(luma(band[p], band[p + 1], band[p + 2]));
        i += 1;
    }
    acc
}

/// One row of a luma grid at a pyramid level: area averages over square blocks of
/// `scale` pixels, from the `scale` rows that the blocks stand in.
///
/// Averaging over the block both decimates and low-pass filters, which is what makes a
/// coarse level meaningful rather than aliased.
pub fn downsampled_row<S: Sample>(
    band: &[S],
    row_len: usize,
    scale: u32,
    width: u32,
) -> (out: Vec<S>)
    requires
        scale > 0,
        3 * width * scale <= row_len,
        band@.len() == row_len * scale,
    ensures
        out@.len() == width,
        forall|ox: int|
            0 <= ox < width ==> #[trigger] out@[ox] == block_mean(
                band@,
                row_len as int,
                scale as int,
                ox,
            ),
{
    let side: usize = scale as usize;
    let extent = S::whole(scale as i64);
    let inv = S::whole(1).over(extent.times(extent));
    let mut out: Vec<S> = Vec::with_capacity(width as usize);
    let mut ox: usize = 0;
    assert(band@.len() == band.len());
    while ox < width as usize
        invariant
            ox <= width,
            side == scale,
            scale > 0,
            3 * width * scale <= row_len,
            band@.len() == row_len * scale,
            band@.len() <= usize::MAX,
            inv == S::spec_whole(1).spec_over(
                S::spec_whole(scale as i64).spec_times(S::spec_whole(scale as i64)),
            ),
            out@.len() == ox,
            forall|k: int|
                0 <= k < ox ==> #[trigger] out@[k] == block_mean(
                    band@,
                    row_len as int,
                    scale as int,
                    k,
                ),
        decreases width - ox,
    {
        assert(0 <= ox * scale && 3 * (ox * scale + scale) <= 3 * width * scale)
            by (nonlinear_arith)
            requires
                ox + 1 <= width,
                0 < scale,
        ;
        let x: usize = ox * side;
        let mut acc = S::whole(0);
        let mut sy: usize = 0;
        while sy < side
            invariant
                sy <= side,
                side == scale,
                x == ox * scale,
                3 * (x + side) <= row_len,
                band@.len() == row_len * scale,
                band@.len() <= usize::MAX,
                acc == block_light(band@, row_len as int, x as int, side as nat, sy as nat),
            decreases side - sy,
        {
            assert(0 <= sy * row_len && sy * row_len + row_len <= row_len * scale)
                by (nonlinear_arith)
                requires
                    sy + 1 <= scale,
                    0 <= row_len,
            ;
            let light = row_light_of(band, sy * row_len, row_len, x, side);
            acc = acc.plus(light);
            sy += 1;
        }
        out.push(acc.times(inv));
        ox += 1;
    }
    out
}

/// A grid's sample, and zero outside it.
pub open spec fn islanded<S: Sample>(s: Sheet<S>, x: int, y: int) -> S {
    if 0 <= x < s.w && 0 <= y < s.h {
        cell(s, x, y)
    } else {
        S::spec_whole(0)
    }
}

fn island<S: Sample>(grid: &Grid<S>, x: i128, y: i128) -> (r: S)
    requires
        whole_sheet(grid@),
    ensures
        r == islanded(grid@, x as int, y as int),
{
    let (w, h): (usize, usize) = (grid.width as usize, grid.height as usize);
    if x < 0 || y < 0 || x >= w as i128 || y >= h as i128 {
        return S::whole(0);
    }
    proof {
        lemma_place(x as int, y as int, w as int, h as int);
    }
    assert(grid.data@.len() == grid.data.len());
    grid.data[y as usize * w + x as usize]
}

/// The samples added in order.
pub open spec fn total<S: Sample>(data: Seq<S>, n: nat) -> S
    decreases n,
{
    if n == 0 {
        S::spec_whole(0)
    } else {
        total(data, (n - 1) as nat).spec_plus(data[n - 1])
    }
}

/// A grid with its content moved by a transform: each sample comes from where the transform
/// takes it back to.
pub open spec fn moved<S: Sample>(s: Sheet<S>, t: Transform<S>) -> Sheet<S> {
    sheet(
        s.w,
        s.h,
        |x: int, y: int|
            crate::plane::bilinear(
                |ix: int, iy: int| islanded(s, ix, iy),
                source_point(inverse_of(t), s.w, s.h, x, y).0,
                source_point(inverse_of(t), s.w, s.h, x, y).1,
            ),
    )
}

/// A grid with its content displaced by a shift.
pub open spec fn displaced<S: Sample>(s: Sheet<S>, dx: S, dy: S) -> Sheet<S> {
    sheet(
        s.w,
        s.h,
        |x: int, y: int|
            crate::plane::bilinear(
                |ix: int, iy: int| islanded(s, ix, iy),
                S::spec_whole(x as i64).spec_minus(dx),
                S::spec_whole(y as i64).spec_minus(dy),
            ),
    )
}

/// A frame brought down by a whole factor, in luminance: each cell is the mean of a block.
pub open spec fn coarse<S: Sample>(frame: Seq<S>, width: int, height: int, scale: int) -> Sheet<S> {
    sheet(
        width / scale,
        height / scale,
        |x: int, y: int|
            block_mean(rows_of(frame, width * 3, y * scale, scale), width * 3, scale, x),
    )
}

/// Two to the power of a pyramid level.
fn level_scale(level: u32) -> (scale: u32)
    requires
        level < 32,
    ensures
        scale == two_to(level as nat),
        scale >= 1,
{
    let mut scale: u32 = 1;
    let mut k: u32 = 0;
    while k < level
        invariant
            k <= level,
            level < 32,
            scale == two_to(k as nat),
        decreases level - k,
    {
        proof {
            reveal_with_fuel(two_to, 33);
            assert(two_to(31) == 0x8000_0000);
            lemma_two_to_grows((k + 1) as nat, 31);
        }
        scale = scale * 2;
        k += 1;
    }
    proof {
        lemma_two_to_grows(0, level as nat);
    }
    scale
}

/// The blocks of a coarse row lie inside the frame.
proof fn lemma_blocks_inside(size: int, scale: int, at: int)
    requires
        0 <= size,
        0 < scale,
        0 <= at < size / scale,
    ensures
        0 <= at * scale,
        at * scale + scale <= size,
        (size / scale) * scale <= size,
{
    vstd::arithmetic::div_mod::lemma_fundamental_div_mod(size, scale);
    let q = size / scale;
    assert(0 <= at * scale && at * scale + scale <= q * scale && q * scale <= size)
        by (nonlinear_arith)
        requires
            0 <= at < q,
            0 < scale,
            size == scale * q + size % scale,
            0 <= size % scale,
    ;
}

impl<S: Sample> Grid<S> {
    /// A black grid.
    pub fn new(width: u32, height: u32) -> (r: Self)
        requires
            width * height <= usize::MAX,
        ensures
            r.width == width,
            r.height == height,
            r.data@ == Seq::new((width * height) as nat, |i: int| S::spec_whole(0)),
            whole_sheet(r@),
    {
        as_grid(Plane::new(width, height))
    }

    /// A frame at a pyramid level, in luminance, as registration and the debug views see
    /// it. The frame is read a row of blocks at a time.
    pub fn from_image<E, F: Fn(u32, u32) -> Result<Vec<S>, E>>(
        info: FrameInfo,
        level: u32,
        read: &F,
    ) -> (r: Result<Self, E>)
        requires
            level < 32,
            info.width as int / two_to(level as nat) > 0,
            info.height as int / two_to(level as nat) > 0,
            info.width * 3 * two_to(level as nat) <= usize::MAX,
            (info.width as int / two_to(level as nat)) * (info.height as int / two_to(
                level as nat,
            )) <= usize::MAX,
            readable(read, info.height, info.width * 3),
        ensures
            match r {
                Ok(grid) => {
                    &&& grid@.w == info.width as int / two_to(level as nat)
                    &&& grid@.h == info.height as int / two_to(level as nat)
                    &&& whole_sheet(grid@)
                    &&& forall|frame: Seq<S>| #[trigger]
                        reads_from(read, frame, info.height, info.width * 3) ==> grid@ == coarse(
                            frame,
                            info.width as int,
                            info.height as int,
                            two_to(level as nat),
                        )
                },
                Err(e) => unread(read, info.height, e),
            },
    {
        let scale = level_scale(level);
        let (width, height): (u32, u32) = (info.width / scale, info.height / scale);
        assert(info.width * 3 <= info.width * 3 * scale) by (nonlinear_arith)
            requires
                scale >= 1,
        ;
        let row_len: usize = info.width as usize * 3;
        let mut data: Vec<S> = Vec::new();
        let mut oy: u32 = 0;
        assert(0 * width == 0) by (nonlinear_arith);
        while oy < height
            invariant
                oy <= height,
                scale >= 1,
                width == info.width / scale,
                height == info.height / scale,
                width > 0,
                row_len == info.width * 3,
                row_len * scale <= usize::MAX,
                readable(read, info.height, info.width * 3),
                data@.len() == oy * width,
                forall|frame: Seq<S>, x: int, y: int|
                    #![trigger reads_from(read, frame, info.height, info.width * 3), data@[y * width + x]]
                    reads_from(read, frame, info.height, info.width * 3) && 0 <= x < width && 0 <= y
                        < oy ==> data@[y * width + x] == block_mean(
                        rows_of(frame, info.width * 3, y * scale, scale as int),
                        info.width * 3,
                        scale as int,
                        x,
                    ),
            decreases height - oy,
        {
            proof {
                lemma_blocks_inside(info.height as int, scale as int, oy as int);
                lemma_blocks_inside(info.width as int, scale as int, 0);
                assert(3 * width * scale <= row_len) by (nonlinear_arith)
                    requires
                        width * scale <= info.width,
                        row_len == info.width * 3,
                ;
                assert(scale * (info.width * 3) == row_len * scale) by (nonlinear_arith)
                    requires
                        row_len == info.width * 3,
                ;
            }
            let band = match read(oy * scale, scale) {
                Ok(band) => band,
                Err(e) => {
                    proof {
                        assert(read_fails(read, info.height, (oy * scale) as u32, scale, e));
                        assert(unread(read, info.height, e));
                    }
                    return Err(e);
                },
            };
            let line = downsampled_row(band.as_slice(), row_len, scale, width);
            let ghost before = data@;
            append(&mut data, &line);
            proof {
                assert((oy + 1) * width == oy * width + width) by (nonlinear_arith);
                assert forall|frame: Seq<S>, x: int, y: int|
                    #![trigger reads_from(read, frame, info.height, info.width * 3), data@[y * width + x]]
                    reads_from(read, frame, info.height, info.width * 3) && 0 <= x < width && 0 <= y
                        < oy + 1 implies data@[y * width + x] == block_mean(
                    rows_of(frame, info.width * 3, y * scale, scale as int),
                    info.width * 3,
                    scale as int,
                    x,
                ) by {
                    if y < oy {
                        lemma_place(x, y, width as int, oy as int);
                        assert(width * oy == oy * width) by (nonlinear_arith);
                        assert(data@[y * width + x] == before[y * width + x]);
                    } else {
                        assert(data@[y * width + x] == line@[x]);
                    }
                }
            }
            oy += 1;
        }
        let grid = Grid { width, height, data };
        proof {
            assert(height * width == width * height) by (nonlinear_arith);
            assert forall|frame: Seq<S>| #[trigger]
                reads_from(read, frame, info.height, info.width * 3) implies grid@ == coarse(
                frame,
                info.width as int,
                info.height as int,
                two_to(level as nat),
            ) by {
                let f = |x: int, y: int|
                    block_mean(
                        rows_of(frame, info.width * 3, y * scale, scale as int),
                        info.width * 3,
                        scale as int,
                        x,
                    );
                let goal = coarse(
                    frame,
                    info.width as int,
                    info.height as int,
                    two_to(level as nat),
                );
                assert(goal =~= sheet(width as int, height as int, f));
                lemma_sheet_size(width as int, height as int, f);
                assert forall|x: int, y: int| 0 <= x < width && 0 <= y < height implies #[trigger] cell(
                    grid@,
                    x,
                    y,
                ) == cell(goal, x, y) by {
                    lemma_cell(width as int, height as int, f, x, y);
                    assert(data@[y * width + x] == f(x, y));
                }
                lemma_same_sheet(grid@, goal);
            }
        }
        Ok(grid)
    }

    pub fn at(&self, x: u32, y: u32) -> (r: S)
        requires
            whole_sheet(self@),
            x < self.width,
            y < self.height,
        ensures
            r == cell(self@, x as int, y as int),
    {
        proof {
            lemma_place(x as int, y as int, self.width as int, self.height as int);
        }
        assert(self.data@.len() == self.data.len());
        self.data[y as usize * self.width as usize + x as usize]
    }

    /// The same grid again.
    pub fn copy(&self) -> (r: Self)
        ensures
            r@ == self@,
            r.width == self.width,
            r.height == self.height,
    {
        let n = self.data.len();
        let mut data: Vec<S> = Vec::with_capacity(n);
        let mut i: usize = 0;
        while i < n
            invariant
                i <= n,
                n == self.data@.len(),
                data@.len() == i,
                forall|k: int| 0 <= k < i ==> #[trigger] data@[k] == self.data@[k],
            decreases n - i,
        {
            data.push(self.data[i]);
            i += 1;
        }
        assert(data@ =~= self.data@);
        Grid { width: self.width, height: self.height, data }
    }

    /// A bilinear sample; zero outside the grid.
    pub fn sample(&self, x: S, y: S) -> (r: S)
        requires
            whole_sheet(self@),
        ensures
            r == crate::plane::bilinear(|ix: int, iy: int| islanded(self@, ix, iy), x, y),
    {
        let (x0, y0) = (x.floor(), y.floor());
        let (fx, fy) = (x.minus(x0), y.minus(y0));
        let (ix, iy): (i128, i128) = (x0.index() as i128, y0.index() as i128);
        let one = S::whole(1);
        let (a, b) = (island(self, ix, iy), island(self, ix + 1, iy));
        let (c, d) = (island(self, ix, iy + 1), island(self, ix + 1, iy + 1));
        let top = a.times(one.minus(fx)).plus(b.times(fx));
        let bottom = c.times(one.minus(fx)).plus(d.times(fx));
        top.times(one.minus(fy)).plus(bottom.times(fy))
    }

    /// A copy displaced by `(dx, dy)` pixels, sampled bilinearly. Samples falling outside the
    /// source read as zero.
    pub fn shifted(&self, dx: S, dy: S) -> (out: Grid<S>)
        requires
            whole_sheet(self@),
        ensures
            out@ == displaced(self@, dx, dy),
    {
        let (width, height) = (self.width, self.height);
        let ghost s = self@;
        let ghost g = |x: int, y: int|
            crate::plane::bilinear(
                |ix: int, iy: int| islanded(s, ix, iy),
                S::spec_whole(x as i64).spec_minus(dx),
                S::spec_whole(y as i64).spec_minus(dy),
            );
        assert(self.data@.len() == self.data.len());
        as_grid(
            plane_of(
                width,
                height,
                (|x: usize, y: usize| -> (v: S)
                    requires
                        x < width,
                        y < height,
                    ensures
                        v == g(x as int, y as int),
                {
                    self.sample(S::whole(x as i64).minus(dx), S::whole(y as i64).minus(dy))
                }),
                Ghost(g),
            ),
        )
    }

    /// A copy whose content is moved by a transform about the grid's centre. Samples
    /// falling outside the source read as zero.
    pub fn warped(&self, t: Transform<S>) -> (out: Grid<S>)
        requires
            whole_sheet(self@),
        ensures
            out@ == moved(self@, t),
            whole_sheet(out@),
    {
        let (width, height) = (self.width, self.height);
        let back = t.inverse();
        let ghost s = self@;
        let ghost g = |x: int, y: int|
            crate::plane::bilinear(
                |ix: int, iy: int| islanded(s, ix, iy),
                source_point(inverse_of(t), s.w, s.h, x, y).0,
                source_point(inverse_of(t), s.w, s.h, x, y).1,
            );
        assert(self.data@.len() == self.data.len());
        as_grid(
            plane_of(
                width,
                height,
                (|x: usize, y: usize| -> (v: S)
                    requires
                        x < width,
                        y < height,
                    ensures
                        v == g(x as int, y as int),
                {
                    let (sx, sy) = source_of(back, width, height, x as u32, y as u32);
                    self.sample(sx, sy)
                }),
                Ghost(g),
            ),
        )
    }

    /// Sub-rectangle copy.
    pub fn crop(&self, x0: u32, y0: u32, width: u32, height: u32) -> (out: Grid<S>)
        requires
            whole_sheet(self@),
            x0 + width <= self.width,
            y0 + height <= self.height,
        ensures
            out@ == sheet(
                width as int,
                height as int,
                |x: int, y: int| cell(self@, x0 + x, y0 + y),
            ),
    {
        let (w, h): (usize, usize) = (self.width as usize, self.height as usize);
        let (cx, cy): (usize, usize) = (x0 as usize, y0 as usize);
        let ghost s = self@;
        let ghost g = |x: int, y: int| cell(s, x0 + x, y0 + y);
        let data = self.data.as_slice();
        assert(data@.len() == data.len());
        assert(width * height <= w * h) by (nonlinear_arith)
            requires
                width <= w,
                height <= h,
        ;
        as_grid(
            plane_of(
                width,
                height,
                (|x: usize, y: usize| -> (v: S)
                    requires
                        x < width,
                        y < height,
                    ensures
                        v == g(x as int, y as int),
                {
                    proof {
                        lemma_place(cx + x, cy + y, w as int, h as int);
                    }
                    data[(cy + y) * w + (cx + x)]
                }),
                Ghost(g),
            ),
        )
    }

    /// Mean sample value; zero for a grid with no samples.
    pub fn mean(&self) -> (r: S)
        requires
            self.data@.len() <= i64::MAX,
        ensures
            r == (if self.data@.len() == 0 {
                S::spec_whole(0)
            } else {
                total(self.data@, self.data@.len()).spec_over(
                    S::spec_whole(self.data@.len() as i64),
                )
            }),
    {
        let n = self.data.len();
        let mut acc = S::whole(0);
        if n == 0 {
            return acc;
        }
        let mut i: usize = 0;
        while i < n
            invariant
                i <= n,
                n == self.data@.len(),
                acc == total(self.data@, i as nat),
            decreases n - i,
        {
            acc = acc.plus(self.data[i]);
            i += 1;
        }
        acc.over(S::whole(n as i64))
    }
}

/// Longest edge of a debug image.
pub const MAX_EDGE: u32 = 1400;

/// How many pixels of a grid go into one pixel of its view, along each axis.
pub open spec fn view_factor(w: int, h: int) -> int {
    larger((larger(w, h) + MAX_EDGE - 1) / (MAX_EDGE as int), 1)
}

/// The samples of a block of `factor` by `factor`, added in order.
pub open spec fn block_total<S: Sample>(
    s: Sheet<S>,
    x: int,
    y: int,
    factor: int,
    n: nat,
) -> S
    decreases n,
{
    if n == 0 {
        S::spec_whole(0)
    } else {
        let k = n - 1;
        block_total(s, x, y, factor, k as nat).spec_plus(
            cell(s, x * factor + k % factor, y * factor + k / factor),
        )
    }
}

/// A grid box-averaged down until its longest edge fits a view.
pub open spec fn viewed<S: Sample>(s: Sheet<S>) -> Sheet<S> {
    let f = view_factor(s.w, s.h);
    if f == 1 {
        s
    } else {
        sheet(
            larger(s.w / f, 1),
            larger(s.h / f, 1),
            |x: int, y: int|
                block_total(s, x, y, f, (f * f) as nat).spec_times(
                    S::spec_whole(1).spec_over(S::spec_whole((f * f) as i64)),
                ),
        )
    }
}

/// Can a grid be brought down to a view, block by block? The last sample of the last block
/// has to be there. In a grid narrower than a block, a block's rows run on into the next.
pub open spec fn viewable<S>(s: Sheet<S>) -> bool {
    let f = view_factor(s.w, s.h);
    let (x, y) = (larger(s.w / f, 1) * f - 1, larger(s.h / f, 1) * f - 1);
    whole_sheet(s) && (f == 1 || y * s.w + x < s.data.len())
}

/// How many pixels of a grid go into one pixel of its view, along each axis.
fn factor_for(width: u32, height: u32) -> (r: u32)
    ensures
        r == view_factor(width as int, height as int),
        1 <= r <= 0x30_0000,
{
    let longest: u32 = if width >= height {
        width
    } else {
        height
    };
    let whole: u32 = longest / MAX_EDGE;
    let factor: u32 = if longest % MAX_EDGE == 0 {
        whole
    } else {
        whole + 1
    };
    if factor >= 1 {
        factor
    } else {
        1
    }
}

/// How many blocks go along an edge.
fn blocks_along(edge: u32, factor: u32) -> (r: u32)
    requires
        factor >= 1,
    ensures
        r == larger(edge as int / factor as int, 1),
{
    let n = edge / factor;
    if n >= 1 {
        n
    } else {
        1
    }
}

/// Can a grid be brought down to a view, block by block?
pub fn is_viewable<S: Sample>(grid: &Grid<S>) -> (r: bool)
    ensures
        r == viewable(grid@),
{
    let factor = factor_for(grid.width, grid.height);
    assert(grid.width * grid.height <= 0xffff_ffff * 0xffff_ffff) by (nonlinear_arith)
        requires
            grid.width <= 0xffff_ffff,
            grid.height <= 0xffff_ffff,
    ;
    if grid.data.len() as u64 != grid.width as u64 * grid.height as u64 {
        return false;
    }
    if factor == 1 {
        return true;
    }
    let (across, down) = (
        blocks_along(grid.width, factor),
        blocks_along(grid.height, factor),
    );
    proof {
        let f = factor as int;
        lemma_blocks(grid.width as int, f);
        lemma_blocks(grid.height as int, f);
        let (y, w) = (down * f - 1, grid.width as int);
        assert(0 <= y * w <= 0x1_0030_0000 * 0x1_0000_0000) by (nonlinear_arith)
            requires
                0 <= y <= 0x1_0030_0000,
                0 <= w <= 0x1_0000_0000,
        ;
    }
    let (x, y): (u64, u64) = (
        across as u64 * factor as u64 - 1,
        down as u64 * factor as u64 - 1,
    );
    let at: u128 = y as u128 * grid.width as u128 + x as u128;
    at < grid.data.len() as u128
}

/// The blocks along an edge do not reach past it, unless the edge is shorter than one.
proof fn lemma_blocks(edge: int, f: int)
    requires
        0 <= edge <= u32::MAX,
        1 <= f <= 0x30_0000,
    ensures
        1 <= larger(edge / f, 1) * f <= 0x1_0030_0000,
        larger(edge / f, 1) * f <= larger(edge, f),
{
    let (q, n) = (edge / f, larger(edge / f, 1));
    vstd::arithmetic::div_mod::lemma_fundamental_div_mod(edge, f);
    vstd::arithmetic::div_mod::lemma_mod_bound(edge, f);
    assert(q * f <= edge) by (nonlinear_arith)
        requires
            edge == f * q + edge % f,
            0 <= edge % f,
    ;
    assert(n * f >= 1) by (nonlinear_arith)
        requires
            n >= 1,
            f >= 1,
    ;
    if q < 1 {
        assert(n * f == f) by (nonlinear_arith)
            requires
                n == 1,
        ;
    }
}

fn block_sum<S: Sample>(grid: &Grid<S>, x: usize, y: usize, factor: u32) -> (acc: S)
    requires
        whole_sheet(grid@),
        1 <= factor <= 0x30_0000,
        (y * factor + factor - 1) * grid.width + x * factor + factor - 1 < grid.data@.len(),
    ensures
        acc == block_total(
            grid@,
            x as int,
            y as int,
            factor as int,
            (factor * factor) as nat,
        ),
{
    let w: usize = grid.width as usize;
    let ghost f = factor as int;
    assert(0 <= x * f && 0 <= y * f) by (nonlinear_arith)
        requires
            0 <= x,
            0 <= y,
            1 <= f,
    ;
    assert(factor * factor <= 0x30_0000 * 0x30_0000) by (nonlinear_arith)
        requires
            factor <= 0x30_0000,
    ;
    let n: u64 = factor as u64 * factor as u64;
    assert(grid.data@.len() == grid.data.len());
    let mut acc = S::whole(0);
    let mut k: u64 = 0;
    while k < n
        invariant
            k <= n,
            n == factor * factor,
            f == factor,
            1 <= f <= 0x30_0000,
            w == grid.width,
            whole_sheet(grid@),
            grid.data@.len() <= usize::MAX,
            0 <= x * f,
            0 <= y * f,
            (y * f + f - 1) * w + x * f + f - 1 < grid.data@.len(),
            acc == block_total(grid@, x as int, y as int, f, k as nat),
        decreases n - k,
    {
        proof {
            crate::layout::lemma_column_and_row(k as int, f, f);
            let (i, j) = (k as int % f, k as int / f);
            let h = grid.height as int;
            assert(w >= 1) by (nonlinear_arith)
                requires
                    0 <= (y * f + f - 1) * w + x * f + f - 1 < w * h,
                    0 <= w,
                    0 <= h,
                    0 <= x * f,
                    1 <= f,
            ;
            let (cx, cy) = (x * f + i, y * f + j);
            assert(0 <= cy * w && cy <= cy * w && cy * w + cx <= (y * f + f - 1) * w + x * f + f
                - 1) by (nonlinear_arith)
                requires
                    0 <= cy <= y * f + f - 1,
                    0 <= cx <= x * f + f - 1,
                    w >= 1,
            ;
        }
        let (i, j): (usize, usize) = (
            (k % factor as u64) as usize,
            (k / factor as u64) as usize,
        );
        let (cx, cy): (usize, usize) = (x * factor as usize + i, y * factor as usize + j);
        acc = acc.plus(grid.data[cy * w + cx]);
        k += 1;
    }
    acc
}

/// Box-average down until the longest edge fits [`MAX_EDGE`].
pub fn downsample_for_view<S: Sample>(grid: &Grid<S>) -> (out: Grid<S>)
    requires
        viewable(grid@),
    ensures
        out@ == viewed(grid@),
        whole_sheet(out@),
{
    let factor = factor_for(grid.width, grid.height);
    if factor == 1 {
        return grid.copy();
    }
    let (width, height) = (
        blocks_along(grid.width, factor),
        blocks_along(grid.height, factor),
    );
    let ghost f = factor as int;
    let ghost s = grid@;
    assert(grid.data@.len() == grid.data.len());
    proof {
        lemma_blocks(s.w, f);
        lemma_blocks(s.h, f);
        lemma_view_is_smaller(s.w, s.h, f);
        assert(factor * factor <= 0x30_0000 * 0x30_0000) by (nonlinear_arith)
            requires
                factor <= 0x30_0000,
        ;
    }
    let inv = S::whole(1).over(S::whole((factor as u64 * factor as u64) as i64));
    let ghost g = |x: int, y: int|
        block_total(s, x, y, f, (f * f) as nat).spec_times(
            S::spec_whole(1).spec_over(S::spec_whole((f * f) as i64)),
        );
    as_grid(
        plane_of(
            width,
            height,
            (|x: usize, y: usize| -> (v: S)
                requires
                    x < width,
                    y < height,
                ensures
                    v == g(x as int, y as int),
            {
                proof {
                    let (bx, by, w) = (width as int, height as int, s.w);
                    assert((y * f + f - 1) * w + x * f + f - 1 <= (by * f - 1) * w + bx * f - 1)
                        by (nonlinear_arith)
                        requires
                            x + 1 <= bx,
                            y + 1 <= by,
                            w >= 0,
                            f >= 1,
                    ;
                }
                block_sum(grid, x, y, factor).times(inv)
            }),
            Ghost(g),
        ),
    )
}

/// A view has no more pixels than its grid.
proof fn lemma_view_is_smaller(w: int, h: int, f: int)
    requires
        0 <= w,
        0 <= h,
        1 <= f,
        (larger(h / f, 1) * f - 1) * w + larger(w / f, 1) * f - 1 < w * h,
    ensures
        larger(w / f, 1) * larger(h / f, 1) <= w * h,
{
    let (a, b) = (larger(w / f, 1), larger(h / f, 1));
    assert(a <= a * f && b <= b * f) by (nonlinear_arith)
        requires
            1 <= a,
            1 <= b,
            1 <= f,
    ;
    assert((b * f - 1) * w + a * f >= 1) by (nonlinear_arith)
        requires
            b * f >= 1,
            a * f >= 1,
            w >= 0,
    ;
    assert(w >= 1 && h >= 1) by (nonlinear_arith)
        requires
            0 <= (b * f - 1) * w + a * f - 1 < w * h,
            0 <= w,
            0 <= h,
    ;
    assert(w / f <= w && h / f <= h) by (nonlinear_arith)
        requires
            1 <= f,
            0 <= w,
            0 <= h,
    ;
    assert(a * b <= w * h) by (nonlinear_arith)
        requires
            1 <= a <= w,
            1 <= b <= h,
    ;
}

/// The smallest of the first `n` samples.
pub open spec fn lowest_of<S: Sample>(data: Seq<S>, n: nat) -> S
    decreases n,
{
    if n <= 1 {
        data[0]
    } else {
        let low = lowest_of(data, (n - 1) as nat);
        if low.spec_exceeds(data[n - 1]) {
            data[n - 1]
        } else {
            low
        }
    }
}

/// The largest of the first `n` samples.
pub open spec fn highest_of<S: Sample>(data: Seq<S>, n: nat) -> S
    decreases n,
{
    if n <= 1 {
        data[0]
    } else {
        let high = highest_of(data, (n - 1) as nat);
        if data[n - 1].spec_exceeds(high) {
            data[n - 1]
        } else {
            high
        }
    }
}

/// A range too narrow to stretch: one part in a million million.
pub open spec fn flat_range<S: Sample>() -> S {
    S::spec_whole(1).spec_over(S::spec_whole(1_000_000_000_000))
}

/// A grid stretched to the range from zero to one, where it has a range to stretch.
pub open spec fn stretched<S: Sample>(data: Seq<S>) -> Seq<S> {
    let (low, high) = (lowest_of(data, data.len()), highest_of(data, data.len()));
    if data.len() > 0 && high.spec_minus(low).spec_exceeds(flat_range::<S>()) {
        data.map_values(|v: S| v.spec_minus(low).spec_over(high.spec_minus(low)))
    } else {
        data
    }
}

/// Rescale so that the image is visible whatever the input range.
pub fn stretch<S: Sample>(grid: &Grid<S>) -> (out: Grid<S>)
    ensures
        out.width == grid.width,
        out.height == grid.height,
        out.data@ == stretched(grid.data@),
{
    let n = grid.data.len();
    if n == 0 {
        return grid.copy();
    }
    let mut low = grid.data[0];
    let mut high = grid.data[0];
    let mut i: usize = 1;
    while i < n
        invariant
            1 <= i <= n,
            n == grid.data@.len(),
            low == lowest_of(grid.data@, i as nat),
            high == highest_of(grid.data@, i as nat),
        decreases n - i,
    {
        let v = grid.data[i];
        if low.exceeds(v) {
            low = v;
        }
        if v.exceeds(high) {
            high = v;
        }
        i += 1;
    }
    let range = high.minus(low);
    let flat = S::whole(1).over(S::whole(1_000_000_000_000));
    if !range.exceeds(flat) {
        return grid.copy();
    }
    let mut data: Vec<S> = Vec::with_capacity(n);
    let mut i: usize = 0;
    while i < n
        invariant
            i <= n,
            n == grid.data@.len(),
            data@.len() == i,
            forall|k: int|
                0 <= k < i ==> #[trigger] data@[k] == grid.data@[k].spec_minus(low).spec_over(
                    range,
                ),
        decreases n - i,
    {
        data.push(grid.data[i].minus(low).over(range));
        i += 1;
    }
    assert(data@ =~= stretched(grid.data@));
    Grid { width: grid.width, height: grid.height, data }
}

/// A grid as it is shown: brought down to size, and stretched to the visible range.
pub fn debug_view<S: Sample>(grid: &Grid<S>) -> (out: Grid<S>)
    requires
        viewable(grid@),
    ensures
        out@.w == viewed(grid@).w,
        out@.h == viewed(grid@).h,
        out@.data == stretched(viewed(grid@).data),
{
    stretch(&downsample_for_view(grid))
}

/// A target brought back onto the reference that a transform maps onto it.
pub open spec fn brought_onto<S: Sample>(target: Sheet<S>, transform: Transform<S>) -> Sheet<S> {
    moved(target, inverse_of(transform))
}

/// The two channels of an alignment overlay: the reference, and a target brought back onto
/// it. Where the two disagree one is bright and the other dark.
///
/// The transform maps the reference onto the target, so its inverse brings the target back.
pub fn alignment_views<S: Sample>(
    reference: &Grid<S>,
    target: &Grid<S>,
    transform: Transform<S>,
) -> (r: (Grid<S>, Grid<S>))
    requires
        viewable(reference@),
        viewable(target@),
    ensures
        r.0@.w == viewed(reference@).w,
        r.0@.h == viewed(reference@).h,
        r.0@.data == stretched(viewed(reference@).data),
        ({
            let aligned = brought_onto(target@, transform);
            &&& r.1@.w == viewed(aligned).w
            &&& r.1@.h == viewed(aligned).h
            &&& r.1@.data == stretched(viewed(aligned).data)
        }),
{
    let aligned = target.warped(transform.inverse());
    (debug_view(reference), debug_view(&aligned))
}

/// A view never has an edge longer than the longest a view may have.
pub proof fn lemma_view_fits<S: Sample>(s: Sheet<S>)
    requires
        s.w >= 0,
        s.h >= 0,
    ensures
        viewed(s).w <= MAX_EDGE,
        viewed(s).h <= MAX_EDGE,
{
    let f = view_factor(s.w, s.h);
    let longest = larger(s.w, s.h);
    assert(f * 1400 >= longest);
    if f > 1 {
        assert(s.w / f <= 1400) by (nonlinear_arith)
            requires
                f * 1400 >= s.w,
                f > 1,
                s.w >= 0,
        ;
        assert(s.h / f <= 1400) by (nonlinear_arith)
            requires
                f * 1400 >= s.h,
                f > 1,
                s.h >= 0,
        ;
    }
}

} // verus!
