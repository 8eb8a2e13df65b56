//! Wavelet-domain focus stacking over a registered stack.
//!
//! Consistency verification needs the whole label map before it can filter it, and the
//! filtered labels then point at coefficients of frames already read and dropped. So the
//! frames are decomposed twice: once to decide, once to gather. What is kept in between
//! does not grow with the number of frames.

use vstd::prelude::*;
use crate::filter::{box_sum, box_sums, lemma_windows_are_full, window_count};
use crate::image::{smaller, FrameInfo};
use crate::labels::{
    best_after, challenge, labels_after, settled_map, verify_consistency, UNBEATEN,
};
use crate::layout::{column, fill, image_of, lemma_place, lemma_place_of, row};
use crate::luma::{luma, luminance};
use crate::plane::{cell, plane_of, sheet, whole_sheet, Plane, Sheet};
use crate::pyramid::{level_count, levels_of, texel, whole_picture, Bitmap, Picture};
use crate::sample::{Fixed, Sample};
use crate::wavelet::{
    bands_of, forward, forward_approx, forward_bands, grids, grids_of, inverse, levels_fit,
    rebuilt, rebuilt_height, rebuilt_width, Bands, Decomposition, Details,
};

verus! {

/// One thing for each colour channel.
pub struct Channels<T> {
    pub red: T,
    pub green: T,
    pub blue: T,
}

/// One channel of a picture.
pub open spec fn channel_sheet<S>(p: Picture<S>, ch: int) -> Sheet<S> {
    sheet(p.w, p.h, |x: int, y: int| texel(p, x, y, ch))
}

fn channel_of<S: Sample>(p: &Bitmap<S>, ch: usize) -> (out: Plane<S>)
    requires
        whole_picture(p@),
        ch < p.channels,
        p.width * p.height <= usize::MAX,
    ensures
        out@ == channel_sheet(p@, ch as int),
        whole_sheet(out@),
{
    let (w, h, c): (usize, usize, usize) = (p.width as usize, p.height as usize, p.channels);
    let data = p.data.as_slice();
    let ghost q = p@;
    let ghost g = |x: int, y: int| texel(q, x, y, ch as int);
    assert(data@.len() == data.len());
    plane_of(
        p.width,
        p.height,
        (|x: usize, y: usize| -> (v: S)
            requires
                x < w,
                y < h,
            ensures
                v == g(x as int, y as int),
        {
            proof {
                crate::layout::lemma_sample(
                    x as int,
                    y as int,
                    ch as int,
                    w as int,
                    h as int,
                    c as int,
                );
                lemma_place(x as int, y as int, w as int, h as int);
                let i = y * w + x;
                assert(i <= i * c) by (nonlinear_arith)
                    requires
                        0 <= i,
                        1 <= c,
                ;
            }
            data[(y * w + x) * c + ch]
        }),
        Ghost(g),
    )
}

/// Wavelet-coefficient selection.
#[derive(Debug, Clone, Copy, PartialEq, Eq, Structural)]
pub struct WaveletStack {
    pub floor: u32,
    pub consistency_threshold: u32,
}

impl WaveletStack {
    pub fn new(floor: u32, consistency_threshold: u32) -> (r: Self)
        ensures
            r == (WaveletStack { floor, consistency_threshold }),
    {
        WaveletStack { floor, consistency_threshold }
    }

    /// Levels of detail: one fewer than a pyramid has levels, since its base is the
    /// approximation here.
    pub fn levels(&self, info: FrameInfo) -> (n: usize)
        ensures
            n == levels_of(info.width as int, info.height as int, self.floor as int) - 1,
    {
        level_count(info.width, info.height, self.floor) - 1
    }
}

/// A warped frame with each colour channel decomposed.
pub fn decompose<S: Sample>(warped: &Bitmap<S>, levels: usize) -> (r: Channels<Decomposition<S>>)
    requires
        whole_picture(warped@),
        warped.channels == 3,
        warped.width * warped.height <= usize::MAX,
    ensures
        decomposed(r.red, channel_sheet(warped@, 0), levels as nat),
        decomposed(r.green, channel_sheet(warped@, 1), levels as nat),
        decomposed(r.blue, channel_sheet(warped@, 2), levels as nat),
{
    let red = forward(&channel_of(warped, 0), levels);
    let green = forward(&channel_of(warped, 1), levels);
    let blue = forward(&channel_of(warped, 2), levels);
    Channels { red, green, blue }
}

/// A decomposition of a sheet.
pub open spec fn decomposed<S: Sample>(d: Decomposition<S>, s: Sheet<S>, levels: nat) -> bool {
    &&& bands_of(d) == forward_bands(s, levels)
    &&& d.approx@ == forward_approx(s, levels)
    &&& whole_sheet(d.approx@)
    &&& levels_fit(bands_of(d), d.approx@.w, d.approx@.h)
}

/// A subband read at a position of its level's label grid: an odd row or column shares
/// the last one.
pub open spec fn band_cell<S>(s: Sheet<S>, x: int, y: int) -> S {
    cell(s, shared(x, s.w), shared(y, s.h))
}

/// The row or column of a subband that a row or column of the grid is read at.
pub open spec fn shared(p: int, band: int) -> int {
    smaller(p, band - 1)
}

/// The luminance of the three channels' coefficients at a position of one orientation. The
/// transform is linear, so this is the coefficient of the luminance.
pub open spec fn luma_cell<S: Sample>(r: Sheet<S>, g: Sheet<S>, b: Sheet<S>, x: int, y: int) -> S {
    luminance(band_cell(r, x, y), band_cell(g, x, y), band_cell(b, x, y))
}

/// The energy at a position: that of the luminance, joint across the three orientations, so
/// that there is one decision for each position of each level.
pub open spec fn position_energy<S: Sample>(c: Channels<Bands<S>>, x: int, y: int) -> S {
    let p = luma_cell(c.red.hl, c.green.hl, c.blue.hl, x, y);
    let q = luma_cell(c.red.lh, c.green.lh, c.blue.lh, x, y);
    let r = luma_cell(c.red.hh, c.green.hh, c.blue.hh, x, y);
    p.spec_times(p).spec_plus(q.spec_times(q)).spec_plus(r.spec_times(r))
}

/// Windowed activity over a three-by-three window.
pub open spec fn activity_of<S: Sample>(c: Channels<Bands<S>>, gw: int, gh: int) -> Seq<S> {
    box_sums(
        image_of(gw, gh, 1, |x: int, y: int, ch: int| position_energy(c, x, y)),
        gw,
        gh,
        1,
    )
}

/// A subband with cells to read.
pub open spec fn readable<S>(s: Sheet<S>) -> bool {
    whole_sheet(s) && s.w > 0 && s.h > 0
}

/// Bands with cells to read, on a grid that holds them.
pub open spec fn on_grid<S>(b: Bands<S>, gw: int, gh: int) -> bool {
    &&& readable(b.hl)
    &&& readable(b.lh)
    &&& readable(b.hh)
    &&& b.hl.w <= gw
    &&& b.hl.h <= gh
    &&& b.lh.w <= gw
    &&& b.lh.h <= gh
    &&& b.hh.w <= gw
    &&& b.hh.h <= gh
}

fn band_at<S: Sample>(plane: &Plane<S>, x: usize, y: usize) -> (r: S)
    requires
        readable(plane@),
    ensures
        r == band_cell(plane@, x as int, y as int),
{
    let (w, h): (usize, usize) = (plane.width as usize, plane.height as usize);
    let cx = if x < w {
        x
    } else {
        w - 1
    };
    let cy = if y < h {
        y
    } else {
        h - 1
    };
    proof {
        lemma_place(cx as int, cy as int, w as int, h as int);
    }
    assert(plane.data@.len() == plane.data.len());
    plane.data[cy * w + cx]
}

fn luma_at<S: Sample>(r: &Plane<S>, g: &Plane<S>, b: &Plane<S>, x: usize, y: usize) -> (v: S)
    requires
        readable(r@),
        readable(g@),
        readable(b@),
    ensures
        v == luma_cell(r@, g@, b@, x as int, y as int),
{
    luma(band_at(r, x, y), band_at(g, x, y), band_at(b, x, y))
}

/// Local activity of the three detail orientations at one level, on luminance rather than
/// per channel: choosing a different frame for red than for green would read as colour
/// fringing on exactly the edges that this rule exists to sharpen.
pub fn activity<S: Sample>(
    red: &Details<S>,
    green: &Details<S>,
    blue: &Details<S>,
    grid: (u32, u32),
) -> (out: Vec<S>)
    requires
        grid.0 > 0,
        grid.1 > 0,
        grid.0 * grid.1 <= usize::MAX,
        on_grid(red@, grid.0 as int, grid.1 as int),
        on_grid(green@, grid.0 as int, grid.1 as int),
        on_grid(blue@, grid.0 as int, grid.1 as int),
    ensures
        out@ == activity_of(
            Channels { red: red@, green: green@, blue: blue@ },
            grid.0 as int,
            grid.1 as int,
        ),
        out@.len() == grid.0 * grid.1,
{
    let (gw, gh): (usize, usize) = (grid.0 as usize, grid.1 as usize);
    let ghost c = Channels { red: red@, green: green@, blue: blue@ };
    let ghost g = |x: int, y: int, ch: int| position_energy(c, x, y);
    assert(gw * 1 == gw && gw * gh * 1 == gw * gh) by (nonlinear_arith);
    assert(gw <= gw * gh) by (nonlinear_arith)
        requires
            gh >= 1,
    ;
    let energy = fill(
        gw,
        gh,
        1,
        (|x: usize, y: usize, ch: usize| -> (v: S)
            requires
                x < gw,
                y < gh,
            ensures
                v == g(x as int, y as int, ch as int),
        {
            let p = luma_at(&red.hl, &green.hl, &blue.hl, x, y);
            let q = luma_at(&red.lh, &green.lh, &blue.lh, x, y);
            let r = luma_at(&red.hh, &green.hh, &blue.hh, x, y);
            p.times(p).plus(q.times(q)).plus(r.times(r))
        }),
        Ghost(g),
    );
    box_sum(energy.as_slice(), grid.0, grid.1, 1)
}

/// Colour without luminance is no activity: where the luminance of every coefficient is
/// zero, so is the activity, however large the coefficients of each channel are.
pub proof fn lemma_colour_alone_is_no_activity(
    c: Channels<Bands<Fixed>>,
    gw: int,
    gh: int,
    i: int,
)
    requires
        0 < gw,
        0 < gh,
        0 <= i < gw * gh,
        forall|x: int, y: int|
            0 <= x < gw && 0 <= y < gh ==> #[trigger] luma_cell(
                c.red.hl,
                c.green.hl,
                c.blue.hl,
                x,
                y,
            ) == (Fixed { raw: 0 }),
        forall|x: int, y: int|
            0 <= x < gw && 0 <= y < gh ==> #[trigger] luma_cell(
                c.red.lh,
                c.green.lh,
                c.blue.lh,
                x,
                y,
            ) == (Fixed { raw: 0 }),
        forall|x: int, y: int|
            0 <= x < gw && 0 <= y < gh ==> #[trigger] luma_cell(
                c.red.hh,
                c.green.hh,
                c.blue.hh,
                x,
                y,
            ) == (Fixed { raw: 0 }),
    ensures
        activity_of(c, gw, gh)[i].raw == 0,
{
    let none = Fixed { raw: 0 };
    let energy = image_of(gw, gh, 1, |x: int, y: int, ch: int| position_energy(c, x, y));
    assert(gw * gh * 1 == gw * gh) by (nonlinear_arith);
    assert(none.raw * none.raw == 0) by (nonlinear_arith)
        requires
            none.raw == 0,
    ;
    assert(none.spec_times(none) == none && none.spec_plus(none) == none);
    assert forall|k: int| 0 <= k < gw * gh implies #[trigger] energy[k] == none by {
        lemma_place_of(k, gw, gh, 1);
        let (x, y) = (column(k, gw, 1), row(k, gw, 1));
        assert(luma_cell(c.red.hl, c.green.hl, c.blue.hl, x, y) == none);
        assert(luma_cell(c.red.lh, c.green.lh, c.blue.lh, x, y) == none);
        assert(luma_cell(c.red.hh, c.green.hh, c.blue.hh, x, y) == none);
    }
    lemma_windows_are_full(energy, none, gw, gh, 1, i);
    assert(window_count(1) * none.raw == 0);
}

/// The bands of one level of a frame.
pub open spec fn level_bands<S>(f: Channels<Decomposition<S>>, level: int) -> Channels<Bands<S>> {
    Channels {
        red: bands_of(f.red)[level],
        green: bands_of(f.green)[level],
        blue: bands_of(f.blue)[level],
    }
}

/// A channel's decomposition has a level for each grid, and the approximation that the
/// stack has.
pub open spec fn shaped<S>(
    d: Decomposition<S>,
    grid: Seq<(u32, u32)>,
    aw: int,
    ah: int,
) -> bool {
    &&& whole_sheet(d.approx@)
    &&& d.approx@.w == aw
    &&& d.approx@.h == ah
    &&& d.details@.len() == grid.len()
    &&& forall|l: int|
        0 <= l < grid.len() ==> on_grid(
            (#[trigger] bands_of(d)[l]),
            grid[l].0 as int,
            grid[l].1 as int,
        )
}

/// A frame of the stack.
pub open spec fn frame_shaped<S>(
    f: Channels<Decomposition<S>>,
    grid: Seq<(u32, u32)>,
    aw: int,
    ah: int,
) -> bool {
    shaped(f.red, grid, aw, ah) && shaped(f.green, grid, aw, ah) && shaped(f.blue, grid, aw, ah)
}

/// Two sheets of one size added, sample by sample.
pub open spec fn sheet_sum<S: Sample>(a: Sheet<S>, b: Sheet<S>) -> Sheet<S> {
    Sheet {
        data: Seq::new(a.data.len(), |i: int| a.data[i].spec_plus(b.data[i])),
        ..a
    }
}

/// A sheet with every sample scaled.
pub open spec fn sheet_scaled<S: Sample>(a: Sheet<S>, k: S) -> Sheet<S> {
    Sheet { data: Seq::new(a.data.len(), |i: int| a.data[i].spec_times(k)), ..a }
}

fn add_plane<S: Sample>(acc: &Plane<S>, v: &Plane<S>) -> (out: Plane<S>)
    requires
        acc.data@.len() == v.data@.len(),
    ensures
        out@ == sheet_sum(acc@, v@),
{
    let n = acc.data.len();
    let mut data: Vec<S> = Vec::with_capacity(n);
    let mut i: usize = 0;
    while i < n
        invariant
            i <= n,
            n == acc.data@.len(),
            n == v.data@.len(),
            data@.len() == i,
            forall|k: int| 0 <= k < i ==> #[trigger] data@[k] == acc.data@[k].spec_plus(v.data@[k]),
        decreases n - i,
    {
        data.push(acc.data[i].plus(v.data[i]));
        i += 1;
    }
    assert(data@ =~= sheet_sum(acc@, v@).data);
    Plane { width: acc.width, height: acc.height, data }
}

fn scale_plane<S: Sample>(p: &Plane<S>, k: S) -> (out: Plane<S>)
    ensures
        out@ == sheet_scaled(p@, k),
{
    let n = p.data.len();
    let mut data: Vec<S> = Vec::with_capacity(n);
    let mut i: usize = 0;
    while i < n
        invariant
            i <= n,
            n == p.data@.len(),
            data@.len() == i,
            forall|j: int| 0 <= j < i ==> #[trigger] data@[j] == p.data@[j].spec_times(k),
        decreases n - i,
    {
        data.push(p.data[i].times(k));
        i += 1;
    }
    assert(data@ =~= sheet_scaled(p@, k).data);
    Plane { width: p.width, height: p.height, data }
}

/// The first pass: which frame each coefficient is taken from, and the sum of the
/// approximations.
pub struct Selection<S> {
    /// The label grid of each level.
    pub grid: Vec<(u32, u32)>,
    /// The best activity so far.
    pub best: Vec<Vec<S>>,
    /// The frame that has it.
    pub labels: Vec<Vec<u16>>,
    /// The approximations so far, added.
    pub approx: Channels<Plane<S>>,
}

impl<S: Sample> Selection<S> {
    /// Each grid has one best value and one label for each of its positions, and the three
    /// sums are of one size.
    pub open spec fn well_formed(self) -> bool {
        &&& self.best@.len() == self.grid@.len()
        &&& self.labels@.len() == self.grid@.len()
        &&& forall|l: int|
            0 <= l < self.grid@.len() ==> {
                let g = #[trigger] self.grid@[l];
                &&& g.0 > 0
                &&& g.1 > 0
                &&& g.0 * g.1 <= usize::MAX
                &&& self.best@[l]@.len() == g.0 * g.1
                &&& self.labels@[l]@.len() == g.0 * g.1
            }
        &&& whole_sheet(self.approx.red@)
        &&& whole_sheet(self.approx.green@)
        &&& whole_sheet(self.approx.blue@)
        &&& self.approx.green@.w == self.approx.red@.w
        &&& self.approx.green@.h == self.approx.red@.h
        &&& self.approx.blue@.w == self.approx.red@.w
        &&& self.approx.blue@.h == self.approx.red@.h
    }

    /// A frame that this selection can consider.
    pub open spec fn takes(self, f: Channels<Decomposition<S>>) -> bool {
        frame_shaped(f, self.grid@, self.approx.red@.w, self.approx.red@.h)
    }

    /// A selection that has considered no frame.
    pub fn start(width: u32, height: u32, levels: usize) -> (r: Self)
        requires
            width > 0,
            height > 0,
            width * height <= usize::MAX,
        ensures
            r.well_formed(),
            r.grid@.map_values(|g: (u32, u32)| (g.0 as int, g.1 as int)) == grids_of(
                width as int,
                height as int,
                levels as nat,
            ),
            forall|l: int, i: int|
                0 <= l < r.grid@.len() && 0 <= i < r.best@[l]@.len() ==> #[trigger] r.best@[l]@[i]
                    == S::spec_whole(UNBEATEN),
            forall|l: int, i: int|
                0 <= l < r.grid@.len() && 0 <= i < r.labels@[l]@.len()
                    ==> #[trigger] r.labels@[l]@[i] == 0,
            forall|i: int|
                0 <= i < r.approx.red@.data.len() ==> #[trigger] r.approx.red@.data[i]
                    == S::spec_whole(0) && r.approx.green@.data[i] == S::spec_whole(0)
                    && r.approx.blue@.data[i] == S::spec_whole(0),
            (r.approx.red@.w, r.approx.red@.h) == (if r.grid@.len() == 0 {
                (width as int, height as int)
            } else {
                (r.grid@.last().0 as int, r.grid@.last().1 as int)
            }),
    {
        let grid = grids(width, height, levels);
        let ghost as_ints = |g: (u32, u32)| (g.0 as int, g.1 as int);
        proof {
            assert forall|l: int| 0 <= l < grid@.len() implies (#[trigger] grid@[l]).0 > 0
                && grid@[l].1 > 0 && grid@[l].0 * grid@[l].1 <= usize::MAX by {
                assert(grid@.map_values(as_ints)[l] == as_ints(grid@[l]));
                lemma_grid_bounds(width as int, height as int, levels as nat, l);
                let g = grid@[l];
                assert(g.0 * g.1 <= width * height) by (nonlinear_arith)
                    requires
                        0 <= g.0 <= width,
                        0 <= g.1 <= height,
                ;
            }
        }
        let mut best: Vec<Vec<S>> = Vec::new();
        let mut labels: Vec<Vec<u16>> = Vec::new();
        let seed = S::whole(UNBEATEN);
        let mut l: usize = 0;
        while l < grid.len()
            invariant
                l <= grid@.len(),
                best@.len() == l,
                labels@.len() == l,
                seed == S::spec_whole(UNBEATEN),
                forall|k: int|
                    0 <= k < grid@.len() ==> (#[trigger] grid@[k]).0 * grid@[k].1 <= usize::MAX,
                forall|k: int|
                    0 <= k < l ==> (#[trigger] best@[k])@.len() == grid@[k].0 * grid@[k].1,
                forall|k: int|
                    0 <= k < l ==> (#[trigger] labels@[k])@.len() == grid@[k].0 * grid@[k].1,
                forall|k: int, i: int|
                    0 <= k < l && 0 <= i < best@[k]@.len() ==> #[trigger] best@[k]@[i] == seed,
                forall|k: int, i: int|
                    0 <= k < l && 0 <= i < labels@[k]@.len() ==> #[trigger] labels@[k]@[i] == 0,
            decreases grid@.len() - l,
        {
            let (gw, gh) = grid[l];
            assert(grid@[l as int].0 * grid@[l as int].1 <= usize::MAX);
            let n: usize = gw as usize * gh as usize;
            let mut b: Vec<S> = Vec::with_capacity(n);
            let mut a: Vec<u16> = Vec::with_capacity(n);
            let mut i: usize = 0;
            while i < n
                invariant
                    i <= n,
                    b@.len() == i,
                    a@.len() == i,
                    forall|k: int| 0 <= k < i ==> #[trigger] b@[k] == seed,
                    forall|k: int| 0 <= k < i ==> #[trigger] a@[k] == 0,
                decreases n - i,
            {
                b.push(seed);
                a.push(0);
                i += 1;
            }
            best.push(b);
            labels.push(a);
            l += 1;
        }
        let (aw, ah): (u32, u32) = if grid.len() == 0 {
            (width, height)
        } else {
            grid[grid.len() - 1]
        };
        let approx = Channels {
            red: Plane::new(aw, ah),
            green: Plane::new(aw, ah),
            blue: Plane::new(aw, ah),
        };
        Selection { grid, best, labels, approx }
    }

    /// Gives a frame its turn at every coefficient, and adds its approximation.
    pub fn consider(&mut self, index: u16, frame: &Channels<Decomposition<S>>)
        requires
            old(self).well_formed(),
            old(self).takes(*frame),
        ensures
            final(self).well_formed(),
            final(self).grid == old(self).grid,
            forall|l: int|
                0 <= l < old(self).grid@.len() ==> (#[trigger] final(self).best@[l])@ == best_after(
                    old(self).best@[l]@,
                    activity_of(
                        level_bands(*frame, l),
                        old(self).grid@[l].0 as int,
                        old(self).grid@[l].1 as int,
                    ),
                ),
            forall|l: int|
                0 <= l < old(self).grid@.len() ==> (#[trigger] final(self).labels@[l])@
                    == labels_after(
                    old(self).best@[l]@,
                    old(self).labels@[l]@,
                    activity_of(
                        level_bands(*frame, l),
                        old(self).grid@[l].0 as int,
                        old(self).grid@[l].1 as int,
                    ),
                    index,
                ),
            final(self).approx.red@ == sheet_sum(old(self).approx.red@, frame.red.approx@),
            final(self).approx.green@ == sheet_sum(old(self).approx.green@, frame.green.approx@),
            final(self).approx.blue@ == sheet_sum(old(self).approx.blue@, frame.blue.approx@),
    {
        let ghost before = *self;
        let mut l: usize = 0;
        while l < self.grid.len()
            invariant
                l <= self.grid@.len(),
                before == *old(self),
                before.well_formed(),
                before.takes(*frame),
                self.well_formed(),
                self.grid == before.grid,
                self.approx == before.approx,
                forall|k: int|
                    0 <= k < l ==> (#[trigger] self.best@[k])@ == best_after(
                        before.best@[k]@,
                        activity_of(
                            level_bands(*frame, k),
                            before.grid@[k].0 as int,
                            before.grid@[k].1 as int,
                        ),
                    ),
                forall|k: int|
                    0 <= k < l ==> (#[trigger] self.labels@[k])@ == labels_after(
                        before.best@[k]@,
                        before.labels@[k]@,
                        activity_of(
                            level_bands(*frame, k),
                            before.grid@[k].0 as int,
                            before.grid@[k].1 as int,
                        ),
                        index,
                    ),
                forall|k: int|
                    l <= k < self.grid@.len() ==> #[trigger] self.best@[k] == before.best@[k],
                forall|k: int|
                    l <= k < self.grid@.len() ==> #[trigger] self.labels@[k] == before.labels@[k],
            decreases self.grid@.len() - l,
        {
            let dims = self.grid[l];
            proof {
                let k = l as int;
                assert(self.grid@[k] == dims);
                assert(bands_of(frame.red)[k] == frame.red.details@[k]@);
                assert(bands_of(frame.green)[k] == frame.green.details@[k]@);
                assert(bands_of(frame.blue)[k] == frame.blue.details@[k]@);
            }
            let a = activity(
                &frame.red.details[l],
                &frame.green.details[l],
                &frame.blue.details[l],
                dims,
            );
            challenge(&mut self.best[l], &mut self.labels[l], a.as_slice(), index);
            l += 1;
        }
        let red = add_plane(&self.approx.red, &frame.red.approx);
        let green = add_plane(&self.approx.green, &frame.green.approx);
        let blue = add_plane(&self.approx.blue, &frame.blue.approx);
        self.approx = Channels { red, green, blue };
    }

    /// Verifies the consistency of one level's labels. Returns how many changed.
    pub fn verify(&mut self, level: usize, threshold: u32) -> (changed: usize)
        requires
            old(self).well_formed(),
            level < old(self).grid@.len(),
        ensures
            final(self).well_formed(),
            final(self).grid == old(self).grid,
            final(self).best == old(self).best,
            final(self).approx == old(self).approx,
            final(self).labels@[level as int]@ == settled_map(
                old(self).labels@[level as int]@,
                old(self).grid@[level as int].0 as int,
                old(self).grid@[level as int].1 as int,
                threshold as int,
            ),
            forall|l: int|
                0 <= l < old(self).grid@.len() && l != level ==> #[trigger] final(self).labels@[l]
                    == old(self).labels@[l],
            changed == crate::labels::differences(
                old(self).labels@[level as int]@,
                final(self).labels@[level as int]@,
                old(self).labels@[level as int]@.len(),
            ),
    {
        let (gw, gh) = self.grid[level];
        assert(self.grid@[level as int] == (gw, gh));
        verify_consistency(&mut self.labels[level], gw, gh, threshold)
    }
}

/// Every grid is no larger than the frame, and has a position.
pub(crate) proof fn lemma_grid_bounds(w: int, h: int, levels: nat, l: int)
    requires
        w > 0,
        h > 0,
        0 <= l < grids_of(w, h, levels).len(),
    ensures
        0 < grids_of(w, h, levels)[l].0 <= w,
        0 < grids_of(w, h, levels)[l].1 <= h,
    decreases levels,
{
    if !(levels == 0 || w < 2 || h < 2) {
        if l > 0 {
            lemma_grid_bounds(
                crate::image::half_up(w),
                crate::image::half_up(h),
                (levels - 1) as nat,
                l - 1,
            );
        }
    }
}

/// Does a frame claim a cell of a subband? A cell belongs to every grid position that is
/// read at it.
pub open spec fn claimed(
    labels: Seq<u16>,
    gw: int,
    gh: int,
    bw: int,
    bh: int,
    cx: int,
    cy: int,
    index: u16,
) -> bool {
    exists|x: int, y: int|
        0 <= x < gw && 0 <= y < gh && shared(x, bw as int) == cx && shared(y, bh as int) == cy
            && #[trigger] labels[y * gw + x] == index
}

/// A subband after a frame's coefficients have been copied to the cells it claims.
pub open spec fn gathered<S>(
    to: Sheet<S>,
    from: Sheet<S>,
    labels: Seq<u16>,
    gw: int,
    gh: int,
    index: u16,
) -> Sheet<S> {
    sheet(
        to.w,
        to.h,
        |x: int, y: int|
            if claimed(labels, gw, gh, to.w, to.h, x, y, index) {
                cell(from, x, y)
            } else {
                cell(to, x, y)
            },
    )
}

/// The first and last grid positions along an axis that are read at a cell.
fn read_at(cell: usize, band: usize, grid: usize) -> (r: (usize, usize))
    requires
        cell < band <= grid,
    ensures
        r.0 == cell,
        r.0 <= r.1 < grid,
        forall|p: int| 0 <= p < grid ==> (#[trigger] shared(p, band as int) == cell <==> r.0 <= p <= r.1),
{
    if cell == band - 1 {
        (cell, grid - 1)
    } else {
        (cell, cell)
    }
}

fn is_claimed(
    labels: &[u16],
    gw: usize,
    gh: usize,
    bw: usize,
    bh: usize,
    cx: usize,
    cy: usize,
    index: u16,
) -> (r: bool)
    requires
        cx < bw <= gw,
        cy < bh <= gh,
        labels@.len() == gw * gh,
    ensures
        r == claimed(
            labels@,
            gw as int,
            gh as int,
            bw as int,
            bh as int,
            cx as int,
            cy as int,
            index,
        ),
{
    let (x0, x1) = read_at(cx, bw, gw);
    let (y0, y1) = read_at(cy, bh, gh);
    assert(labels@.len() == labels.len());
    let mut y: usize = y0;
    while y <= y1
        invariant
            y0 <= y <= y1 + 1,
            y1 < gh,
            x0 <= x1 < gw,
            labels@.len() == gw * gh,
            gw * gh <= usize::MAX,
            forall|p: int|
                0 <= p < gw ==> (#[trigger] shared(p, bw as int) == cx <==> x0 <= p <= x1),
            forall|p: int|
                0 <= p < gh ==> (#[trigger] shared(p, bh as int) == cy <==> y0 <= p <= y1),
            forall|u: int, v: int|
                x0 <= u <= x1 && y0 <= v < y ==> #[trigger] labels@[v * gw + u] != index,
        decreases y1 + 1 - y,
    {
        let mut x: usize = x0;
        while x <= x1
            invariant
                x0 <= x <= x1 + 1,
                y0 <= y <= y1,
                y1 < gh,
                x0 <= x1 < gw,
                labels@.len() == gw * gh,
                gw * gh <= usize::MAX,
                forall|p: int|
                    0 <= p < gw ==> (#[trigger] shared(p, bw as int) == cx <==> x0 <= p <= x1),
                forall|p: int|
                    0 <= p < gh ==> (#[trigger] shared(p, bh as int) == cy <==> y0 <= p <= y1),
                forall|u: int, v: int|
                    x0 <= u <= x1 && y0 <= v <= y && (v < y || u < x) ==> #[trigger] labels@[v * gw
                        + u] != index,
            decreases x1 + 1 - x,
        {
            proof {
                lemma_place(x as int, y as int, gw as int, gh as int);
            }
            if labels[y * gw + x] == index {
                assert(shared(x as int, bw as int) == cx && shared(y as int, bh as int) == cy);
                return true;
            }
            x += 1;
        }
        y += 1;
    }
    false
}

fn gather_band<S: Sample>(
    to: &Plane<S>,
    from: &Plane<S>,
    labels: &[u16],
    grid: (u32, u32),
    index: u16,
) -> (out: Plane<S>)
    requires
        readable(to@),
        readable(from@),
        to.width == from.width,
        to.height == from.height,
        to.width <= grid.0,
        to.height <= grid.1,
        labels@.len() == grid.0 * grid.1,
    ensures
        out@ == gathered(to@, from@, labels@, grid.0 as int, grid.1 as int, index),
        readable(out@),
{
    let (w, h): (usize, usize) = (to.width as usize, to.height as usize);
    let (gw, gh): (usize, usize) = (grid.0 as usize, grid.1 as usize);
    let ghost (a, b) = (to@, from@);
    let ghost g = |x: int, y: int|
        if claimed(labels@, gw as int, gh as int, a.w, a.h, x, y, index) {
            cell(b, x, y)
        } else {
            cell(a, x, y)
        };
    assert(to.data@.len() == to.data.len());
    plane_of(
        to.width,
        to.height,
        (|x: usize, y: usize| -> (v: S)
            requires
                x < w,
                y < h,
            ensures
                v == g(x as int, y as int),
        {
            proof {
                lemma_place(x as int, y as int, w as int, h as int);
            }
            if is_claimed(labels, gw, gh, w, h, x, y, index) {
                from.data[y * w + x]
            } else {
                to.data[y * w + x]
            }
        }),
        Ghost(g),
    )
}

/// One level's bands after a frame's coefficients have been copied to the cells it claims.
pub open spec fn gathered_bands<S>(
    to: Bands<S>,
    from: Bands<S>,
    labels: Seq<u16>,
    grid: (u32, u32),
    index: u16,
) -> Bands<S> {
    let (gw, gh) = (grid.0 as int, grid.1 as int);
    Bands {
        hl: gathered(to.hl, from.hl, labels, gw, gh, index),
        lh: gathered(to.lh, from.lh, labels, gw, gh, index),
        hh: gathered(to.hh, from.hh, labels, gw, gh, index),
    }
}

/// Two levels of the same sizes.
pub open spec fn same_size<S>(a: Bands<S>, b: Bands<S>) -> bool {
    &&& a.hl.w == b.hl.w
    &&& a.hl.h == b.hl.h
    &&& a.lh.w == b.lh.w
    &&& a.lh.h == b.lh.h
    &&& a.hh.w == b.hh.w
    &&& a.hh.h == b.hh.h
}

/// Whether levels fit around an approximation depends on their sizes alone.
pub proof fn lemma_fit_by_size<S>(a: Seq<Bands<S>>, b: Seq<Bands<S>>, aw: int, ah: int)
    requires
        a.len() == b.len(),
        levels_fit(a, aw, ah),
        forall|l: int|
            0 <= l < a.len() ==> same_size(#[trigger] a[l], b[l]) && whole_sheet(b[l].hl)
                && whole_sheet(b[l].lh) && whole_sheet(b[l].hh),
    ensures
        levels_fit(b, aw, ah),
        rebuilt_width(a, aw) == rebuilt_width(b, aw),
        rebuilt_height(a, ah) == rebuilt_height(b, ah),
    decreases a.len(),
{
    if a.len() > 0 {
        let n = a.len() - 1;
        assert(same_size(a[n], b[n]));
        assert forall|l: int| 0 <= l < n implies same_size(#[trigger] a.drop_last()[l], b.drop_last()[l])
            && whole_sheet(b.drop_last()[l].hl) && whole_sheet(b.drop_last()[l].lh)
            && whole_sheet(b.drop_last()[l].hh) by {
            assert(same_size(a[l], b[l]));
        }
        lemma_fit_by_size(a.drop_last(), b.drop_last(), aw + a[n].hl.w, ah + a[n].lh.h);
    }
}

/// The bands of a list of details.
pub open spec fn bands_in<S>(v: Seq<Details<S>>) -> Seq<Bands<S>> {
    v.map_values(|d: Details<S>| d@)
}

/// One channel of the second pass: the coefficients gathered so far, level by level.
pub open spec fn gatherable<S>(
    to: Seq<Bands<S>>,
    grid: Seq<(u32, u32)>,
    aw: int,
    ah: int,
) -> bool {
    &&& to.len() == grid.len()
    &&& levels_fit(to, aw, ah)
    &&& forall|l: int|
        0 <= l < grid.len() ==> on_grid(#[trigger] to[l], grid[l].0 as int, grid[l].1 as int)
}

/// The labels of every level, on their grids.
pub open spec fn labelled(labels: Seq<Vec<u16>>, grid: Seq<(u32, u32)>) -> bool {
    &&& labels.len() == grid.len()
    &&& forall|l: int|
        0 <= l < grid.len() ==> (#[trigger] labels[l])@.len() == grid[l].0 * grid[l].1
}

fn gather_channel<S: Sample>(
    to: &mut Vec<Details<S>>,
    from: &Decomposition<S>,
    labels: &Vec<Vec<u16>>,
    grid: &Vec<(u32, u32)>,
    index: u16,
    Ghost(aw): Ghost<int>,
    Ghost(ah): Ghost<int>,
)
    requires
        gatherable(bands_in(old(to)@), grid@, aw, ah),
        labelled(labels@, grid@),
        from.details@.len() == grid@.len(),
        forall|l: int|
            0 <= l < grid@.len() ==> same_size(
                bands_in(old(to)@)[l],
                #[trigger] bands_of(*from)[l],
            ) && on_grid(bands_of(*from)[l], grid@[l].0 as int, grid@[l].1 as int),
    ensures
        gatherable(bands_in(final(to)@), grid@, aw, ah),
        forall|l: int|
            0 <= l < grid@.len() ==> #[trigger] bands_in(final(to)@)[l] == gathered_bands(
                bands_in(old(to)@)[l],
                bands_of(*from)[l],
                labels@[l]@,
                grid@[l],
                index,
            ),
        forall|l: int|
            0 <= l < grid@.len() ==> same_size(
                bands_in(old(to)@)[l],
                #[trigger] bands_in(final(to)@)[l],
            ),
{
    let ghost before = bands_in(to@);
    let mut l: usize = 0;
    while l < grid.len()
        invariant
            l <= grid@.len(),
            to@.len() == grid@.len(),
            before.len() == grid@.len(),
            labelled(labels@, grid@),
            from.details@.len() == grid@.len(),
            forall|k: int|
                0 <= k < grid@.len() ==> same_size(before[k], #[trigger] bands_of(*from)[k])
                    && on_grid(bands_of(*from)[k], grid@[k].0 as int, grid@[k].1 as int) && on_grid(
                    before[k],
                    grid@[k].0 as int,
                    grid@[k].1 as int,
                ),
            forall|k: int|
                0 <= k < l ==> (#[trigger] to@[k])@ == gathered_bands(
                    before[k],
                    bands_of(*from)[k],
                    labels@[k]@,
                    grid@[k],
                    index,
                ) && same_size(before[k], to@[k]@) && on_grid(
                    to@[k]@,
                    grid@[k].0 as int,
                    grid@[k].1 as int,
                ),
            forall|k: int| l <= k < grid@.len() ==> (#[trigger] to@[k])@ == before[k],
        decreases grid@.len() - l,
    {
        let dims = grid[l];
        proof {
            assert(bands_of(*from)[l as int] == from.details@[l as int]@);
            assert(to@[l as int]@ == before[l as int]);
            assert(labels@[l as int]@.len() == dims.0 * dims.1);
        }
        let map = labels[l].as_slice();
        let (a, b) = (&to[l], &from.details[l]);
        let hl = gather_band(&a.hl, &b.hl, map, dims, index);
        let lh = gather_band(&a.lh, &b.lh, map, dims, index);
        let hh = gather_band(&a.hh, &b.hh, map, dims, index);
        to.set(l, Details { hl, lh, hh });
        l += 1;
    }
    proof {
        let after = bands_in(to@);
        assert forall|k: int| 0 <= k < grid@.len() implies #[trigger] after[k] == to@[k]@ by {}
        assert forall|k: int| 0 <= k < before.len() implies same_size(#[trigger] before[k], after[k])
            && whole_sheet(after[k].hl) && whole_sheet(after[k].lh) && whole_sheet(
            after[k].hh,
        ) by {
            assert(after[k] == to@[k]@);
        }
        lemma_fit_by_size(before, after, aw, ah);
    }
}

/// The second pass: the coefficients that the labels point at.
pub struct Gathering<S> {
    pub coefficients: Channels<Vec<Details<S>>>,
}

/// Bands that hold nothing but zeros.
pub open spec fn blank<S: Sample>(b: Bands<S>) -> bool {
    &&& forall|i: int| 0 <= i < b.hl.data.len() ==> #[trigger] b.hl.data[i] == S::spec_whole(0)
    &&& forall|i: int| 0 <= i < b.lh.data.len() ==> #[trigger] b.lh.data[i] == S::spec_whole(0)
    &&& forall|i: int| 0 <= i < b.hh.data.len() ==> #[trigger] b.hh.data[i] == S::spec_whole(0)
}

fn empty_like<S: Sample>(d: &Decomposition<S>) -> (out: Vec<Details<S>>)
    requires
        levels_fit(bands_of(*d), d.approx@.w, d.approx@.h),
        forall|l: int|
            0 <= l < d.details@.len() ==> whole_sheet((#[trigger] bands_of(*d)[l]).hl)
                && whole_sheet(bands_of(*d)[l].lh) && whole_sheet(bands_of(*d)[l].hh),
    ensures
        out@.len() == d.details@.len(),
        levels_fit(bands_in(out@), d.approx@.w, d.approx@.h),
        rebuilt_width(bands_in(out@), d.approx@.w) == rebuilt_width(bands_of(*d), d.approx@.w),
        rebuilt_height(bands_in(out@), d.approx@.h) == rebuilt_height(bands_of(*d), d.approx@.h),
        forall|l: int|
            0 <= l < out@.len() ==> same_size(bands_of(*d)[l], #[trigger] bands_in(out@)[l])
                && whole_sheet(bands_in(out@)[l].hl) && whole_sheet(bands_in(out@)[l].lh)
                && whole_sheet(bands_in(out@)[l].hh) && blank(bands_in(out@)[l]),
{
    let mut out: Vec<Details<S>> = Vec::new();
    let mut l: usize = 0;
    while l < d.details.len()
        invariant
            l <= d.details@.len(),
            out@.len() == l,
            forall|k: int|
                0 <= k < d.details@.len() ==> whole_sheet((#[trigger] bands_of(*d)[k]).hl)
                    && whole_sheet(bands_of(*d)[k].lh) && whole_sheet(bands_of(*d)[k].hh),
            forall|k: int|
                0 <= k < l ==> same_size(bands_of(*d)[k], (#[trigger] out@[k])@) && whole_sheet(
                    out@[k]@.hl,
                ) && whole_sheet(out@[k]@.lh) && whole_sheet(out@[k]@.hh) && blank(out@[k]@),
        decreases d.details@.len() - l,
    {
        let s = &d.details[l];
        proof {
            assert(bands_of(*d)[l as int] == s@);
        }
        assert(s.hl.data@.len() == s.hl.data.len() && s.lh.data@.len() == s.lh.data.len()
            && s.hh.data@.len() == s.hh.data.len());
        out.push(
            Details {
                hl: Plane::new(s.hl.width, s.hl.height),
                lh: Plane::new(s.lh.width, s.lh.height),
                hh: Plane::new(s.hh.width, s.hh.height),
            },
        );
        l += 1;
    }
    proof {
        let (a, b) = (bands_of(*d), bands_in(out@));
        assert forall|k: int| 0 <= k < a.len() implies same_size(#[trigger] a[k], b[k])
            && whole_sheet(b[k].hl) && whole_sheet(b[k].lh) && whole_sheet(b[k].hh) && blank(b[k]) by {
            assert(b[k] == out@[k]@);
        }
        lemma_fit_by_size(a, b, d.approx@.w, d.approx@.h);
    }
    out
}

/// The three channels of a gathering.
pub open spec fn gathering_fits<S>(
    g: Gathering<S>,
    grid: Seq<(u32, u32)>,
    aw: int,
    ah: int,
) -> bool {
    &&& gatherable(bands_in(g.coefficients.red@), grid, aw, ah)
    &&& gatherable(bands_in(g.coefficients.green@), grid, aw, ah)
    &&& gatherable(bands_in(g.coefficients.blue@), grid, aw, ah)
}

/// A frame whose bands have the sizes of those gathered.
pub open spec fn alike<S>(g: Gathering<S>, f: Channels<Decomposition<S>>) -> bool {
    &&& bands_in(g.coefficients.red@).len() == bands_of(f.red).len()
    &&& bands_in(g.coefficients.green@).len() == bands_of(f.green).len()
    &&& bands_in(g.coefficients.blue@).len() == bands_of(f.blue).len()
    &&& forall|l: int|
        0 <= l < bands_of(f.red).len() ==> same_size(
            bands_in(g.coefficients.red@)[l],
            #[trigger] bands_of(f.red)[l],
        )
    &&& forall|l: int|
        0 <= l < bands_of(f.green).len() ==> same_size(
            bands_in(g.coefficients.green@)[l],
            #[trigger] bands_of(f.green)[l],
        )
    &&& forall|l: int|
        0 <= l < bands_of(f.blue).len() ==> same_size(
            bands_in(g.coefficients.blue@)[l],
            #[trigger] bands_of(f.blue)[l],
        )
}

/// Each channel of a frame can be rebuilt.
pub open spec fn frame_fits<S>(f: Channels<Decomposition<S>>) -> bool {
    &&& levels_fit(bands_of(f.red), f.red.approx@.w, f.red.approx@.h)
    &&& levels_fit(bands_of(f.green), f.green.approx@.w, f.green.approx@.h)
    &&& levels_fit(bands_of(f.blue), f.blue.approx@.w, f.blue.approx@.h)
}

impl<S: Sample> Gathering<S> {
    /// Nothing gathered yet, in bands of the sizes that a frame's have.
    pub fn start(
        selection: &Selection<S>,
        frame: &Channels<Decomposition<S>>,
    ) -> (r: Self)
        requires
            selection.takes(*frame),
            frame_fits(*frame),
        ensures
            gathering_fits(
                r,
                selection.grid@,
                selection.approx.red@.w,
                selection.approx.red@.h,
            ),
            alike(r, *frame),
            forall|l: int|
                0 <= l < r.coefficients.red@.len() ==> blank(
                    #[trigger] bands_in(r.coefficients.red@)[l],
                ),
            forall|l: int|
                0 <= l < r.coefficients.green@.len() ==> blank(
                    #[trigger] bands_in(r.coefficients.green@)[l],
                ),
            forall|l: int|
                0 <= l < r.coefficients.blue@.len() ==> blank(
                    #[trigger] bands_in(r.coefficients.blue@)[l],
                ),
    {
        let red = empty_like(&frame.red);
        let green = empty_like(&frame.green);
        let blue = empty_like(&frame.blue);
        Gathering { coefficients: Channels { red, green, blue } }
    }

    /// Copies the coefficients that the labels take from this frame.
    pub fn gather(
        &mut self,
        selection: &Selection<S>,
        index: u16,
        frame: &Channels<Decomposition<S>>,
    )
        requires
            selection.well_formed(),
            selection.takes(*frame),
            gathering_fits(
                *old(self),
                selection.grid@,
                selection.approx.red@.w,
                selection.approx.red@.h,
            ),
            alike(*old(self), *frame),
        ensures
            gathering_fits(
                *final(self),
                selection.grid@,
                selection.approx.red@.w,
                selection.approx.red@.h,
            ),
            alike(*final(self), *frame),
            forall|l: int|
                0 <= l < selection.grid@.len() ==> #[trigger] bands_in(
                    final(self).coefficients.red@,
                )[l] == gathered_bands(
                    bands_in(old(self).coefficients.red@)[l],
                    bands_of(frame.red)[l],
                    selection.labels@[l]@,
                    selection.grid@[l],
                    index,
                ),
            forall|l: int|
                0 <= l < selection.grid@.len() ==> #[trigger] bands_in(
                    final(self).coefficients.green@,
                )[l] == gathered_bands(
                    bands_in(old(self).coefficients.green@)[l],
                    bands_of(frame.green)[l],
                    selection.labels@[l]@,
                    selection.grid@[l],
                    index,
                ),
            forall|l: int|
                0 <= l < selection.grid@.len() ==> #[trigger] bands_in(
                    final(self).coefficients.blue@,
                )[l] == gathered_bands(
                    bands_in(old(self).coefficients.blue@)[l],
                    bands_of(frame.blue)[l],
                    selection.labels@[l]@,
                    selection.grid@[l],
                    index,
                ),
    {
        let ghost (aw, ah) = (selection.approx.red@.w, selection.approx.red@.h);
        proof {
            assert forall|l: int| 0 <= l < selection.grid@.len() implies (
            #[trigger] selection.labels@[l])@.len() == selection.grid@[l].0
                * selection.grid@[l].1 by {
                let g = selection.grid@[l];
            }
        }
        gather_channel(
            &mut self.coefficients.red,
            &frame.red,
            &selection.labels,
            &selection.grid,
            index,
            Ghost(aw),
            Ghost(ah),
        );
        gather_channel(
            &mut self.coefficients.green,
            &frame.green,
            &selection.labels,
            &selection.grid,
            index,
            Ghost(aw),
            Ghost(ah),
        );
        gather_channel(
            &mut self.coefficients.blue,
            &frame.blue,
            &selection.labels,
            &selection.grid,
            index,
            Ghost(aw),
            Ghost(ah),
        );
    }
}

/// One over the number of frames.
pub open spec fn share_of<S: Sample>(frames: int) -> S {
    S::spec_whole(1).spec_over(S::spec_whole(frames as i64))
}

/// The stacked image: for each channel, the mean approximation with the gathered
/// coefficients rebuilt onto it.
pub fn finish<S: Sample>(
    selection: &Selection<S>,
    gathering: Gathering<S>,
    frames: u32,
) -> (out: Channels<Plane<S>>)
    requires
        selection.well_formed(),
        gathering_fits(
            gathering,
            selection.grid@,
            selection.approx.red@.w,
            selection.approx.red@.h,
        ),
    ensures
        whole_sheet(out.red@),
        whole_sheet(out.green@),
        whole_sheet(out.blue@),
        out.red@ == rebuilt(
            bands_in(gathering.coefficients.red@),
            sheet_scaled(selection.approx.red@, share_of::<S>(frames as int)),
        ),
        out.green@ == rebuilt(
            bands_in(gathering.coefficients.green@),
            sheet_scaled(selection.approx.green@, share_of::<S>(frames as int)),
        ),
        out.blue@ == rebuilt(
            bands_in(gathering.coefficients.blue@),
            sheet_scaled(selection.approx.blue@, share_of::<S>(frames as int)),
        ),
        out.red@.w == rebuilt_width(
            bands_in(gathering.coefficients.red@),
            selection.approx.red@.w,
        ),
        out.red@.h == rebuilt_height(
            bands_in(gathering.coefficients.red@),
            selection.approx.red@.h,
        ),
        out.green@.w == rebuilt_width(
            bands_in(gathering.coefficients.green@),
            selection.approx.red@.w,
        ),
        out.green@.h == rebuilt_height(
            bands_in(gathering.coefficients.green@),
            selection.approx.red@.h,
        ),
        out.blue@.w == rebuilt_width(
            bands_in(gathering.coefficients.blue@),
            selection.approx.red@.w,
        ),
        out.blue@.h == rebuilt_height(
            bands_in(gathering.coefficients.blue@),
            selection.approx.red@.h,
        ),
{
    let share = S::whole(1).over(S::whole(frames as i64));
    let coefficients = gathering.coefficients;
    let red = Decomposition {
        details: coefficients.red,
        approx: scale_plane(&selection.approx.red, share),
    };
    let green = Decomposition {
        details: coefficients.green,
        approx: scale_plane(&selection.approx.green, share),
    };
    let blue = Decomposition {
        details: coefficients.blue,
        approx: scale_plane(&selection.approx.blue, share),
    };
    proof {
        assert(bands_of(red) =~= bands_in(gathering.coefficients.red@));
        assert(bands_of(green) =~= bands_in(gathering.coefficients.green@));
        assert(bands_of(blue) =~= bands_in(gathering.coefficients.blue@));
    }
    Channels { red: inverse(&red), green: inverse(&green), blue: inverse(&blue) }
}

/// The sample of a channel, by its number.
pub open spec fn of_channel<S>(c: Channels<Sheet<S>>, ch: int, x: int, y: int) -> S {
    if ch == 0 {
        cell(c.red, x, y)
    } else if ch == 1 {
        cell(c.green, x, y)
    } else {
        cell(c.blue, x, y)
    }
}

/// The three channels as one picture, pixel by pixel.
pub fn interleave<S: Sample>(c: &Channels<Plane<S>>) -> (out: Bitmap<S>)
    requires
        whole_sheet(c.red@),
        whole_sheet(c.green@),
        whole_sheet(c.blue@),
        c.green@.w == c.red@.w,
        c.green@.h == c.red@.h,
        c.blue@.w == c.red@.w,
        c.blue@.h == c.red@.h,
        c.red@.w * 3 <= usize::MAX,
        c.red@.w * c.red@.h * 3 <= usize::MAX,
    ensures
        out.width == c.red@.w,
        out.height == c.red@.h,
        out.channels == 3,
        out.data@ == image_of(
            c.red@.w,
            c.red@.h,
            3,
            |x: int, y: int, ch: int|
                of_channel(Channels { red: c.red@, green: c.green@, blue: c.blue@ }, ch, x, y),
        ),
{
    let (w, h): (usize, usize) = (c.red.width as usize, c.red.height as usize);
    let ghost all = Channels { red: c.red@, green: c.green@, blue: c.blue@ };
    let ghost g = |x: int, y: int, ch: int| of_channel(all, ch, x, y);
    assert(c.red.data@.len() == c.red.data.len());
    let data = fill(
        w,
        h,
        3,
        (|x: usize, y: usize, ch: usize| -> (v: S)
            requires
                x < w,
                y < h,
                ch < 3,
            ensures
                v == g(x as int, y as int, ch as int),
        {
            proof {
                lemma_place(x as int, y as int, w as int, h as int);
            }
            let at = y * w + x;
            if ch == 0 {
                c.red.data[at]
            } else if ch == 1 {
                c.green.data[at]
            } else {
                c.blue.data[at]
            }
        }),
        Ghost(g),
    );
    Bitmap { width: c.red.width, height: c.red.height, channels: 3, data }
}

/// Which frame each coefficient was taken from, as a grey picture from black for the first
/// frame to white for the last.
pub fn label_map<S: Sample>(labels: &[u16], frames: usize) -> (out: Vec<S>)
    requires
        frames <= 0x1_0000,
    ensures
        out@ == Seq::new(
            labels@.len(),
            |i: int|
                S::spec_whole(labels@[i] as i64).spec_times(
                    S::spec_whole(1).spec_over(
                        S::spec_whole(crate::image::larger(frames - 1, 1) as i64),
                    ),
                ),
        ),
{
    let last: i64 = if frames > 2 {
        frames as i64 - 1
    } else {
        1
    };
    let scale = S::whole(1).over(S::whole(last));
    let mut out: Vec<S> = Vec::with_capacity(labels.len());
    let mut i: usize = 0;
    while i < labels.len()
        invariant
            i <= labels@.len(),
            out@.len() == i,
            forall|k: int|
                0 <= k < i ==> #[trigger] out@[k] == S::spec_whole(labels@[k] as i64).spec_times(
                    scale,
                ),
        decreases labels@.len() - i,
    {
        out.push(S::whole(labels[i] as i64).times(scale));
        i += 1;
    }
    out
}

/// A subband after the first `n` frames have been gathered in turn.
pub open spec fn gathered_through<S>(
    start: Sheet<S>,
    frames: spec_fn(int) -> Sheet<S>,
    labels: Seq<u16>,
    gw: int,
    gh: int,
    n: nat,
) -> Sheet<S>
    decreases n,
{
    if n == 0 {
        start
    } else {
        gathered(
            gathered_through(start, frames, labels, gw, gh, (n - 1) as nat),
            frames(n - 1),
            labels,
            gw,
            gh,
            (n - 1) as u16,
        )
    }
}

/// Every coefficient comes from the frame its label names: where a cell is read at one
/// grid position alone, gathering all the frames leaves it with that frame's coefficient.
pub proof fn lemma_coefficient_is_its_labels<S>(
    start: Sheet<S>,
    frames: spec_fn(int) -> Sheet<S>,
    labels: Seq<u16>,
    gw: int,
    gh: int,
    n: nat,
    x: int,
    y: int,
)
    requires
        whole_sheet(start),
        0 <= x < start.w,
        0 <= y < start.h,
        start.w <= gw,
        start.h <= gh,
        n <= 0xffff,
        x < start.w - 1 || start.w == gw,
        y < start.h - 1 || start.h == gh,
    ensures
        gathered_through(start, frames, labels, gw, gh, n).w == start.w,
        gathered_through(start, frames, labels, gw, gh, n).h == start.h,
        cell(gathered_through(start, frames, labels, gw, gh, n), x, y) == (if labels[y * gw + x]
            < n {
            cell(frames(labels[y * gw + x] as int), x, y)
        } else {
            cell(start, x, y)
        }),
    decreases n,
{
    if n > 0 {
        let m = (n - 1) as nat;
        let index = m as u16;
        let before = gathered_through(start, frames, labels, gw, gh, m);
        lemma_coefficient_is_its_labels(start, frames, labels, gw, gh, m, x, y);
        crate::plane::lemma_cell(
            before.w,
            before.h,
            |u: int, v: int|
                if claimed(labels, gw, gh, before.w, before.h, u, v, index) {
                    cell(frames(n - 1), u, v)
                } else {
                    cell(before, u, v)
                },
            x,
            y,
        );
        let held = labels[y * gw + x];
        if held == index {
            assert(shared(x, start.w) == x && shared(y, start.h) == y);
            assert(claimed(labels, gw, gh, start.w, start.h, x, y, index));
        } else {
            assert forall|u: int, v: int|
                0 <= u < gw && 0 <= v < gh && shared(u, start.w) == x && shared(v, start.h) == y implies #[trigger] labels[v * gw + u] != index by {
                assert(u == x && v == y);
            }
        }
    }
}

} // verus!
