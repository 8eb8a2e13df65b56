//! Laplacian-pyramid fusion.
//!
//! Burt & Kolczynski, *ICCV* 1993, 173-182. Each spatial-frequency band is decided on its
//! own, which is what stops the transitions between frames showing as seams.
//!
//! Frames are folded in one at a time, so the frame count stays out of the memory budget.

use vstd::prelude::*;
use crate::filter::{box_sum, box_sums};
use crate::image::{
    ceiling, clamped, coverage_of, covers, intersection, larger, reduced_by, Coverage, FrameInfo,
};
use crate::labels::UNBEATEN;
use crate::layout::{fill, image_of, lemma_column_and_row};
use crate::pipeline::Transform;
use crate::plane::{banded, bilinear, sample_band, source_of, source_point};
use crate::pyramid::{
    black, collapsed, collapsible, gaussian, gaussian_pyramid, laplacian, laplacian_pyramid,
    lemma_gaussian_size, level_count, levels_of, pictures, reconstruct, reduce, side, whole_picture,
    Bitmap, Picture,
};
use crate::sample::Sample;

verus! {

/// Which fusion rule to run, and every string that names it to a user.
#[derive(Debug, Clone, Copy, PartialEq, Eq, Structural)]
pub enum FusionKind {
    /// Per-level selection by windowed salience, over a window of this radius.
    Select { salience_radius: u32 },
    /// Weighted blend of every level under the refined weight maps.
    Blend,
}

/// What a user types for each rule.
pub open spec fn fusion_token(kind: FusionKind) -> Seq<char> {
    match kind {
        FusionKind::Select { .. } => "select"@,
        FusionKind::Blend => "blend"@,
    }
}

/// The rule a token names, with its default parameters.
pub open spec fn fusion_named(token: Seq<char>) -> Option<FusionKind> {
    if token == "select"@ {
        Some(crate::defaults::default_fusion())
    } else if token == "blend"@ {
        Some(FusionKind::Blend)
    } else {
        None
    }
}

impl FusionKind {
    /// Every rule, each with its default parameters.
    pub fn all() -> (r: [FusionKind; 2])
        ensures
            r@ == seq![crate::defaults::default_fusion(), FusionKind::Blend],
    {
        [crate::defaults::fusion(), FusionKind::Blend]
    }

    /// Accepted spellings, in the order of [`Self::all`].
    pub const TOKENS: [&'static str; 2] = ["select", "blend"];

    /// What a user types. Frozen: recorded runs cite it.
    pub fn token(self) -> (r: &'static str)
        ensures
            r@ == fusion_token(self),
    {
        match self {
            FusionKind::Select { .. } => "select",
            FusionKind::Blend => "blend",
        }
    }

    /// The rule a token names, with its default parameters.
    pub fn from_token(token: &str) -> (r: Option<Self>)
        ensures
            r == fusion_named(token@),
    {
        if crate::text::same(token, "select") {
            Some(FusionKind::Select { salience_radius: crate::defaults::SALIENCE_RADIUS })
        } else if crate::text::same(token, "blend") {
            Some(FusionKind::Blend)
        } else {
            None
        }
    }

    /// Replaces the radius on a rule that has one; the other rule has none to replace.
    pub fn with_salience_radius(self, radius: u32) -> (r: Self)
        ensures
            r == (match self {
                FusionKind::Select { .. } => FusionKind::Select { salience_radius: radius },
                FusionKind::Blend => FusionKind::Blend,
            }),
    {
        match self {
            FusionKind::Select { .. } => FusionKind::Select { salience_radius: radius },
            FusionKind::Blend => FusionKind::Blend,
        }
    }

    /// What a photographer reads in the interface.
    pub fn label(self) -> (r: &'static str)
        ensures
            r@ == (match self {
                FusionKind::Select { .. } => "Local"@,
                FusionKind::Blend => "Blend"@,
            }),
    {
        match self {
            FusionKind::Select { .. } => "Local",
            FusionKind::Blend => "Blend",
        }
    }

    /// One sentence on what the rule does to the photograph.
    pub fn summary(self) -> (r: &'static str)
        ensures
            r@ == (match self {
                FusionKind::Select { .. } =>
                    "Decides each point from its own neighbourhood, taking the sharpest source there. Preserves fine, thin detail, with slightly more grain in defocused background."@,
                FusionKind::Blend =>
                    "Averages the sources together. Smoother and quieter in the background, softer on fine detail — noticeably so on hair and antennae."@,
            }),
    {
        match self {
            FusionKind::Select { .. } =>
                "Decides each point from its own neighbourhood, taking the sharpest source there. Preserves fine, thin detail, with slightly more grain in defocused background.",
            FusionKind::Blend =>
                "Averages the sources together. Smoother and quieter in the background, softer on fine detail — noticeably so on hair and antennae.",
        }
    }

    pub fn is_select(self) -> (r: bool)
        ensures
            r == (self is Select),
    {
        match self {
            FusionKind::Select { .. } => true,
            FusionKind::Blend => false,
        }
    }
}

/// Every rule is found again by its own token, with its default parameters.
pub proof fn lemma_fusion_tokens_round_trip(kind: FusionKind)
    ensures
        fusion_named(fusion_token(kind)) == Some(
            match kind {
                FusionKind::Select { .. } => crate::defaults::default_fusion(),
                FusionKind::Blend => FusionKind::Blend,
            },
        ),
{
    reveal_strlit("select");
    reveal_strlit("blend");
    assert("select"@.len() == 6);
    assert("blend"@.len() == 5);
}

/// Output rows warped per read pass.
pub const WARP_CHUNK: u32 = 256;

/// The first source row that a chunk of output rows is read from.
///
/// Scale stretches the range as well as shifting it, so it is worked out per chunk.
pub open spec fn chunk_from<S: Sample>(t: Transform<S>, w: int, h: int, y0: int, rows: int) -> int {
    let a = source_point(t, w, h, 0, y0).1;
    let b = source_point(t, w, h, 0, y0 + rows - 1).1;
    let low = if a.spec_exceeds(b) {
        b
    } else {
        a
    };
    clamped(low.spec_floor().spec_index() - 1, 0, h - 1)
}

/// One past the last source row that a chunk of output rows is read from.
pub open spec fn chunk_to<S: Sample>(t: Transform<S>, w: int, h: int, y0: int, rows: int) -> int {
    let a = source_point(t, w, h, 0, y0).1;
    let b = source_point(t, w, h, 0, y0 + rows - 1).1;
    let high = if b.spec_exceeds(a) {
        b
    } else {
        a
    };
    larger(
        clamped(ceiling(high).spec_index() + 2, 1, h),
        chunk_from(t, w, h, y0, rows) + 1,
    )
}

fn clamp_row(v: i128, lo: u32, hi: u32) -> (r: u32)
    requires
        lo <= hi,
    ensures
        r == clamped(v as int, lo as int, hi as int),
{
    if v < lo as i128 {
        lo
    } else if v > hi as i128 {
        hi
    } else {
        v as u32
    }
}

/// The source rows that `rows` output rows from `y0` on are read from.
pub fn warp_span<S: Sample>(t: Transform<S>, info: FrameInfo, y0: u32, rows: u32) -> (r: (u32, u32))
    requires
        0 < rows,
        y0 + rows <= info.height,
    ensures
        r.0 == chunk_from(t, info.width as int, info.height as int, y0 as int, rows as int),
        r.1 == chunk_to(t, info.width as int, info.height as int, y0 as int, rows as int),
        r.0 < r.1 <= info.height,
{
    let a = source_of(t, info.width, info.height, 0, y0).1;
    let b = source_of(t, info.width, info.height, 0, y0 + (rows - 1)).1;
    let low = if a.exceeds(b) {
        b
    } else {
        a
    };
    let high = if b.exceeds(a) {
        b
    } else {
        a
    };
    let zero = S::whole(0);
    let up = zero.minus(zero.minus(high).floor());
    let from = clamp_row(low.floor().index() as i128 - 1, 0, info.height - 1);
    let to = clamp_row(up.index() as i128 + 2, 1, info.height);
    (
        from,
        if to > from {
            to
        } else {
            from + 1
        },
    )
}

/// One sample of a warped frame, read from a band of its rows.
pub open spec fn warped_texel<S: Sample>(
    t: Transform<S>,
    w: int,
    h: int,
    band: Seq<S>,
    from: int,
    count: int,
    x: int,
    y: int,
    ch: int,
) -> S {
    let (sx, sy) = source_point(t, w, h, x, y);
    bilinear(|ix: int, iy: int| banded(band, w, 3, from, count, ix, iy, ch), sx, sy)
}

/// Output rows `y0..y0 + rows` of a warped frame, from the band of source rows
/// `from..from + count`.
pub fn warp_rows<S: Sample>(
    t: Transform<S>,
    info: FrameInfo,
    band: &[S],
    from: u32,
    count: u32,
    y0: u32,
    rows: u32,
) -> (out: Vec<S>)
    requires
        info.width > 0,
        count > 0,
        y0 + rows <= info.height,
        band@.len() == info.width * 3 * count,
        info.width * rows * 3 <= usize::MAX,
    ensures
        out@ == image_of(
            info.width as int,
            rows as int,
            3,
            |x: int, y: int, ch: int|
                warped_texel(
                    t,
                    info.width as int,
                    info.height as int,
                    band@,
                    from as int,
                    count as int,
                    x,
                    y0 + y,
                    ch,
                ),
        ),
{
    let (w, h): (usize, usize) = (info.width as usize, rows as usize);
    let ghost g = |x: int, y: int, ch: int|
        warped_texel(
            t,
            info.width as int,
            info.height as int,
            band@,
            from as int,
            count as int,
            x,
            y0 + y,
            ch,
        );
    assert(band@.len() == band.len());
    assert(w * 3 <= w * 3 * count) by (nonlinear_arith)
        requires
            count > 0,
            0 <= w,
    ;
    let out = fill(
        w,
        h,
        3,
        (|x: usize, y: usize, ch: usize| -> (v: S)
            requires
                x < w,
                y < h,
                ch < 3,
            ensures
                v == g(x as int, y as int, ch as int),
        {
            let (sx, sy) = source_of(t, info.width, info.height, x as u32, y0 + y as u32);
            sample_band(band, w, 3, from, count as usize, sx, sy, ch)
        }),
        Ghost(g),
    );
    out
}

/// The energy of each pixel: the squares of its three channels, added.
pub open spec fn energies<S: Sample>(p: Picture<S>) -> Seq<S> {
    Seq::new(
        (p.w * p.h) as nat,
        |i: int|
            {
                let (a, b, c) = (p.data[3 * i], p.data[3 * i + 1], p.data[3 * i + 2]);
                a.spec_times(a).spec_plus(b.spec_times(b)).spec_plus(c.spec_times(c))
            },
    )
}

/// Windowed salience: the energy summed over a square window, joint across channels.
///
/// Not the magnitude at the pixel itself: the window makes an isolated spike lose to
/// genuine surrounding structure.
pub open spec fn salience<S: Sample>(p: Picture<S>, radius: int) -> Seq<S> {
    box_sums(energies(p), p.w, p.h, radius)
}

/// Does a frame take a pixel over? Only where it covers the pixel, and carries more
/// salience there than any frame before.
pub open spec fn takes_over<S: Sample>(
    best: Seq<S>,
    found: Seq<S>,
    covered: Coverage,
    w: int,
    i: int,
) -> bool {
    covers(covered, i % w, i / w) && found[i].spec_exceeds(best[i])
}

/// The best salience after a frame's turn.
pub open spec fn best_kept<S: Sample>(
    best: Seq<S>,
    found: Seq<S>,
    covered: Coverage,
    w: int,
) -> Seq<S> {
    Seq::new(
        best.len(),
        |i: int|
            if takes_over(best, found, covered, w, i) {
                found[i]
            } else {
                best[i]
            },
    )
}

/// A level after a frame's turn: a pixel that the frame takes over is the frame's, in all
/// three channels.
pub open spec fn level_kept<S: Sample>(
    dst: Seq<S>,
    best: Seq<S>,
    src: Seq<S>,
    found: Seq<S>,
    covered: Coverage,
    w: int,
) -> Seq<S> {
    Seq::new(
        dst.len(),
        |j: int|
            if takes_over(best, found, covered, w, j / 3) {
                src[j]
            } else {
                dst[j]
            },
    )
}

/// A three-channel level of a size, with one value for each of its pixels beside it.
pub open spec fn paired<S>(level: Picture<S>, beside: Seq<S>) -> bool {
    &&& whole_picture(level)
    &&& level.c == 3
    &&& level.w > 0
    &&& level.h > 0
    &&& beside.len() == level.w * level.h
}

fn energy_of<S: Sample>(src: &Bitmap<S>, n: usize) -> (out: Vec<S>)
    requires
        src.data@.len() == 3 * n,
        n == src.width * src.height,
    ensures
        out@ == energies(src@),
{
    assert(src.data@.len() == src.data.len());
    let mut out: Vec<S> = Vec::with_capacity(n);
    let mut i: usize = 0;
    while i < n
        invariant
            i <= n,
            n == src.width * src.height,
            src.data@.len() == 3 * n,
            3 * n <= usize::MAX,
            out@.len() == i,
            forall|k: int| 0 <= k < i ==> #[trigger] out@[k] == energies(src@)[k],
        decreases n - i,
    {
        let (a, b, c) = (src.data[3 * i], src.data[3 * i + 1], src.data[3 * i + 2]);
        out.push(a.times(a).plus(b.times(b)).plus(c.times(c)));
        i += 1;
    }
    assert(out@ =~= energies(src@));
    out
}

/// Overwrite `dst` wherever `src` carries more windowed salience, updating `best`.
///
/// `covered` restricts the frame to the region it could fill without sampling outside
/// itself: a replicated border carries real salience and would win wherever the true
/// content is smooth.
pub fn select_more_salient<S: Sample>(
    dst: &mut Bitmap<S>,
    best: &mut Vec<S>,
    src: &Bitmap<S>,
    radius: u32,
    covered: Coverage,
)
    requires
        paired(old(dst)@, old(best)@),
        paired(src@, old(best)@),
        src.width == old(dst).width,
        src.height == old(dst).height,
    ensures
        final(best)@ == best_kept(
            old(best)@,
            salience(src@, radius as int),
            covered,
            src.width as int,
        ),
        final(dst)@ == (Picture {
            data: level_kept(
                old(dst)@.data,
                old(best)@,
                src@.data,
                salience(src@, radius as int),
                covered,
                src.width as int,
            ),
            ..old(dst)@
        }),
        paired(final(dst)@, final(best)@),
        final(dst).width == old(dst).width,
        final(dst).height == old(dst).height,
{
    let ghost (d, b) = (dst.data@, best@);
    let ghost w = src.width as int;
    let n = best.len();
    assert(n * 3 == src.data@.len());
    let energy = energy_of(src, n);
    let found = box_sum(energy.as_slice(), src.width, src.height, radius);
    let ghost s = salience(src@, radius as int);
    let width: usize = src.width as usize;
    let mut i: usize = 0;
    assert(src.data@.len() == src.data.len());
    while i < n
        invariant
            i <= n,
            n == w * src.height,
            w == src.width,
            width == src.width,
            width > 0,
            3 * n <= usize::MAX,
            src.data@.len() == 3 * n,
            found@ == s,
            s.len() == n,
            b.len() == n,
            d.len() == 3 * n,
            best@.len() == n,
            dst.data@.len() == 3 * n,
            dst.width == old(dst).width,
            dst.height == old(dst).height,
            dst.channels == old(dst).channels,
            forall|k: int| 0 <= k < i ==> #[trigger] best@[k] == best_kept(b, s, covered, w)[k],
            forall|k: int| i <= k < n ==> #[trigger] best@[k] == b[k],
            forall|k: int|
                0 <= k < 3 * i ==> #[trigger] dst.data@[k] == level_kept(
                    d,
                    b,
                    src.data@,
                    s,
                    covered,
                    w,
                )[k],
            forall|k: int| 3 * i <= k < 3 * n ==> #[trigger] dst.data@[k] == d[k],
        decreases n - i,
    {
        proof {
            lemma_column_and_row(i as int, w, src.height as int);
        }
        let (x, y): (usize, usize) = (i % width, i / width);
        if covered.contains(x as u32, y as u32) && found[i].exceeds(best[i]) {
            best.set(i, found[i]);
            dst.data.set(3 * i, src.data[3 * i]);
            dst.data.set(3 * i + 1, src.data[3 * i + 1]);
            dst.data.set(3 * i + 2, src.data[3 * i + 2]);
        }
        i += 1;
    }
    assert(best@ =~= best_kept(b, s, covered, w));
    assert(dst.data@ =~= level_kept(d, b, src.data@, s, covered, w));
}

/// The weight applied after a frame's turn.
pub open spec fn weight_tallied<S: Sample>(
    tally: Seq<S>,
    weight: Seq<S>,
    covered: Coverage,
    w: int,
) -> Seq<S> {
    Seq::new(
        tally.len(),
        |i: int|
            if covers(covered, i % w, i / w) {
                tally[i].spec_plus(weight[i])
            } else {
                tally[i]
            },
    )
}

/// A level after a frame has been added to it under its weights, where it covers.
pub open spec fn level_added<S: Sample>(
    dst: Seq<S>,
    weight: Seq<S>,
    src: Seq<S>,
    covered: Coverage,
    w: int,
) -> Seq<S> {
    Seq::new(
        dst.len(),
        |j: int|
            if covers(covered, (j / 3) % w, (j / 3) / w) {
                dst[j].spec_plus(weight[j / 3].spec_times(src[j]))
            } else {
                dst[j]
            },
    )
}

/// Add `weight * src` into `dst` over the covered region, tallying the weight applied.
///
/// The tally is what lets the pixels that were skipped be corrected afterwards.
pub fn accumulate_weighted<S: Sample>(
    dst: &mut Bitmap<S>,
    tally: &mut Vec<S>,
    weight: &Bitmap<S>,
    src: &Bitmap<S>,
    covered: Coverage,
)
    requires
        paired(old(dst)@, old(tally)@),
        paired(src@, old(tally)@),
        src.width == old(dst).width,
        src.height == old(dst).height,
        weight.data@.len() == old(tally)@.len(),
    ensures
        final(tally)@ == weight_tallied(
            old(tally)@,
            weight.data@,
            covered,
            src.width as int,
        ),
        final(dst)@ == (Picture {
            data: level_added(
                old(dst)@.data,
                weight.data@,
                src@.data,
                covered,
                src.width as int,
            ),
            ..old(dst)@
        }),
        paired(final(dst)@, final(tally)@),
        final(dst).width == old(dst).width,
        final(dst).height == old(dst).height,
{
    let ghost (d, t) = (dst.data@, tally@);
    let ghost w = src.width as int;
    let n = tally.len();
    let width: usize = src.width as usize;
    let mut i: usize = 0;
    assert(src.data@.len() == src.data.len());
    while i < n
        invariant
            i <= n,
            n == w * src.height,
            w == src.width,
            width == src.width,
            width > 0,
            3 * n <= usize::MAX,
            src.data@.len() == 3 * n,
            weight.data@.len() == n,
            t.len() == n,
            d.len() == 3 * n,
            tally@.len() == n,
            dst.data@.len() == 3 * n,
            dst.width == old(dst).width,
            dst.height == old(dst).height,
            dst.channels == old(dst).channels,
            forall|k: int|
                0 <= k < i ==> #[trigger] tally@[k] == weight_tallied(
                    t,
                    weight.data@,
                    covered,
                    w,
                )[k],
            forall|k: int| i <= k < n ==> #[trigger] tally@[k] == t[k],
            forall|k: int|
                0 <= k < 3 * i ==> #[trigger] dst.data@[k] == level_added(
                    d,
                    weight.data@,
                    src.data@,
                    covered,
                    w,
                )[k],
            forall|k: int| 3 * i <= k < 3 * n ==> #[trigger] dst.data@[k] == d[k],
        decreases n - i,
    {
        proof {
            lemma_column_and_row(i as int, w, src.height as int);
        }
        let (x, y): (usize, usize) = (i % width, i / width);
        if covered.contains(x as u32, y as u32) {
            let share = weight.data[i];
            tally.set(i, tally[i].plus(share));
            dst.data.set(3 * i, dst.data[3 * i].plus(share.times(src.data[3 * i])));
            dst.data.set(3 * i + 1, dst.data[3 * i + 1].plus(share.times(src.data[3 * i + 1])));
            dst.data.set(3 * i + 2, dst.data[3 * i + 2].plus(share.times(src.data[3 * i + 2])));
        }
        i += 1;
    }
    assert(tally@ =~= weight_tallied(t, weight.data@, covered, w));
    assert(dst.data@ =~= level_added(d, weight.data@, src.data@, covered, w));
}

/// A level with the pixels that did not receive every frame's weight rescaled.
pub open spec fn level_rescaled<S: Sample>(
    dst: Seq<S>,
    tally: Seq<S>,
    every: Coverage,
    w: int,
) -> Seq<S> {
    Seq::new(
        dst.len(),
        |j: int|
            if !covers(every, (j / 3) % w, (j / 3) / w) && tally[j / 3].spec_exceeds(
                S::spec_whole(0),
            ) {
                dst[j].spec_over(tally[j / 3])
            } else {
                dst[j]
            },
    )
}

/// Rescale the pixels that did not receive every frame's weight, leaving the rest alone.
///
/// Where every frame contributed, the weights already sum to one up to rounding, and
/// dividing there would perturb pixels that no frame was skipped for. A pixel that no
/// frame covered is left as it is.
pub fn normalize_uncovered<S: Sample>(dst: &mut Bitmap<S>, tally: &[S], every: Coverage)
    requires
        paired(old(dst)@, tally@),
    ensures
        final(dst)@ == (Picture {
            data: level_rescaled(old(dst)@.data, tally@, every, old(dst).width as int),
            ..old(dst)@
        }),
        paired(final(dst)@, tally@),
        final(dst).width == old(dst).width,
        final(dst).height == old(dst).height,
{
    let ghost d = dst.data@;
    let ghost w = dst.width as int;
    let ghost h = dst.height as int;
    let n = tally.len();
    let width: usize = dst.width as usize;
    let zero = S::whole(0);
    let mut i: usize = 0;
    assert(dst.data@.len() == dst.data.len());
    while i < n
        invariant
            i <= n,
            n == w * h,
            w == width,
            0 < width <= u32::MAX,
            0 < h <= u32::MAX,
            3 * n <= usize::MAX,
            zero == S::spec_whole(0),
            tally@.len() == n,
            d.len() == 3 * n,
            dst.data@.len() == 3 * n,
            dst.width == old(dst).width,
            dst.height == old(dst).height,
            dst.channels == old(dst).channels,
            forall|k: int|
                0 <= k < 3 * i ==> #[trigger] dst.data@[k] == level_rescaled(
                    d,
                    tally@,
                    every,
                    w,
                )[k],
            forall|k: int| 3 * i <= k < 3 * n ==> #[trigger] dst.data@[k] == d[k],
        decreases n - i,
    {
        proof {
            lemma_column_and_row(i as int, w, h);
        }
        let (x, y): (usize, usize) = (i % width, i / width);
        if !every.contains(x as u32, y as u32) && tally[i].exceeds(zero) {
            let total = tally[i];
            dst.data.set(3 * i, dst.data[3 * i].over(total));
            dst.data.set(3 * i + 1, dst.data[3 * i + 1].over(total));
            dst.data.set(3 * i + 2, dst.data[3 * i + 2].over(total));
        }
        i += 1;
    }
    assert(dst.data@ =~= level_rescaled(d, tally@, every, w));
}

/// A frame cannot win a pixel outside the region it covers.
pub proof fn lemma_uncovered_pixels_are_kept<S: Sample>(
    dst: Seq<S>,
    best: Seq<S>,
    src: Seq<S>,
    found: Seq<S>,
    covered: Coverage,
    w: int,
    i: int,
)
    requires
        0 <= i < best.len(),
        dst.len() == 3 * best.len(),
        !covers(covered, i % w, i / w),
    ensures
        best_kept(best, found, covered, w)[i] == best[i],
        forall|ch: int|
            0 <= ch < 3 ==> #[trigger] level_kept(dst, best, src, found, covered, w)[3 * i + ch]
                == dst[3 * i + ch],
{
    assert forall|ch: int| 0 <= ch < 3 implies #[trigger] level_kept(
        dst,
        best,
        src,
        found,
        covered,
        w,
    )[3 * i + ch] == dst[3 * i + ch] by {
        assert((3 * i + ch) / 3 == i);
    }
}

/// Selection is joint across channels: a pixel is one frame's in all three channels, or
/// stays what it was in all three.
pub proof fn lemma_selection_is_joint<S: Sample>(
    dst: Seq<S>,
    best: Seq<S>,
    src: Seq<S>,
    found: Seq<S>,
    covered: Coverage,
    w: int,
    i: int,
)
    requires
        0 <= i < best.len(),
        dst.len() == 3 * best.len(),
    ensures
        (forall|ch: int|
            0 <= ch < 3 ==> #[trigger] level_kept(dst, best, src, found, covered, w)[3 * i + ch]
                == src[3 * i + ch]) || (forall|ch: int|
            0 <= ch < 3 ==> #[trigger] level_kept(dst, best, src, found, covered, w)[3 * i + ch]
                == dst[3 * i + ch]),
{
    assert forall|ch: int| 0 <= ch < 3 implies (#[trigger] level_kept(
        dst,
        best,
        src,
        found,
        covered,
        w,
    )[3 * i + ch]) == (if takes_over(best, found, covered, w, i) {
        src[3 * i + ch]
    } else {
        dst[3 * i + ch]
    }) by {
        assert((3 * i + ch) / 3 == i);
    }
}

/// Rescaling leaves every pixel that all frames cover exactly as it was.
pub proof fn lemma_fully_covered_pixels_are_not_rescaled<S: Sample>(
    dst: Seq<S>,
    tally: Seq<S>,
    every: Coverage,
    w: int,
    i: int,
)
    requires
        0 <= i < tally.len(),
        dst.len() == 3 * tally.len(),
        covers(every, i % w, i / w),
    ensures
        forall|ch: int|
            0 <= ch < 3 ==> #[trigger] level_rescaled(dst, tally, every, w)[3 * i + ch] == dst[3 * i
                + ch],
{
    assert forall|ch: int| 0 <= ch < 3 implies #[trigger] level_rescaled(
        dst,
        tally,
        every,
        w,
    )[3 * i + ch] == dst[3 * i + ch] by {
        assert((3 * i + ch) / 3 == i);
    }
}

/// The region that the first `n` frames all cover.
pub open spec fn all_cover<S: Sample>(ts: Seq<Transform<S>>, info: FrameInfo, n: nat) -> Coverage
    decreases n,
{
    if n == 0 {
        Coverage { x0: 0, y0: 0, x1: info.width, y1: info.height }
    } else {
        intersection(all_cover(ts, info, (n - 1) as nat), coverage_of(ts[n - 1], info))
    }
}

/// The region every frame in the stack covers, at pyramid level `level`.
pub fn every_frame_covers<S: Sample>(
    transforms: &[Transform<S>],
    info: FrameInfo,
    level: usize,
) -> (every: Coverage)
    ensures
        every == reduced_by(
            all_cover(transforms@, info, transforms@.len()),
            info.width as int,
            info.height as int,
            level as nat,
        ),
{
    let mut every = Coverage::full(info);
    let mut i: usize = 0;
    while i < transforms.len()
        invariant
            i <= transforms@.len(),
            every == all_cover(transforms@, info, i as nat),
        decreases transforms@.len() - i,
    {
        every = every.intersect(Coverage::of(transforms[i], info));
        i += 1;
    }
    reduce_coverage(every, info.width, info.height, level)
}

/// A region `levels` pyramid levels down.
pub fn reduce_coverage(c: Coverage, width: u32, height: u32, levels: usize) -> (r: Coverage)
    ensures
        r == reduced_by(c, width as int, height as int, levels as nat),
{
    let mut r = c;
    let mut w = width;
    let mut h = height;
    let mut left: usize = levels;
    while left > 0
        invariant
            left <= levels,
            reduced_by(r, w as int, h as int, left as nat) == reduced_by(
                c,
                width as int,
                height as int,
                levels as nat,
            ),
        decreases left,
    {
        r = r.reduced(w, h);
        w = crate::image::halved(w);
        h = crate::image::halved(h);
        left -= 1;
    }
    r
}

/// A pixel is where every frame contributed if and only if each frame covers it.
pub proof fn lemma_all_cover_is_every_frame<S: Sample>(
    ts: Seq<Transform<S>>,
    info: FrameInfo,
    n: nat,
    x: int,
    y: int,
)
    requires
        n <= ts.len(),
        0 <= x < info.width,
        0 <= y < info.height,
    ensures
        covers(all_cover(ts, info, n), x, y) <==> (forall|k: int|
            0 <= k < n ==> covers(coverage_of(#[trigger] ts[k], info), x, y)),
    decreases n,
{
    if n > 0 {
        let m = (n - 1) as nat;
        lemma_all_cover_is_every_frame(ts, info, m, x, y);
        let (a, b) = (all_cover(ts, info, m), coverage_of(ts[n - 1], info));
        crate::image::lemma_intersection_is_both(a, b, x, y);
        if covers(a, x, y) && covers(b, x, y) {
            assert forall|k: int| 0 <= k < n implies covers(
                coverage_of(#[trigger] ts[k], info),
                x,
                y,
            ) by {
                if k == n - 1 {
                }
            }
        }
    }
}

/// The size of a level of a frame's pyramid.
pub open spec fn level_shape<S>(p: Picture<S>, info: FrameInfo, level: nat) -> bool {
    p.w == side(info.width as int, level) && p.h == side(info.height as int, level)
}

/// A list of levels, each with one value for each of its pixels beside it.
pub open spec fn paired_levels<S>(
    levels: Seq<Bitmap<S>>,
    beside: Seq<Vec<S>>,
    info: FrameInfo,
) -> bool {
    &&& levels.len() == beside.len()
    &&& forall|l: int|
        0 <= l < levels.len() ==> paired((#[trigger] levels[l])@, beside[l]@) && level_shape(
            levels[l]@,
            info,
            l as nat,
        )
}

/// A frame's covered region at a level.
pub open spec fn covered_at<S: Sample>(t: Transform<S>, info: FrameInfo, level: nat) -> Coverage {
    reduced_by(coverage_of(t, info), info.width as int, info.height as int, level)
}

/// A level of the blend after a frame has been added to it.
pub open spec fn blended_level<S: Sample>(
    before: Picture<S>,
    warped: Picture<S>,
    weight: Picture<S>,
    t: Transform<S>,
    info: FrameInfo,
    levels: nat,
    level: nat,
) -> Picture<S> {
    Picture {
        data: level_added(
            before.data,
            gaussian(weight, level).data,
            laplacian(warped, levels, level).data,
            covered_at(t, info, level),
            before.w,
        ),
        ..before
    }
}

/// The weight tallied at a level after a frame has been added to it.
pub open spec fn blended_tally<S: Sample>(
    before: Seq<S>,
    weight: Picture<S>,
    t: Transform<S>,
    info: FrameInfo,
    level: nat,
) -> Seq<S> {
    weight_tallied(
        before,
        gaussian(weight, level).data,
        covered_at(t, info, level),
        side(info.width as int, level),
    )
}

/// A level with its margin rescaled.
pub open spec fn rescaled_level<S: Sample>(
    p: Picture<S>,
    tally: Seq<S>,
    every: Coverage,
    info: FrameInfo,
    level: nat,
) -> Picture<S> {
    Picture {
        data: level_rescaled(
            p.data,
            tally,
            reduced_by(every, info.width as int, info.height as int, level),
            p.w,
        ),
        ..p
    }
}

/// The multi-scale blend of a whole stack under per-frame weight maps, one frame at a
/// time.
pub struct LaplacianPyramidFusion<S> {
    pub info: FrameInfo,
    pub levels: usize,
    /// The blend so far, one band-pass level after another.
    pub accumulator: Vec<Bitmap<S>>,
    /// Weight applied so far, at each level.
    pub applied: Vec<Vec<S>>,
    /// The region that every frame so far covers.
    pub every: Coverage,
}

/// A frame whose pyramid can be built here.
pub open spec fn buildable(info: FrameInfo) -> bool {
    info.width > 0 && info.height > 0 && info.width * info.height * 3 <= usize::MAX
}

/// A warped frame and its weight map, of the stack's own size.
pub open spec fn fits_stack<S>(warped: Picture<S>, weight: Picture<S>, info: FrameInfo) -> bool {
    &&& whole_picture(warped)
    &&& warped.w == info.width
    &&& warped.h == info.height
    &&& warped.c == 3
    &&& whole_picture(weight)
    &&& weight.w == info.width
    &&& weight.h == info.height
    &&& weight.c == 1
}

pub(crate) fn zeros<S: Sample>(n: usize) -> (out: Vec<S>)
    ensures
        out@ == Seq::new(n as nat, |i: int| S::spec_whole(0)),
{
    filled_with(n, S::whole(0))
}

fn filled_with<S: Sample>(n: usize, v: S) -> (out: Vec<S>)
    ensures
        out@ == Seq::new(n as nat, |i: int| v),
{
    let mut out: Vec<S> = Vec::with_capacity(n);
    let mut i: usize = 0;
    while i < n
        invariant
            i <= n,
            out@.len() == i,
            forall|k: int| 0 <= k < i ==> #[trigger] out@[k] == v,
        decreases n - i,
    {
        out.push(v);
        i += 1;
    }
    assert(out@ =~= Seq::new(n as nat, |i: int| v));
    out
}

/// How many pixels a three-channel level has.
fn pixels<S: Sample>(b: &Bitmap<S>) -> (n: usize)
    requires
        whole_picture(b@),
        b.channels == 3,
    ensures
        n == b.width * b.height,
{
    assert(b.data@.len() == b.data.len());
    b.width as usize * b.height as usize
}

/// A black pyramid, and for each of its first `beside` levels a plane of one value.
fn seeded<S: Sample>(info: FrameInfo, levels: usize, beside: usize, v: S) -> (r: (
    Vec<Bitmap<S>>,
    Vec<Vec<S>>,
))
    requires
        buildable(info),
        levels >= 1,
        beside <= levels,
    ensures
        r.0@.len() == levels,
        r.1@.len() == beside,
        forall|l: int|
            0 <= l < levels ==> (#[trigger] r.0@[l])@ == gaussian(
                black::<S>(info.width as int, info.height as int, 3),
                l as nat,
            ) && level_shape(r.0@[l]@, info, l as nat) && whole_picture(r.0@[l]@) && r.0@[l]@.c == 3
                && r.0@[l]@.w > 0 && r.0@[l]@.h > 0,
        forall|l: int|
            0 <= l < beside ==> (#[trigger] r.1@[l])@ == Seq::new(
                (r.0@[l]@.w * r.0@[l]@.h) as nat,
                |i: int| v,
            ),
{
    assert(info.width * info.height <= info.width * info.height * 3) by (nonlinear_arith);
    let ghost base = black::<S>(info.width as int, info.height as int, 3);
    let seed: Bitmap<S> = Bitmap::new(info.width, info.height, 3);
    let pyramid = gaussian_pyramid(seed, levels);
    let mut planes: Vec<Vec<S>> = Vec::new();
    let mut l: usize = 0;
    proof {
        assert forall|l: int| 0 <= l < levels implies level_shape(
            (#[trigger] pyramid@[l])@,
            info,
            l as nat,
        ) && pyramid@[l]@.c == 3 by {
            lemma_gaussian_size(base, l as nat);
        }
    }
    while l < beside
        invariant
            l <= beside,
            beside <= levels,
            pyramid@.len() == levels,
            forall|k: int|
                0 <= k < levels ==> whole_picture((#[trigger] pyramid@[k])@) && pyramid@[k]@.c == 3,
            planes@.len() == l,
            forall|k: int|
                0 <= k < l ==> (#[trigger] planes@[k])@ == Seq::new(
                    (pyramid@[k]@.w * pyramid@[k]@.h) as nat,
                    |i: int| v,
                ),
        decreases beside - l,
    {
        let n = pixels(&pyramid[l]);
        planes.push(filled_with(n, v));
        l += 1;
    }
    (pyramid, planes)
}

/// A pyramid whose levels have the sizes of a frame's levels can be collapsed.
proof fn lemma_shaped_levels_collapse<S>(levels: Seq<Bitmap<S>>, info: FrameInfo)
    requires
        levels.len() > 0,
        forall|l: int|
            0 <= l < levels.len() ==> whole_picture((#[trigger] levels[l])@) && levels[l]@.c == 3
                && levels[l]@.w > 0 && levels[l]@.h > 0 && level_shape(levels[l]@, info, l as nat),
    ensures
        collapsible(pictures(levels).drop_last(), pictures(levels).last()),
{
    let all = pictures(levels);
    let bands = all.drop_last();
    assert(all.last() == levels[levels.len() - 1]@);
    assert forall|i: int| 0 <= i < bands.len() implies whole_picture(#[trigger] bands[i])
        && bands[i].c == all.last().c && bands[i].w > 0 && bands[i].h >= (if i + 1
        < bands.len() {
        bands[i + 1].h
    } else {
        all.last().h
    }) by {
        assert(bands[i] == levels[i]@);
        assert(levels[i + 1]@.h == side(info.height as int, (i + 1) as nat));
        if i + 1 < bands.len() {
            assert(bands[i + 1] == levels[i + 1]@);
        }
    }
}

impl<S: Sample> LaplacianPyramidFusion<S> {
    /// Every level has the size it has in a frame's pyramid, and a tally beside it.
    pub open spec fn well_formed(self) -> bool {
        &&& buildable(self.info)
        &&& self.levels >= 1
        &&& self.accumulator@.len() == self.levels
        &&& paired_levels(self.accumulator@, self.applied@, self.info)
    }

    /// A blend with no frame in it.
    pub fn new(info: FrameInfo, floor: u32) -> (r: Self)
        requires
            buildable(info),
        ensures
            r.well_formed(),
            r.info == info,
            r.levels == levels_of(info.width as int, info.height as int, floor as int),
            r.every == (Coverage { x0: 0, y0: 0, x1: info.width, y1: info.height }),
            forall|l: int|
                0 <= l < r.levels ==> (#[trigger] r.accumulator@[l])@ == gaussian(
                    black::<S>(info.width as int, info.height as int, 3),
                    l as nat,
                ),
            forall|l: int, i: int|
                0 <= l < r.levels && 0 <= i < r.applied@[l]@.len() ==> #[trigger] r.applied@[l]@[i]
                    == S::spec_whole(0),
    {
        let levels = level_count(info.width, info.height, floor);
        let (accumulator, applied) = seeded(info, levels, levels, S::whole(0));
        LaplacianPyramidFusion { info, levels, accumulator, applied, every: Coverage::full(info) }
    }

    /// Adds a frame, already warped into anchor coordinates, under its weight map.
    pub fn add_frame(&mut self, warped: Bitmap<S>, weight: Bitmap<S>, transform: Transform<S>)
        requires
            old(self).well_formed(),
            fits_stack(warped@, weight@, old(self).info),
        ensures
            final(self).well_formed(),
            final(self).info == old(self).info,
            final(self).levels == old(self).levels,
            final(self).every == intersection(
                old(self).every,
                coverage_of(transform, old(self).info),
            ),
            forall|l: int|
                0 <= l < old(self).levels ==> (#[trigger] final(self).accumulator@[l])@
                    == blended_level(
                    old(self).accumulator@[l]@,
                    warped@,
                    weight@,
                    transform,
                    old(self).info,
                    old(self).levels as nat,
                    l as nat,
                ),
            forall|l: int|
                0 <= l < old(self).levels ==> (#[trigger] final(self).applied@[l])@
                    == blended_tally(
                    old(self).applied@[l]@,
                    weight@,
                    transform,
                    old(self).info,
                    l as nat,
                ),
    {
        let ghost (picture, map) = (warped@, weight@);
        let info = self.info;
        let levels = self.levels;
        let bands = laplacian_pyramid(warped, levels);
        let maps = gaussian_pyramid(weight, levels);
        let covered = Coverage::of(transform, info);
        self.every = self.every.intersect(covered);
        let ghost before = *self;
        let mut l: usize = 0;
        while l < levels
            invariant
                l <= levels,
                levels == self.levels,
                before.well_formed(),
                before.levels == levels,
                before.info == info,
                self.info == info,
                self.every == before.every,
                covered == coverage_of(transform, info),
                self.well_formed(),
                fits_stack(picture, map, info),
                bands@.len() == levels,
                maps@.len() == levels,
                forall|k: int|
                    0 <= k < levels ==> (#[trigger] bands@[k])@ == laplacian(
                        picture,
                        levels as nat,
                        k as nat,
                    ) && whole_picture(bands@[k]@) && level_shape(bands@[k]@, info, k as nat)
                        && bands@[k]@.c == 3,
                forall|k: int|
                    0 <= k < levels ==> (#[trigger] maps@[k])@ == gaussian(map, k as nat)
                        && whole_picture(maps@[k]@),
                forall|k: int|
                    0 <= k < l ==> (#[trigger] self.accumulator@[k])@ == blended_level(
                        before.accumulator@[k]@,
                        picture,
                        map,
                        transform,
                        info,
                        levels as nat,
                        k as nat,
                    ),
                forall|k: int|
                    0 <= k < l ==> (#[trigger] self.applied@[k])@ == blended_tally(
                        before.applied@[k]@,
                        map,
                        transform,
                        info,
                        k as nat,
                    ),
                forall|k: int|
                    l <= k < levels ==> #[trigger] self.accumulator@[k] == before.accumulator@[k],
                forall|k: int|
                    l <= k < levels ==> #[trigger] self.applied@[k] == before.applied@[k],
            decreases levels - l,
        {
            let here = reduce_coverage(covered, info.width, info.height, l);
            proof {
                lemma_gaussian_size(map, l as nat);
                let a = self.accumulator@[l as int]@;
                assert(a == before.accumulator@[l as int]@);
                assert(paired(a, self.applied@[l as int]@));
                assert(bands@[l as int]@.w == a.w);
                assert(maps@[l as int]@.w * maps@[l as int]@.h * 1 == a.w * a.h);
            }
            accumulate_weighted(
                &mut self.accumulator[l],
                &mut self.applied[l],
                &maps[l],
                &bands[l],
                here,
            );
            l += 1;
        }
    }

    /// The fused image: the margin rescaled, and the pyramid collapsed.
    pub fn finish(self) -> (out: Bitmap<S>)
        requires
            self.well_formed(),
        ensures
            whole_picture(out@),
            out.width == self.info.width,
            out.height == self.info.height,
            out.channels == 3,
            ({
                let all = Seq::new(
                    self.levels as nat,
                    |l: int|
                        rescaled_level(
                            self.accumulator@[l]@,
                            self.applied@[l]@,
                            self.every,
                            self.info,
                            l as nat,
                        ),
                );
                out@ == collapsed(all.drop_last(), all.last())
            }),
    {
        let info = self.info;
        let levels = self.levels;
        let every = self.every;
        let applied = self.applied;
        let mut accumulator = self.accumulator;
        let ghost before = accumulator@;
        let mut l: usize = 0;
        while l < levels
            invariant
                l <= levels,
                levels >= 1,
                accumulator@.len() == levels,
                before.len() == levels,
                paired_levels(accumulator@, applied@, info),
                forall|k: int|
                    0 <= k < l ==> (#[trigger] accumulator@[k])@ == rescaled_level(
                        before[k]@,
                        applied@[k]@,
                        every,
                        info,
                        k as nat,
                    ),
                forall|k: int| l <= k < levels ==> #[trigger] accumulator@[k] == before[k],
            decreases levels - l,
        {
            let here = reduce_coverage(every, info.width, info.height, l);
            assert(paired(accumulator@[l as int]@, applied@[l as int]@));
            normalize_uncovered(&mut accumulator[l], applied[l].as_slice(), here);
            l += 1;
        }
        let ghost all = Seq::new(
            levels as nat,
            |l: int|
                rescaled_level(before[l]@, applied@[l]@, every, info, l as nat),
        );
        proof {
            lemma_shaped_levels_collapse(accumulator@, info);
            assert(pictures(accumulator@) =~= all);
            assert(level_shape(accumulator@[0]@, info, 0));
        }
        reconstruct(&accumulator)
    }
}

/// A band-pass level of a selection after a frame's turn.
pub open spec fn selected_level<S: Sample>(
    before: Picture<S>,
    best: Seq<S>,
    warped: Picture<S>,
    t: Transform<S>,
    info: FrameInfo,
    levels: nat,
    radius: int,
    level: nat,
) -> Picture<S> {
    let band = laplacian(warped, levels, level);
    Picture {
        data: level_kept(
            before.data,
            best,
            band.data,
            salience(band, radius),
            covered_at(t, info, level),
            band.w,
        ),
        ..before
    }
}

/// The best salience at a level after a frame's turn.
pub open spec fn selected_best<S: Sample>(
    best: Seq<S>,
    warped: Picture<S>,
    t: Transform<S>,
    info: FrameInfo,
    levels: nat,
    radius: int,
    level: nat,
) -> Seq<S> {
    let band = laplacian(warped, levels, level);
    best_kept(best, salience(band, radius), covered_at(t, info, level), band.w)
}

/// Per-level selection of a whole stack, one frame at a time.
///
/// The band-pass levels take a fresh decision at every level and position from the
/// coefficients themselves. The coarsest level has no contrast to select on and is
/// blended under the weight maps.
pub struct SelectionFusion<S> {
    pub info: FrameInfo,
    pub levels: usize,
    pub salience_radius: u32,
    /// The selection so far, one level after another; the last is the blended base.
    pub result: Vec<Bitmap<S>>,
    /// The best salience so far, at each band-pass level.
    pub best: Vec<Vec<S>>,
    /// Weight applied so far at the base.
    pub base_weight: Vec<S>,
    /// The region that every frame so far covers.
    pub every: Coverage,
}

impl<S: Sample> SelectionFusion<S> {
    /// Every level has the size it has in a frame's pyramid, and one value for each of its
    /// pixels beside it.
    pub open spec fn well_formed(self) -> bool {
        &&& buildable(self.info)
        &&& self.levels >= 1
        &&& self.result@.len() == self.levels
        &&& self.best@.len() == self.levels - 1
        &&& forall|l: int|
            0 <= l < self.levels ==> whole_picture((#[trigger] self.result@[l])@)
                && self.result@[l]@.c == 3 && self.result@[l]@.w > 0 && self.result@[l]@.h > 0
                && level_shape(self.result@[l]@, self.info, l as nat)
        &&& forall|l: int|
            0 <= l < self.levels - 1 ==> paired(self.result@[l]@, (#[trigger] self.best@[l])@)
        &&& paired(self.result@[self.levels - 1]@, self.base_weight@)
    }

    /// A selection with no frame in it. The best salience starts below any that a frame
    /// can have, so the first frame wins everywhere, however flat it is.
    pub fn new(info: FrameInfo, floor: u32, salience_radius: u32) -> (r: Self)
        requires
            buildable(info),
        ensures
            r.well_formed(),
            r.info == info,
            r.salience_radius == salience_radius,
            r.levels == levels_of(info.width as int, info.height as int, floor as int),
            r.every == (Coverage { x0: 0, y0: 0, x1: info.width, y1: info.height }),
            forall|l: int|
                0 <= l < r.levels ==> (#[trigger] r.result@[l])@ == gaussian(
                    black::<S>(info.width as int, info.height as int, 3),
                    l as nat,
                ),
            forall|l: int, i: int|
                0 <= l < r.levels - 1 && 0 <= i < r.best@[l]@.len() ==> #[trigger] r.best@[l]@[i]
                    == S::spec_whole(UNBEATEN),
            forall|i: int|
                0 <= i < r.base_weight@.len() ==> #[trigger] r.base_weight@[i] == S::spec_whole(0),
    {
        let levels = level_count(info.width, info.height, floor);
        let (result, best) = seeded(info, levels, levels - 1, S::whole(UNBEATEN));
        let base_weight = zeros(pixels(&result[levels - 1]));
        SelectionFusion {
            info,
            levels,
            salience_radius,
            result,
            best,
            base_weight,
            every: Coverage::full(info),
        }
    }

    /// Gives a frame, already warped into anchor coordinates, its turn.
    pub fn add_frame(&mut self, warped: Bitmap<S>, weight: Bitmap<S>, transform: Transform<S>)
        requires
            old(self).well_formed(),
            fits_stack(warped@, weight@, old(self).info),
        ensures
            final(self).well_formed(),
            final(self).info == old(self).info,
            final(self).levels == old(self).levels,
            final(self).salience_radius == old(self).salience_radius,
            final(self).every == intersection(
                old(self).every,
                coverage_of(transform, old(self).info),
            ),
            forall|l: int|
                0 <= l < old(self).levels - 1 ==> (#[trigger] final(self).result@[l])@
                    == selected_level(
                    old(self).result@[l]@,
                    old(self).best@[l]@,
                    warped@,
                    transform,
                    old(self).info,
                    old(self).levels as nat,
                    old(self).salience_radius as int,
                    l as nat,
                ),
            forall|l: int|
                0 <= l < old(self).levels - 1 ==> (#[trigger] final(self).best@[l])@
                    == selected_best(
                    old(self).best@[l]@,
                    warped@,
                    transform,
                    old(self).info,
                    old(self).levels as nat,
                    old(self).salience_radius as int,
                    l as nat,
                ),
            final(self).result@[old(self).levels - 1]@ == blended_level(
                old(self).result@[old(self).levels - 1]@,
                warped@,
                weight@,
                transform,
                old(self).info,
                old(self).levels as nat,
                (old(self).levels - 1) as nat,
            ),
            final(self).base_weight@ == blended_tally(
                old(self).base_weight@,
                weight@,
                transform,
                old(self).info,
                (old(self).levels - 1) as nat,
            ),
    {
        let ghost (picture, map) = (warped@, weight@);
        let info = self.info;
        let levels = self.levels;
        let radius = self.salience_radius;
        let bands = laplacian_pyramid(warped, levels);
        let covered = Coverage::of(transform, info);
        self.every = self.every.intersect(covered);
        let ghost before = *self;
        let mut l: usize = 0;
        while l < levels - 1
            invariant
                l <= levels - 1,
                levels == self.levels,
                radius == self.salience_radius,
                before.well_formed(),
                before.levels == levels,
                before.info == info,
                before.salience_radius == radius,
                self.info == info,
                self.every == before.every,
                self.base_weight == before.base_weight,
                covered == coverage_of(transform, info),
                self.well_formed(),
                bands@.len() == levels,
                forall|k: int|
                    0 <= k < levels ==> (#[trigger] bands@[k])@ == laplacian(
                        picture,
                        levels as nat,
                        k as nat,
                    ) && whole_picture(bands@[k]@) && level_shape(bands@[k]@, info, k as nat)
                        && bands@[k]@.c == 3,
                forall|k: int|
                    0 <= k < l ==> (#[trigger] self.result@[k])@ == selected_level(
                        before.result@[k]@,
                        before.best@[k]@,
                        picture,
                        transform,
                        info,
                        levels as nat,
                        radius as int,
                        k as nat,
                    ),
                forall|k: int|
                    0 <= k < l ==> (#[trigger] self.best@[k])@ == selected_best(
                        before.best@[k]@,
                        picture,
                        transform,
                        info,
                        levels as nat,
                        radius as int,
                        k as nat,
                    ),
                forall|k: int|
                    l <= k < levels ==> #[trigger] self.result@[k] == before.result@[k],
                forall|k: int|
                    l <= k < levels - 1 ==> #[trigger] self.best@[k] == before.best@[k],
            decreases levels - l,
        {
            let here = reduce_coverage(covered, info.width, info.height, l);
            proof {
                let a = self.result@[l as int]@;
                assert(a == before.result@[l as int]@);
                assert(paired(a, self.best@[l as int]@));
                assert(bands@[l as int]@.w == a.w);
            }
            select_more_salient(
                &mut self.result[l],
                &mut self.best[l],
                &bands[l],
                radius,
                here,
            );
            l += 1;
        }
        // Only the coarsest level of the weight map is needed, so the others are not kept.
        let base = levels - 1;
        let mut w = weight;
        let mut k: usize = 0;
        while k < base
            invariant
                k <= base,
                w@ == gaussian(map, k as nat),
                whole_picture(w@),
                w.width > 0,
                w.height > 0,
            decreases base - k,
        {
            w = reduce(&w);
            k += 1;
        }
        let here = reduce_coverage(covered, info.width, info.height, base);
        proof {
            lemma_gaussian_size(map, base as nat);
            let a = self.result@[base as int]@;
            assert(level_shape(a, info, base as nat));
            assert(w@.w * w@.h * 1 == a.w * a.h);
            assert(bands@[base as int]@.w == a.w);
        }
        accumulate_weighted(
            &mut self.result[base],
            &mut self.base_weight,
            &w,
            &bands[base],
            here,
        );
    }

    /// The fused image: the base's margin rescaled, and the pyramid collapsed.
    pub fn finish(self) -> (out: Bitmap<S>)
        requires
            self.well_formed(),
        ensures
            whole_picture(out@),
            out.width == self.info.width,
            out.height == self.info.height,
            out.channels == 3,
            ({
                let base = self.levels - 1;
                out@ == collapsed(
                    pictures(self.result@).take(base),
                    rescaled_level(
                        self.result@[base]@,
                        self.base_weight@,
                        self.every,
                        self.info,
                        base as nat,
                    ),
                )
            }),
    {
        let info = self.info;
        let base = self.levels - 1;
        let every = self.every;
        let base_weight = self.base_weight;
        let mut result = self.result;
        let ghost before = result@;
        let here = reduce_coverage(every, info.width, info.height, base);
        normalize_uncovered(&mut result[base], base_weight.as_slice(), here);
        proof {
            lemma_shaped_levels_collapse(result@, info);
            assert(pictures(result@).drop_last() =~= pictures(before).take(base as int));
            assert(pictures(result@).last() == result@[base as int]@);
            assert(level_shape(result@[0]@, info, 0));
        }
        reconstruct(&result)
    }
}

} // verus!
