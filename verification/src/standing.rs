//! Weights and salience count where they stand: what a pixel becomes is decided by what the
//! frames have at that pixel, in its own column and row.

use vstd::prelude::*;
use crate::drive::{best_level, blend_level, blend_tally, chosen_level, Shot};
use crate::fusion::{covered_at, level_added, level_kept, level_rescaled, weight_tallied};
use crate::image::{Coverage, FrameInfo};
use crate::layout::{lemma_place, lemma_sample};
use crate::pipeline::Transform;
use crate::pyramid::{black, laplacian, lemma_gaussian_size, lemma_side, side};
use crate::rounding::{bounded, lemma_part, lemma_sum, lemma_whole};
use crate::sample::{Fixed, Sample};

verus! {

/// Inside a region: in one of its columns, and in one of its rows.
pub open spec fn inside(c: Coverage, x: int, y: int) -> bool {
    c.x0 <= x < c.x1 && c.y0 <= y < c.y1
}

/// A frame is blended in under its weights where they stand: at a pixel inside the covered
/// region, with a weight between zero and one there, the level rises by that part of the
/// frame's own sample there, rounded down by less than a step; elsewhere it stays as it is.
#[verifier::spinoff_prover]
pub proof fn lemma_weights_count_where_they_stand(
    dst: Seq<Fixed>,
    weight: Seq<Fixed>,
    src: Seq<Fixed>,
    covered: Coverage,
    w: int,
    h: int,
    x: int,
    y: int,
    ch: int,
)
    requires
        dst.len() == w * h * 3,
        src.len() == w * h * 3,
        weight.len() == w * h,
        0 <= x < w,
        0 <= y < h,
        0 <= ch < 3,
        0 <= weight[y * w + x].raw <= 65536,
        bounded(src[(y * w + x) * 3 + ch], 0x1000_0000_0000_0000),
        bounded(dst[(y * w + x) * 3 + ch], 0x1000_0000_0000_0000),
    ensures
        ({
            let i = (y * w + x) * 3 + ch;
            let rise = level_added(dst, weight, src, covered, w)[i].raw - dst[i].raw;
            let all = weight[y * w + x].raw * src[i].raw;
            if inside(covered, x, y) {
                all - 65536 < 65536 * rise <= all
            } else {
                rise == 0
            }
        }),
{
    let i = (y * w + x) * 3 + ch;
    lemma_sample(x, y, ch, w, h, 3);
    lemma_place(x, y, w, h);
    assert(i / 3 == y * w + x);
    let (v, f) = (src[i], weight[y * w + x]);
    lemma_part(v, f, 0x1000_0000_0000_0000);
    lemma_sum(dst[i], f.spec_times(v));
    assert(v.raw * f.raw == f.raw * v.raw) by (nonlinear_arith);
}

/// The weight of a frame is tallied where it stands and where the frame covers.
pub proof fn lemma_weights_are_tallied_where_they_stand(
    tally: Seq<Fixed>,
    weight: Seq<Fixed>,
    covered: Coverage,
    w: int,
    h: int,
    x: int,
    y: int,
)
    requires
        tally.len() == w * h,
        weight.len() == w * h,
        0 <= x < w,
        0 <= y < h,
        i64::MIN <= tally[y * w + x].raw + weight[y * w + x].raw <= i64::MAX,
    ensures
        weight_tallied(tally, weight, covered, w)[y * w + x].raw - tally[y * w + x].raw == (
        if inside(covered, x, y) {
            weight[y * w + x].raw as int
        } else {
            0
        }),
{
    lemma_place(x, y, w, h);
    lemma_sum(tally[y * w + x], weight[y * w + x]);
}

/// A frame takes a pixel over where its salience stands out there, in all three channels at
/// once: the pixel is the frame's own where it covers the pixel and has more salience at it
/// than was found there before, and otherwise stays as it is.
pub proof fn lemma_salience_counts_where_it_stands(
    dst: Seq<Fixed>,
    best: Seq<Fixed>,
    src: Seq<Fixed>,
    found: Seq<Fixed>,
    covered: Coverage,
    w: int,
    h: int,
    x: int,
    y: int,
    ch: int,
)
    requires
        dst.len() == w * h * 3,
        src.len() == w * h * 3,
        best.len() == w * h,
        found.len() == w * h,
        0 <= x < w,
        0 <= y < h,
        0 <= ch < 3,
    ensures
        ({
            let i = (y * w + x) * 3 + ch;
            level_kept(dst, best, src, found, covered, w)[i] == (if inside(covered, x, y)
                && found[y * w + x].raw > best[y * w + x].raw {
                src[i]
            } else {
                dst[i]
            })
        }),
{
    let i = (y * w + x) * 3 + ch;
    lemma_sample(x, y, ch, w, h, 3);
    lemma_place(x, y, w, h);
    assert(i / 3 == y * w + x);
}

/// A pixel that some frame did not cover is brought back to a full weight where it stands: it
/// is what it was over the weight that was tallied there, rounded down to a step. A pixel that
/// every frame covered, or none gave weight to, stays as it is.
#[verifier::spinoff_prover]
pub proof fn lemma_margins_are_brought_back_to_full_weight(
    dst: Seq<Fixed>,
    tally: Seq<Fixed>,
    every: Coverage,
    w: int,
    h: int,
    x: int,
    y: int,
    ch: int,
)
    requires
        dst.len() == w * h * 3,
        tally.len() == w * h,
        0 <= x < w,
        0 <= y < h,
        0 <= ch < 3,
        bounded(dst[(y * w + x) * 3 + ch], 0x4000_0000_0000),
    ensures
        ({
            let i = (y * w + x) * 3 + ch;
            let (was, t) = (dst[i].raw as int, tally[y * w + x].raw as int);
            let is = level_rescaled(dst, tally, every, w)[i].raw as int;
            if !inside(every, x, y) && t > 0 {
                was * 65536 - t < is * t <= was * 65536
            } else {
                is == was
            }
        }),
{
    let i = (y * w + x) * 3 + ch;
    lemma_sample(x, y, ch, w, h, 3);
    lemma_place(x, y, w, h);
    assert(i / 3 == y * w + x);
    lemma_whole(0);
    let (was, t) = (dst[i].raw as int, tally[y * w + x].raw as int);
    if t > 0 {
        let q = (was * 65536) / t;
        vstd::arithmetic::div_mod::lemma_fundamental_div_mod(was * 65536, t);
        vstd::arithmetic::div_mod::lemma_mod_bound(was * 65536, t);
        assert(q * t == t * q) by (nonlinear_arith);
        assert(-0x4000_0000_0000_0000 <= q <= 0x4000_0000_0000_0000) by (nonlinear_arith)
            requires
                was * 65536 == t * q + (was * 65536) % t,
                0 <= (was * 65536) % t < t,
                0 < t,
                -0x4000_0000_0000_0000 <= was * 65536 <= 0x4000_0000_0000_0000,
        ;
        assert(dst[i].spec_over(tally[y * w + x]).raw == q);
    }
}

/// The size of a level of a stack's blend, and of its selection.
proof fn lemma_level_size(
    shots: Seq<Shot<Fixed>>,
    ts: Seq<Transform<Fixed>>,
    info: FrameInfo,
    levels: nat,
    radius: int,
    level: nat,
    n: nat,
)
    requires
        info.width > 0,
        info.height > 0,
    ensures
        ({
            let (w, h) = (side(info.width as int, level), side(info.height as int, level));
            let blend = blend_level(shots, ts, info, levels, level, n);
            let chosen = chosen_level(shots, ts, info, levels, radius, level, n);
            &&& 1 <= w
            &&& 1 <= h
            &&& blend.w == w
            &&& blend.data.len() == w * h * 3
            &&& chosen.w == w
            &&& chosen.data.len() == w * h * 3
            &&& blend_tally(shots, ts, info, level, n).len() == w * h
            &&& best_level(shots, ts, info, levels, radius, level, n).len() == w * h
        }),
    decreases n,
{
    let (w, h) = (side(info.width as int, level), side(info.height as int, level));
    if n == 0 {
        let blank = black::<Fixed>(info.width as int, info.height as int, 3);
        assert(0 <= info.width * info.height * 3) by (nonlinear_arith);
        lemma_gaussian_size(blank, level);
        lemma_side(info.width as int, level);
        lemma_side(info.height as int, level);
        assert(0 <= w * h) by (nonlinear_arith)
            requires
                1 <= w,
                1 <= h,
        ;
    } else {
        lemma_level_size(shots, ts, info, levels, radius, level, (n - 1) as nat);
    }
}

/// A frame counts where its own transform lets it: at a pixel outside the region that the
/// transform of frame `m` covers at a level, that frame's turn changes nothing, in the blend
/// and its tally, and in the selection and its best salience.
pub proof fn lemma_a_frame_leaves_what_it_does_not_cover(
    shots: Seq<Shot<Fixed>>,
    ts: Seq<Transform<Fixed>>,
    info: FrameInfo,
    levels: nat,
    radius: int,
    level: nat,
    m: nat,
    x: int,
    y: int,
    ch: int,
)
    requires
        info.width > 0,
        info.height > 0,
        m < shots.len(),
        m < ts.len(),
        0 <= x < side(info.width as int, level),
        0 <= y < side(info.height as int, level),
        0 <= ch < 3,
        !inside(covered_at(ts[m as int], info, level), x, y),
        laplacian(shots[m as int].warped, levels, level).w == side(info.width as int, level),
    ensures
        ({
            let at = y * side(info.width as int, level) + x;
            let i = at * 3 + ch;
            &&& blend_level(shots, ts, info, levels, level, m + 1).data[i] == blend_level(
                shots,
                ts,
                info,
                levels,
                level,
                m,
            ).data[i]
            &&& blend_tally(shots, ts, info, level, m + 1)[at] == blend_tally(
                shots,
                ts,
                info,
                level,
                m,
            )[at]
            &&& chosen_level(shots, ts, info, levels, radius, level, m + 1).data[i] == chosen_level(
                shots,
                ts,
                info,
                levels,
                radius,
                level,
                m,
            ).data[i]
            &&& best_level(shots, ts, info, levels, radius, level, m + 1)[at] == best_level(
                shots,
                ts,
                info,
                levels,
                radius,
                level,
                m,
            )[at]
        }),
{
    let (w, h) = (side(info.width as int, level), side(info.height as int, level));
    lemma_level_size(shots, ts, info, levels, radius, level, m);
    lemma_sample(x, y, ch, w, h, 3);
    lemma_place(x, y, w, h);
    let i = (y * w + x) * 3 + ch;
    assert(i / 3 == y * w + x);
}

} // verus!
