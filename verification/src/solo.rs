//! Stacks that come down to one of their frames.

use vstd::prelude::*;
use crate::drive::{
    best_level, blend_level, blend_of, chosen_level, final_level, selection_of, Shot,
};
use crate::fusion::{
    all_cover, best_kept, blended_level, covered_at, fits_stack, level_added, level_kept, salience,
    takes_over,
};
use crate::image::{
    clamped, covers, covers_all, half_up, lemma_full_survives_reduction,
    lemma_identity_covers_the_frame, reduced_by, reduction, Coverage, FrameInfo,
};
use crate::labels::{leading, neighbours, offset_x, offset_y, settled_map, UNBEATEN};
use crate::layout::{
    channel, column, lemma_column_and_row, lemma_place, lemma_place_of, lemma_sample, row,
};
use crate::near::{
    all_close, all_small, close, grown, lemma_grown_less, lemma_rebuilding_stays_close, small,
};
use crate::pipeline::{identity_of, Transform};
use crate::plane::{
    cell, lemma_cell, lemma_same_sheet, lemma_sheet_size, sheet, whole_sheet, Sheet,
};
use crate::pyramid::{
    black, even, gaussian, laplacian, laplacian_levels, lemma_gaussian_size,
    lemma_pyramid_reconstructs, lemma_reducing_a_constant_preserves_it, lemma_side, levels_of,
    side, texel, Picture,
};
use crate::sample::{Exact, Fixed, Sample};
use crate::stacking::{
    channel_sheet, claimed, gathered, lemma_grid_bounds, same_size, share_of, sheet_scaled,
};
use crate::wavelet::{
    forward_approx, forward_bands, grids_of, lemma_decomposition_can_be_rebuilt,
    lemma_grids_agree_with_the_decomposition, lemma_transform_is_reversible, rebuilt,
};
use crate::wavelet_run::{
    approx_run, best_run, blank_level, blank_sheet, collected, decided, energies, fits, labels_run,
    lemma_approx_size,
    lemma_channel_is_sized, lemma_fitting_bands_are_whole, stack_of, stacked_channel,
};

verus! {

/// Where every label is the same, none changes.
proof fn lemma_agreement_is_settled(labels: Seq<u16>, w: int, h: int, threshold: int, label: u16)
    requires
        0 < w,
        0 < h,
        labels.len() == w * h,
        forall|k: int| 0 <= k < w * h ==> #[trigger] labels[k] == label,
    ensures
        settled_map(labels, w, h, threshold) == labels,
{
    assert forall|i: int| 0 <= i < labels.len() implies settled_map(labels, w, h, threshold)[i]
        == labels[i] by {
        lemma_column_and_row(i, w, h);
        let (x, y) = (i % w, i / w);
        let ns = neighbours(labels, w, h, x, y);
        assert forall|k: int| 0 <= k < 8 implies #[trigger] ns[k] == label by {
            lemma_place(
                clamped(x + offset_x(k), 0, w - 1),
                clamped(y + offset_y(k), 0, h - 1),
                w,
                h,
            );
        }
        lemma_leader_is_one_of_them(ns, 8);
        assert(ns[leading(ns, 8)] == label);
        assert(labels[y * w + x] == label);
    }
    assert(settled_map(labels, w, h, threshold) =~= labels);
}

proof fn lemma_leader_is_one_of_them(ns: Seq<u16>, k: nat)
    requires
        k >= 1,
    ensures
        0 <= leading(ns, k) < k,
    decreases k,
{
    if k > 1 {
        lemma_leader_is_one_of_them(ns, (k - 1) as nat);
    }
}

/// A subband that one frame claims all of is that frame's.
proof fn lemma_claimed_by_all<S: Sample>(
    to: Sheet<S>,
    from: Sheet<S>,
    labels: Seq<u16>,
    gw: int,
    gh: int,
    index: u16,
)
    requires
        to.w == from.w,
        to.h == from.h,
        whole_sheet(from),
        to.w <= gw,
        to.h <= gh,
        labels.len() == gw * gh,
        forall|k: int| 0 <= k < gw * gh ==> #[trigger] labels[k] == index,
    ensures
        gathered(to, from, labels, gw, gh, index) == from,
{
    let f = |x: int, y: int|
        if claimed(labels, gw, gh, to.w, to.h, x, y, index) {
            cell(from, x, y)
        } else {
            cell(to, x, y)
        };
    let out = sheet(to.w, to.h, f);
    lemma_sheet_size(to.w, to.h, f);
    assert(gathered(to, from, labels, gw, gh, index) == out);
    assert forall|x: int, y: int| 0 <= x < out.w && 0 <= y < out.h implies #[trigger] cell(out, x, y)
        == cell(from, x, y) by {
        lemma_cell(to.w, to.h, f, x, y);
        lemma_place(x, y, gw, gh);
        assert(labels[y * gw + x] == index);
        assert(claimed(labels, gw, gh, to.w, to.h, x, y, index));
    }
    lemma_same_sheet(out, from);
}

/// A subband that a frame claims nothing of stays as it is.
proof fn lemma_claimed_by_none<S: Sample>(
    to: Sheet<S>,
    from: Sheet<S>,
    labels: Seq<u16>,
    gw: int,
    gh: int,
    index: u16,
)
    requires
        whole_sheet(to),
        0 <= gw,
        0 <= gh,
        forall|k: int| 0 <= k < gw * gh ==> #[trigger] labels[k] != index,
    ensures
        gathered(to, from, labels, gw, gh, index) == to,
{
    let f = |x: int, y: int|
        if claimed(labels, gw, gh, to.w, to.h, x, y, index) {
            cell(from, x, y)
        } else {
            cell(to, x, y)
        };
    let out = sheet(to.w, to.h, f);
    lemma_sheet_size(to.w, to.h, f);
    assert forall|x: int, y: int| 0 <= x < out.w && 0 <= y < out.h implies #[trigger] cell(out, x, y)
        == cell(to, x, y) by {
        lemma_cell(to.w, to.h, f, x, y);
        assert(!claimed(labels, gw, gh, to.w, to.h, x, y, index)) by {
            assert forall|u: int, v: int| 0 <= u < gw && 0 <= v < gh implies #[trigger] labels[v * gw
                + u] != index by {
                lemma_place(u, v, gw, gh);
            }
        }
    }
    lemma_same_sheet(out, to);
}

/// `n` copies of a picture.
pub open spec fn copies(p: Picture<Fixed>, n: nat) -> Seq<Picture<Fixed>> {
    Seq::new(n, |i: int| p)
}

/// Copies are level with each other, and the first of equals keeps its place: every
/// coefficient is the first frame's.
proof fn lemma_first_copy_is_chosen(
    p: Picture<Fixed>,
    n: nat,
    levels: nat,
    l: int,
    g: (int, int),
    m: nat,
)
    requires
        m <= n,
        0 < g.0,
        0 < g.1,
    ensures
        labels_run(copies(p, n), levels, l, g, m).len() == g.0 * g.1,
        best_run(copies(p, n), levels, l, g, m).len() == g.0 * g.1,
        forall|i: int|
            0 <= i < g.0 * g.1 ==> #[trigger] labels_run(copies(p, n), levels, l, g, m)[i] == 0u16,
        m > 0 ==> forall|i: int|
            0 <= i < g.0 * g.1 ==> !energies(p, levels, l, g)[i].spec_exceeds(
                #[trigger] best_run(copies(p, n), levels, l, g, m)[i],
            ),
    decreases m,
{
    assert(0 < g.0 * g.1) by (nonlinear_arith)
        requires
            0 < g.0,
            0 < g.1,
    ;
    if m > 0 {
        lemma_first_copy_is_chosen(p, n, levels, l, g, (m - 1) as nat);
        assert(copies(p, n)[m - 1] == p);
        let e = energies(p, levels, l, g);
        let before = best_run(copies(p, n), levels, l, g, (m - 1) as nat);
        let after = best_run(copies(p, n), levels, l, g, m);
        let labels = labels_run(copies(p, n), levels, l, g, m);
        assert forall|i: int| 0 <= i < g.0 * g.1 implies !e[i].spec_exceeds(
            #[trigger] after[i],
        ) by {}
        assert forall|i: int| 0 <= i < g.0 * g.1 implies #[trigger] labels[i] == 0u16 by {
            if m > 1 {
                assert(!e[i].spec_exceeds(before[i]));
            }
        }
    }
}

/// A level gathered from copies is the copy's own.
proof fn lemma_copies_are_gathered(
    p: Picture<Fixed>,
    info: FrameInfo,
    n: nat,
    levels: nat,
    ch: int,
    l: int,
    g: (int, int),
    labels: Seq<u16>,
    m: nat,
)
    requires
        fits(p, info),
        info.width > 0,
        info.height > 0,
        info.width * info.height <= usize::MAX,
        0 <= ch < 3,
        0 < m <= n <= 0x1_0000,
        0 <= l < grids_of(info.width as int, info.height as int, levels).len(),
        g == grids_of(info.width as int, info.height as int, levels)[l],
        labels.len() == g.0 * g.1,
        forall|k: int| 0 <= k < g.0 * g.1 ==> #[trigger] labels[k] == 0u16,
    ensures
        collected(copies(p, n), labels, info, levels, ch, l, g, m) == forward_bands(
            channel_sheet(p, ch),
            levels,
        )[l],
    decreases m,
{
    let s = channel_sheet(p, ch);
    let (w, h) = (info.width as int, info.height as int);
    let all = forward_bands(s, levels);
    lemma_sheet_size(p.w, p.h, |x: int, y: int| texel(p, x, y, ch));
    lemma_decomposition_can_be_rebuilt(s, levels);
    lemma_grids_agree_with_the_decomposition(s, levels);
    lemma_channel_is_sized(p, info, levels, ch);
    lemma_grid_bounds(w, h, levels, l);
    lemma_fitting_bands_are_whole(
        all,
        forward_approx(s, levels).w,
        forward_approx(s, levels).h,
        l,
    );
    assert(copies(p, n)[m - 1] == p);
    if m == 1 {
        reveal_with_fuel(collected, 2);
        let blank = blank_level::<Fixed>(info, levels, l);
        assert(same_size(all[l], forward_bands(blank_sheet::<Fixed>(w, h), levels)[l]));
        lemma_claimed_by_all(blank.hl, all[l].hl, labels, g.0, g.1, 0u16);
        lemma_claimed_by_all(blank.lh, all[l].lh, labels, g.0, g.1, 0u16);
        lemma_claimed_by_all(blank.hh, all[l].hh, labels, g.0, g.1, 0u16);
    } else {
        lemma_copies_are_gathered(p, info, n, levels, ch, l, g, labels, (m - 1) as nat);
        let index = (m - 1) as u16;
        assert(index != 0);
        lemma_claimed_by_none(all[l].hl, all[l].hl, labels, g.0, g.1, index);
        lemma_claimed_by_none(all[l].lh, all[l].lh, labels, g.0, g.1, index);
        lemma_claimed_by_none(all[l].hh, all[l].hh, labels, g.0, g.1, index);
    }
}

/// The approximations of copies add up to a multiple of one.
proof fn lemma_copies_add_up(
    p: Picture<Fixed>,
    info: FrameInfo,
    n: nat,
    levels: nat,
    ch: int,
    m: nat,
)
    requires
        fits(p, info),
        info.width > 0,
        info.height > 0,
        info.width * info.height <= usize::MAX,
        m <= n,
        room_for(forward_approx(channel_sheet(p, ch), levels), n as int),
    ensures
        ({
            let approx = forward_approx(channel_sheet(p, ch), levels);
            let sum = approx_run(copies(p, n), info, levels, ch, m);
            &&& sum.w == approx.w && sum.h == approx.h
            &&& sum.data.len() == approx.data.len()
            &&& forall|i: int|
                0 <= i < approx.data.len() ==> #[trigger] sum.data[i].raw == m * approx.data[i].raw
        }),
    decreases m,
{
    let s = channel_sheet(p, ch);
    let approx = forward_approx(s, levels);
    lemma_sheet_size(p.w, p.h, |x: int, y: int| texel(p, x, y, ch));
    lemma_decomposition_can_be_rebuilt(s, levels);
    lemma_approx_size(s, levels);
    let sum = approx_run(copies(p, n), info, levels, ch, m);
    if m == 0 {
        assert(Fixed::spec_whole(0).raw == 0);
        assert forall|i: int| 0 <= i < approx.data.len() implies #[trigger] sum.data[i].raw == m
            * approx.data[i].raw by {
            assert(0 * approx.data[i].raw == 0) by (nonlinear_arith);
        }
    } else {
        let k = (m - 1) as nat;
        lemma_copies_add_up(p, info, n, levels, ch, k);
        assert(copies(p, n)[m - 1] == p);
        let before = approx_run(copies(p, n), info, levels, ch, k);
        assert forall|i: int| 0 <= i < approx.data.len() implies #[trigger] sum.data[i].raw == m
            * approx.data[i].raw by {
            let v = approx.data[i].raw as int;
            assert(i64::MIN <= n * approx.data[i].raw <= i64::MAX);
            assert(before.data[i].raw == k * v);
            assert(m * v == k * v + v) by (nonlinear_arith)
                requires
                    m == k + 1,
            ;
            assert(i64::MIN <= m * v <= i64::MAX) by (nonlinear_arith)
                requires
                    0 <= m <= n,
                    i64::MIN <= n * v <= i64::MAX,
            ;
        }
    }
}

/// Is there room for `n` of every sample of a sheet?
pub open spec fn room_for(s: Sheet<Fixed>, n: int) -> bool {
    forall|i: int|
        0 <= i < s.data.len() ==> i64::MIN <= n * (#[trigger] s.data[i]).raw <= i64::MAX
}

/// A channel of a stack of copies is rebuilt from the copy's own details, on the mean of the
/// copies' approximations.
#[verifier::spinoff_prover]
proof fn lemma_copies_are_rebuilt(
    p: Picture<Fixed>,
    info: FrameInfo,
    n: nat,
    levels: nat,
    threshold: int,
    ch: int,
)
    requires
        fits(p, info),
        info.width > 0,
        info.height > 0,
        info.width * info.height <= usize::MAX,
        0 <= ch < 3,
        0 < n <= 0x1_0000,
    ensures
        stacked_channel(copies(p, n), copies(p, n), info, levels, threshold, ch) == rebuilt(
            forward_bands(channel_sheet(p, ch), levels),
            sheet_scaled(
                approx_run(copies(p, n), info, levels, ch, n),
                share_of::<Fixed>(n as int),
            ),
        ),
{
    let frames = copies(p, n);
    let s = channel_sheet(p, ch);
    let (w, h) = (info.width as int, info.height as int);
    let grid = grids_of(w, h, levels);
    let all = forward_bands(s, levels);
    lemma_sheet_size(p.w, p.h, |x: int, y: int| texel(p, x, y, ch));
    lemma_grids_agree_with_the_decomposition(s, levels);
    let levels_found = Seq::new(
        grid.len(),
        |l: int|
            collected(
                frames,
                decided(frames, levels, l, grid[l], threshold),
                info,
                levels,
                ch,
                l,
                grid[l],
                frames.len(),
            ),
    );
    assert forall|l: int| 0 <= l < grid.len() implies #[trigger] levels_found[l] == all[l] by {
        let g = grid[l];
        lemma_grid_bounds(w, h, levels, l);
        lemma_first_copy_is_chosen(p, n, levels, l, g, n);
        let labels = labels_run(frames, levels, l, g, n);
        lemma_agreement_is_settled(labels, g.0, g.1, threshold, 0u16);
        lemma_copies_are_gathered(p, info, n, levels, ch, l, g, labels, n);
    }
    assert(levels_found =~= all);
}

/// A channel of a stack of copies is the copy's, where an even share of them is exact.
proof fn lemma_copies_channel(
    p: Picture<Fixed>,
    info: FrameInfo,
    n: nat,
    levels: nat,
    threshold: int,
    ch: int,
)
    requires
        fits(p, info),
        info.width > 0,
        info.height > 0,
        info.width * info.height <= usize::MAX,
        0 <= ch < 3,
        0 < n <= 0x1_0000,
        65536int % (n as int) == 0,
        room_for(forward_approx(channel_sheet(p, ch), levels), n as int),
    ensures
        stacked_channel(copies(p, n), copies(p, n), info, levels, threshold, ch) == channel_sheet(
            p,
            ch,
        ),
{
    lemma_sheet_size(p.w, p.h, |x: int, y: int| texel(p, x, y, ch));
    lemma_copies_are_rebuilt(p, info, n, levels, threshold, ch);
    lemma_copies_share(p, info, n, levels, ch);
    lemma_transform_is_reversible(channel_sheet(p, ch), levels);
}

/// How far the mean of `n` copies of a sample is from it, in steps, at most: the share of a
/// copy is rounded down, and so is the mean.
pub open spec fn share_error(m: int, n: int) -> int {
    (m * (65536int % n)) / 65536 + 1
}

/// The mean of copies of a sample is close to it.
#[verifier::spinoff_prover]
proof fn lemma_mean_is_close(v: Fixed, sum: Fixed, n: int, m: int)
    requires
        0 < n <= 0x1_0000,
        0 <= m,
        n * m <= i64::MAX,
        small(v, m),
        sum.raw == n * v.raw,
    ensures
        close(sum.spec_times(share_of::<Fixed>(n)), v, share_error(m, n)),
        0 <= share_error(m, n) <= 0x1000_0000_0000_0000,
{
    let part = share_of::<Fixed>(n);
    let (q, r) = (65536int / n, 65536int % n);
    vstd::arithmetic::div_mod::lemma_fundamental_div_mod(65536, n);
    assert(Fixed::spec_whole(1).raw == 65536);
    assert(Fixed::spec_whole(n as i64).raw == n * 65536);
    assert((65536int * 65536) / (n * 65536) == q) by {
        vstd::arithmetic::div_mod::lemma_div_denominator(65536int * 65536int, 65536, n);
        assert((65536int * 65536) / 65536 == 65536);
        assert(65536 * n == n * 65536);
    }
    assert(0 <= q <= 65536) by (nonlinear_arith)
        requires
            65536 == n * q + r,
            0 <= r < n,
            0 < n,
    ;
    assert(part.raw == q);
    let a = v.raw as int;
    let t = a * r;
    assert((n * a) * q == a * 65536 - t) by (nonlinear_arith)
        requires
            65536 == n * q + r,
            t == a * r,
    ;
    let b = m * r;
    assert(-b <= t <= b) by (nonlinear_arith)
        requires
            -m <= a <= m,
            0 <= r,
            t == a * r,
            b == m * r,
    ;
    assert(0 <= b <= n * m) by (nonlinear_arith)
        requires
            0 <= r < n,
            0 <= m,
            b == m * r,
    ;
    assert((a * 65536 - t) / 65536 == a + (-t) / 65536);
    assert(-(b / 65536) - 1 <= (-t) / 65536 <= b / 65536 + 1);
    let mean = a + (-t) / 65536;
    if n == 1 {
        assert(t == 0) by (nonlinear_arith)
            requires
                r == 0,
                t == a * r,
        ;
    } else {
        assert(2 * m <= n * m) by (nonlinear_arith)
            requires
                2 <= n,
                0 <= m,
        ;
    }
    assert(i64::MIN <= mean <= i64::MAX);
    assert(sum.raw * part.raw == (n * a) * q);
    assert(sum.spec_times(part).raw == mean);
}

/// A channel of a stack of copies is close to the copy's.
proof fn lemma_copies_channel_is_close(
    p: Picture<Fixed>,
    info: FrameInfo,
    n: nat,
    levels: nat,
    threshold: int,
    m: int,
    ch: int,
)
    requires
        fits(p, info),
        info.width > 0,
        info.height > 0,
        info.width * info.height <= usize::MAX,
        0 <= ch < 3,
        0 < n <= 0x1_0000,
        levels <= 20,
        0 <= m,
        n * m <= i64::MAX,
        forall|i: int| 0 <= i < p.data.len() ==> small(#[trigger] p.data[i], 0x4_0000),
        all_small(forward_approx(channel_sheet(p, ch), levels), m),
    ensures
        all_close(
            stacked_channel(copies(p, n), copies(p, n), info, levels, threshold, ch),
            channel_sheet(p, ch),
            share_error(m, n as int),
        ),
{
    let s = channel_sheet(p, ch);
    let f = |x: int, y: int| texel(p, x, y, ch);
    lemma_sheet_size(p.w, p.h, f);
    assert forall|x: int, y: int| 0 <= x < s.w && 0 <= y < s.h implies small(
        #[trigger] cell(s, x, y),
        0x4_0000,
    ) by {
        lemma_cell(p.w, p.h, f, x, y);
        lemma_sample(x, y, ch, p.w, p.h, 3);
    }
    let approx = forward_approx(s, levels);
    lemma_decomposition_can_be_rebuilt(s, levels);
    lemma_approx_size(s, levels);
    assert forall|i: int| 0 <= i < approx.data.len() implies small(#[trigger] approx.data[i], m) by {
        lemma_column_and_row(i, approx.w, approx.h);
        assert(small(cell(approx, i % approx.w, i / approx.w), m));
    }
    assert forall|i: int| 0 <= i < approx.data.len() implies i64::MIN <= n * (
    #[trigger] approx.data[i]).raw <= i64::MAX by {
        let v = approx.data[i].raw as int;
        assert(-(n * m) <= n * v <= n * m) by (nonlinear_arith)
            requires
                -m <= v <= m,
                0 < n,
        ;
    }
    lemma_copies_add_up(p, info, n, levels, ch, n);
    let sum = approx_run(copies(p, n), info, levels, ch, n);
    let mean = sheet_scaled(sum, share_of::<Fixed>(n as int));
    let e = share_error(m, n as int);
    assert forall|x: int, y: int| 0 <= x < mean.w && 0 <= y < mean.h implies close(
        #[trigger] cell(mean, x, y),
        cell(approx, x, y),
        e,
    ) by {
        lemma_sample(x, y, 0, approx.w, approx.h, 1);
        let i = y * approx.w + x;
        assert(0 <= i < approx.data.len());
        assert(sum.data[i].raw == n * approx.data[i].raw);
        lemma_mean_is_close(approx.data[i], sum.data[i], n as int, m);
    }
    assert(0 <= e <= 0x1000_0000_0000_0000) by {
        lemma_mean_is_close(Fixed { raw: 0 }, Fixed { raw: 0 }, n as int, m);
    }
    lemma_grown_less(0x4_0000, levels, 20);
    assert(grown(0x4_0000, 20) == 0x400_0000_0000_0000) by {
        reveal_with_fuel(grown, 21);
    }
    lemma_rebuilding_stays_close(s, levels, mean, e, 0x4_0000);
    lemma_copies_are_rebuilt(p, info, n, levels, threshold, ch);
}

/// Stacking copies of a frame gives the frame back up to the rounding of their share, however
/// many there are and whatever the threshold: where no coefficient of the coarsest level is
/// more than `m` steps from zero, no sample is off by more than [`share_error`] steps. The
/// frame's samples are at most four from zero, it is decomposed into at most twenty levels,
/// and there is room for the sum of the coarsest coefficients.
pub proof fn lemma_copies_come_close(
    p: Picture<Fixed>,
    info: FrameInfo,
    n: nat,
    levels: nat,
    threshold: int,
    m: int,
)
    requires
        fits(p, info),
        info.width > 0,
        info.height > 0,
        info.width * info.height <= usize::MAX,
        0 < n <= 0x1_0000,
        levels <= 20,
        forall|i: int| 0 <= i < p.data.len() ==> small(#[trigger] p.data[i], 0x4_0000),
        0 <= m,
        n * m <= i64::MAX,
        forall|ch: int|
            0 <= ch < 3 ==> #[trigger] all_small(forward_approx(channel_sheet(p, ch), levels), m),
    ensures
        ({
            let out = stack_of(copies(p, n), copies(p, n), info, levels, threshold);
            &&& out.data.len() == p.data.len()
            &&& forall|i: int|
                0 <= i < p.data.len() ==> close(
                    #[trigger] out.data[i],
                    p.data[i],
                    share_error(m, n as int),
                )
        }),
{
    let frames = copies(p, n);
    let out = stack_of(frames, frames, info, levels, threshold);
    let e = share_error(m, n as int);
    assert forall|i: int| 0 <= i < p.data.len() implies close(
        #[trigger] out.data[i],
        p.data[i],
        e,
    ) by {
        lemma_place_of(i, p.w, p.h, 3);
        let (x, y, ch) = (column(i, p.w, 3), row(i, p.w, 3), channel(i, 3));
        let f = |x: int, y: int| texel(p, x, y, ch);
        lemma_cell(p.w, p.h, f, x, y);
        assert(all_small(forward_approx(channel_sheet(p, ch), levels), m));
        lemma_copies_channel_is_close(p, info, n, levels, threshold, m, ch);
        let got = stacked_channel(frames, frames, info, levels, threshold, ch);
        assert(close(cell(got, x, y), cell(channel_sheet(p, ch), x, y), e));
    }
}

/// The mean of copies' approximations is the copy's.
#[verifier::spinoff_prover]
proof fn lemma_copies_share(p: Picture<Fixed>, info: FrameInfo, n: nat, levels: nat, ch: int)
    requires
        fits(p, info),
        info.width > 0,
        info.height > 0,
        info.width * info.height <= usize::MAX,
        0 < n <= 0x1_0000,
        65536int % (n as int) == 0,
        room_for(forward_approx(channel_sheet(p, ch), levels), n as int),
    ensures
        sheet_scaled(
            approx_run(copies(p, n), info, levels, ch, n),
            share_of::<Fixed>(n as int),
        ) == forward_approx(channel_sheet(p, ch), levels),
{
    let approx = forward_approx(channel_sheet(p, ch), levels);
    lemma_copies_add_up(p, info, n, levels, ch, n);
    let sum = approx_run(copies(p, n), info, levels, ch, n);
    let part = share_of::<Fixed>(n as int);
    let q = 65536int / (n as int);
    vstd::arithmetic::div_mod::lemma_fundamental_div_mod(65536, n as int);
    assert(n * q == 65536);
    assert(Fixed::spec_whole(1).raw == 65536);
    assert(Fixed::spec_whole(n as i64).raw == n * 65536);
    assert((65536int * 65536) / (n as int * 65536) == q && 0 <= q <= 65536) by (nonlinear_arith)
        requires
            n > 0,
            n * q == 65536,
    ;
    assert(part.raw == q);
    let mean = sheet_scaled(sum, part);
    assert forall|i: int| 0 <= i < approx.data.len() implies mean.data[i] == approx.data[i] by {
        let v = approx.data[i].raw as int;
        assert(sum.data[i].raw == n * v);
        assert((n * v) * q == v * 65536) by (nonlinear_arith)
            requires
                n * q == 65536,
        ;
        assert((v * 65536) / 65536 == v);
    }
    assert(mean.data =~= approx.data);
}

/// Stacking copies of a frame gives the frame back, whatever the depth and the threshold,
/// where an even share of the copies is exact and there is room for their sum.
pub proof fn lemma_copies_come_back(
    p: Picture<Fixed>,
    info: FrameInfo,
    n: nat,
    levels: nat,
    threshold: int,
)
    requires
        fits(p, info),
        info.width > 0,
        info.height > 0,
        info.width * info.height <= usize::MAX,
        0 < n <= 0x1_0000,
        65536int % (n as int) == 0,
        room_for(forward_approx(channel_sheet(p, 0), levels), n as int),
        room_for(forward_approx(channel_sheet(p, 1), levels), n as int),
        room_for(forward_approx(channel_sheet(p, 2), levels), n as int),
    ensures
        stack_of(copies(p, n), copies(p, n), info, levels, threshold) == p,
{
    let frames = copies(p, n);
    let out = stack_of(frames, frames, info, levels, threshold);
    lemma_copies_channel(p, info, n, levels, threshold, 0);
    lemma_copies_channel(p, info, n, levels, threshold, 1);
    lemma_copies_channel(p, info, n, levels, threshold, 2);
    assert forall|i: int| 0 <= i < p.data.len() implies out.data[i] == p.data[i] by {
        lemma_place_of(i, p.w, p.h, 3);
        let (x, y, ch) = (column(i, p.w, 3), row(i, p.w, 3), channel(i, 3));
        let f = |x: int, y: int| texel(p, x, y, ch);
        lemma_cell(p.w, p.h, f, x, y);
        assert(channel_sheet(p, ch) == sheet(p.w, p.h, f));
        assert(ch == 0 || ch == 1 || ch == 2);
        assert(stacked_channel(frames, frames, info, levels, threshold, ch) == channel_sheet(p, ch));
    }
    assert(out.data =~= p.data);
}

/// A stack of one frame is that frame: nothing is lost on the way through the transform.
pub proof fn lemma_one_frame_comes_back(
    p: Picture<Fixed>,
    info: FrameInfo,
    levels: nat,
    threshold: int,
)
    requires
        fits(p, info),
        info.width > 0,
        info.height > 0,
        info.width * info.height <= usize::MAX,
    ensures
        stack_of(seq![p], seq![p], info, levels, threshold) == p,
{
    assert(seq![p] =~= copies(p, 1));
    lemma_copies_come_back(p, info, 1, levels, threshold);
}

/// Halving a side first or last comes to the same.
proof fn lemma_side_of_half(n: int, i: nat)
    ensures
        side(half_up(n), i) == side(n, i + 1),
    decreases i,
{
    reveal_with_fuel(side, 2);
    if i > 0 {
        lemma_side_of_half(n, (i - 1) as nat);
    }
}

/// A region that is everything is everything at every level.
proof fn lemma_full_at_every_level(c: Coverage, width: u32, height: u32, level: nat)
    requires
        covers_all(c, width as int, height as int),
    ensures
        covers_all(
            reduced_by(c, width as int, height as int, level),
            side(width as int, level),
            side(height as int, level),
        ),
    decreases level,
{
    if level > 0 {
        let m = (level - 1) as nat;
        let (w, h) = (half_up(width as int), half_up(height as int));
        lemma_full_survives_reduction(c, width, height);
        lemma_full_at_every_level(
            reduction(c, width as int, height as int),
            w as u32,
            h as u32,
            m,
        );
        lemma_side_of_half(width as int, m);
        lemma_side_of_half(height as int, m);
    }
}

/// Frames that did not move cover everything together.
proof fn lemma_unmoved_frames_cover_all(ts: Seq<Transform<Fixed>>, info: FrameInfo, n: nat)
    requires
        n <= ts.len(),
        forall|j: int| 0 <= j < ts.len() ==> #[trigger] ts[j] == identity_of::<Fixed>(),
    ensures
        all_cover(ts, info, n) == (Coverage { x0: 0, y0: 0, x1: info.width, y1: info.height }),
    decreases n,
{
    if n > 0 {
        lemma_unmoved_frames_cover_all(ts, info, (n - 1) as nat);
        assert(ts[n - 1] == identity_of::<Fixed>());
        lemma_identity_covers_the_frame(info);
    }
}

/// One for all, zero for nothing.
pub open spec fn share_all(all: bool) -> Fixed {
    Fixed::spec_whole(
        if all {
            1
        } else {
            0
        },
    )
}

/// The same weight everywhere.
pub open spec fn flat_weight(info: FrameInfo, all: bool) -> Picture<Fixed> {
    even(info.width as int, info.height as int, 1, share_all(all))
}

/// Do the frames leave all the weight to frame `k`?
pub open spec fn all_weight_on(shots: Seq<Shot<Fixed>>, info: FrameInfo, k: int) -> bool {
    forall|j: int|
        0 <= j < shots.len() ==> (#[trigger] shots[j]).weight == flat_weight(info, j == k)
}

/// A stack of frames of one size, none of which moved.
pub open spec fn unmoved_stack(
    shots: Seq<Shot<Fixed>>,
    ts: Seq<Transform<Fixed>>,
    info: FrameInfo,
) -> bool {
    &&& info.width > 0
    &&& info.height > 0
    &&& shots.len() == ts.len()
    &&& forall|j: int| 0 <= j < ts.len() ==> #[trigger] ts[j] == identity_of::<Fixed>()
    &&& forall|j: int|
        0 <= j < shots.len() ==> fits_stack((#[trigger] shots[j]).warped, shots[j].weight, info)
}

/// The size of a band of a frame's pyramid.
proof fn lemma_band_size<S: Sample>(p: Picture<S>, info: FrameInfo, levels: nat, level: nat)
    requires
        info.width > 0,
        info.height > 0,
        crate::pyramid::whole_picture(p),
        p.w == info.width,
        p.h == info.height,
        p.c == 3,
    ensures
        ({
            let b = laplacian(p, levels, level);
            let (w, h) = (side(info.width as int, level), side(info.height as int, level));
            b.w == w && b.h == h && b.c == 3 && b.data.len() == w * h * 3
        }),
{
    lemma_gaussian_size(p, level);
}

/// A frame with all the weight is added as it is to nothing, and one with none leaves what
/// is there.
proof fn lemma_weighed(b: Fixed, v: Fixed, all: bool)
    requires
        all ==> b == Fixed::spec_whole(0),
    ensures
        b.spec_plus(share_all(all).spec_times(v)) == (if all {
            v
        } else {
            b
        }),
{
    let zero = Fixed::spec_whole(0);
    assert(zero.raw == 0);
    if all {
        assert(Fixed::spec_whole(1).raw == 65536);
        assert((65536 * v.raw) / 65536 == v.raw);
        Fixed::lemma_plus_commutes(zero, v);
        Fixed::lemma_plus_zero(v);
    } else {
        assert(0 * v.raw == 0) by (nonlinear_arith);
        assert(zero.spec_times(v) == zero);
        Fixed::lemma_plus_zero(b);
    }
}

/// What adding samples under a weight that is the same everywhere does, where it is all of
/// it or none.
proof fn lemma_all_or_nothing_added(
    dst: Seq<Fixed>,
    weight: Seq<Fixed>,
    src: Seq<Fixed>,
    covered: Coverage,
    w: int,
    h: int,
    all: bool,
)
    requires
        w > 0,
        h > 0,
        dst.len() == w * h * 3,
        src.len() == w * h * 3,
        covers_all(covered, w, h),
        forall|i: int| 0 <= i < w * h ==> #[trigger] weight[i] == share_all(all),
        all ==> forall|j: int| 0 <= j < dst.len() ==> #[trigger] dst[j] == Fixed::spec_whole(0),
    ensures
        level_added(dst, weight, src, covered, w) == (if all {
            src
        } else {
            dst
        }),
{
    let after = level_added(dst, weight, src, covered, w);
    assert forall|j: int| 0 <= j < dst.len() implies after[j] == (if all {
        src[j]
    } else {
        dst[j]
    }) by {
        lemma_column_and_row(j / 3, w, h);
        assert(covers(covered, (j / 3) % w, (j / 3) / w));
        lemma_weighed(dst[j], src[j], all);
    }
    assert(after =~= (if all {
        src
    } else {
        dst
    }));
}

/// A frame that did not move covers everything, at every level.
proof fn lemma_unmoved_frame_covers(info: FrameInfo, level: nat)
    ensures
        covers_all(
            covered_at(identity_of::<Fixed>(), info, level),
            side(info.width as int, level),
            side(info.height as int, level),
        ),
{
    lemma_identity_covers_the_frame(info);
    lemma_full_at_every_level(
        Coverage { x0: 0, y0: 0, x1: info.width, y1: info.height },
        info.width,
        info.height,
        level,
    );
}

/// A weight of all or nothing stays so at every level.
proof fn lemma_flat_weight(info: FrameInfo, level: nat, all: bool, i: int)
    requires
        info.width > 0,
        info.height > 0,
        0 <= i < side(info.width as int, level) * side(info.height as int, level),
    ensures
        gaussian(flat_weight(info, all), level).data[i] == share_all(all),
{
    let share = share_all(all);
    let (fw, fh) = (info.width as int, info.height as int);
    assert(share.raw == 0 || share.raw == 65536);
    lemma_reducing_a_constant_preserves_it(share, fw, fh, 1, level);
    let (w, h) = (side(fw, level), side(fh, level));
    assert(w * h * 1 == w * h) by (nonlinear_arith);
}

/// What adding a frame that did not move does to a level, where it has all the weight or
/// none.
#[verifier::spinoff_prover]
proof fn lemma_frame_added(
    before: Picture<Fixed>,
    warped: Picture<Fixed>,
    info: FrameInfo,
    levels: nat,
    level: nat,
    all: bool,
)
    requires
        info.width > 0,
        info.height > 0,
        fits(warped, info),
        before.w == side(info.width as int, level),
        before.data.len() == side(info.width as int, level) * side(info.height as int, level) * 3,
        all ==> forall|j: int|
            0 <= j < before.data.len() ==> #[trigger] before.data[j] == Fixed::spec_whole(0),
    ensures
        blended_level(
            before,
            warped,
            flat_weight(info, all),
            identity_of::<Fixed>(),
            info,
            levels,
            level,
        ).data == (if all {
            laplacian(warped, levels, level).data
        } else {
            before.data
        }),
{
    let (fw, fh) = (info.width as int, info.height as int);
    let (w, h) = (side(fw, level), side(fh, level));
    lemma_side(fw, level);
    lemma_side(fh, level);
    lemma_band_size(warped, info, levels, level);
    lemma_unmoved_frame_covers(info, level);
    let weight = gaussian(flat_weight(info, all), level).data;
    assert forall|i: int| 0 <= i < w * h implies #[trigger] weight[i] == share_all(all) by {
        lemma_flat_weight(info, level, all, i);
    }
    lemma_all_or_nothing_added(
        before.data,
        weight,
        laplacian(warped, levels, level).data,
        covered_at(identity_of::<Fixed>(), info, level),
        w,
        h,
        all,
    );
}

/// After the first `n` frames, a level is black until frame `k` has been added, and that
/// frame's own band from there on.
#[verifier::spinoff_prover]
proof fn lemma_level_is_the_frames(
    shots: Seq<Shot<Fixed>>,
    ts: Seq<Transform<Fixed>>,
    info: FrameInfo,
    levels: nat,
    level: nat,
    k: int,
    n: nat,
)
    requires
        unmoved_stack(shots, ts, info),
        all_weight_on(shots, info, k),
        0 <= k < shots.len(),
        n <= shots.len(),
    ensures
        blend_level(shots, ts, info, levels, level, n) == (if n <= k {
            black::<Fixed>(side(info.width as int, level), side(info.height as int, level), 3)
        } else {
            laplacian(shots[k].warped, levels, level)
        }),
    decreases n,
{
    let (fw, fh) = (info.width as int, info.height as int);
    let (w, h) = (side(fw, level), side(fh, level));
    lemma_side(fw, level);
    lemma_side(fh, level);
    if n == 0 {
        let zero = Fixed::spec_whole(0);
        assert(zero.raw == 0);
        assert(black::<Fixed>(fw, fh, 3).data =~= even(fw, fh, 3, zero).data);
        lemma_reducing_a_constant_preserves_it(zero, fw, fh, 3, level);
        assert(black::<Fixed>(w, h, 3).data =~= even(w, h, 3, zero).data);
    } else {
        let m = n - 1;
        lemma_level_is_the_frames(shots, ts, info, levels, level, k, m as nat);
        assert(fits_stack(shots[m].warped, shots[m].weight, info));
        assert(fits_stack(shots[k].warped, shots[k].weight, info));
        assert(ts[m] == identity_of::<Fixed>());
        lemma_band_size(shots[k].warped, info, levels, level);
        assert(0 <= w * h * 3) by (nonlinear_arith)
            requires
                1 <= w,
                1 <= h,
        ;
        lemma_frame_added(
            blend_level(shots, ts, info, levels, level, m as nat),
            shots[m].warped,
            info,
            levels,
            level,
            m == k,
        );
    }
}

/// A level of the whole stack's blend is frame `k`'s own band.
proof fn lemma_final_level_is_the_frames(
    shots: Seq<Shot<Fixed>>,
    ts: Seq<Transform<Fixed>>,
    info: FrameInfo,
    levels: nat,
    level: nat,
    k: int,
)
    requires
        unmoved_stack(shots, ts, info),
        all_weight_on(shots, info, k),
        0 <= k < shots.len(),
    ensures
        final_level(shots, ts, info, levels, level) == laplacian(shots[k].warped, levels, level),
{
    let (w, h) = (side(info.width as int, level), side(info.height as int, level));
    let band = laplacian(shots[k].warped, levels, level);
    assert(fits_stack(shots[k].warped, shots[k].weight, info));
    lemma_side(info.width as int, level);
    lemma_side(info.height as int, level);
    lemma_level_is_the_frames(shots, ts, info, levels, level, k, shots.len());
    lemma_band_size(shots[k].warped, info, levels, level);
    lemma_unmoved_frames_cover_all(ts, info, shots.len());
    let every = Coverage { x0: 0, y0: 0, x1: info.width, y1: info.height };
    lemma_full_at_every_level(every, info.width, info.height, level);
    let reduced = reduced_by(every, info.width as int, info.height as int, level);
    let out = final_level(shots, ts, info, levels, level);
    assert forall|j: int| 0 <= j < band.data.len() implies out.data[j] == band.data[j] by {
        lemma_column_and_row(j / 3, w, h);
        assert(covers(reduced, (j / 3) % w, (j / 3) / w));
    }
    assert(out.data =~= band.data);
}

/// All weight on one frame returns that frame: blending a stack of frames that did not
/// move, of which one has all the weight everywhere, gives back that one.
pub proof fn lemma_all_weight_on_one_frame_returns_it(
    shots: Seq<Shot<Fixed>>,
    ts: Seq<Transform<Fixed>>,
    info: FrameInfo,
    floor: u32,
    k: int,
)
    requires
        unmoved_stack(shots, ts, info),
        all_weight_on(shots, info, k),
        0 <= k < shots.len(),
    ensures
        blend_of(shots, ts, info, floor) == shots[k].warped,
{
    let levels = levels_of(info.width as int, info.height as int, floor as int) as nat;
    let p = shots[k].warped;
    let all = Seq::new(levels, |l: int| final_level(shots, ts, info, levels, l as nat));
    assert(fits_stack(p, shots[k].weight, info));
    assert forall|l: int| 0 <= l < levels implies all[l] == laplacian(p, levels, l as nat) by {
        lemma_final_level_is_the_frames(shots, ts, info, levels, l as nat, k);
    }
    assert(all =~= laplacian_levels(p, levels));
    lemma_pyramid_reconstructs(p, levels);
}

/// How salient a frame is at a level.
pub open spec fn salient_at<S: Sample>(
    shots: Seq<Shot<S>>,
    levels: nat,
    radius: int,
    level: nat,
    j: int,
) -> Seq<S> {
    salience(laplacian(shots[j].warped, levels, level), radius)
}

/// Is frame `k` the most salient at every position of a level, and the first that is?
pub open spec fn dominates<S: Sample>(
    shots: Seq<Shot<S>>,
    info: FrameInfo,
    levels: nat,
    radius: int,
    level: nat,
    k: int,
) -> bool {
    forall|i: int|
        0 <= i < side(info.width as int, level) * side(info.height as int, level) ==> {
            let most = #[trigger] salient_at(shots, levels, radius, level, k)[i];
            &&& most.spec_exceeds(S::spec_whole(UNBEATEN))
            &&& forall|j: int|
                0 <= j < k ==> most.spec_exceeds(
                    #[trigger] salient_at(shots, levels, radius, level, j)[i],
                )
            &&& forall|j: int|
                k < j < shots.len() ==> !(#[trigger] salient_at(
                    shots,
                    levels,
                    radius,
                    level,
                    j,
                )[i]).spec_exceeds(most)
        }
}

/// One step of a contest that frame `k` wins: it takes everything over, and nothing takes
/// it back.
proof fn lemma_dominant_step<S: Sample>(
    dst: Seq<S>,
    best: Seq<S>,
    src: Seq<S>,
    found: Seq<S>,
    covered: Coverage,
    w: int,
    h: int,
    takes: bool,
)
    requires
        w > 0,
        h > 0,
        best.len() == w * h,
        dst.len() == w * h * 3,
        src.len() == w * h * 3,
        covers_all(covered, w, h),
        forall|i: int| 0 <= i < w * h ==> found[i].spec_exceeds(#[trigger] best[i]) == takes,
    ensures
        level_kept(dst, best, src, found, covered, w) == (if takes {
            src
        } else {
            dst
        }),
        takes ==> forall|i: int|
            0 <= i < w * h ==> #[trigger] best_kept(best, found, covered, w)[i] == found[i],
        !takes ==> best_kept(best, found, covered, w) == best,
{
    assert forall|i: int| 0 <= i < w * h implies takes_over(best, found, covered, w, i) == takes by {
        lemma_column_and_row(i, w, h);
        assert(found[i].spec_exceeds(best[i]) == takes);
    }
    let after = level_kept(dst, best, src, found, covered, w);
    assert forall|j: int| 0 <= j < dst.len() implies after[j] == (if takes {
        src[j]
    } else {
        dst[j]
    }) by {
        assert(takes_over(best, found, covered, w, j / 3) == takes);
    }
    assert(after =~= (if takes {
        src
    } else {
        dst
    }));
    if !takes {
        assert(best_kept(best, found, covered, w) =~= best);
    }
}

/// What a level holds after the first `n` frames, where frame `k` dominates it.
proof fn lemma_dominated_level<S: Sample>(
    shots: Seq<Shot<S>>,
    ts: Seq<Transform<S>>,
    info: FrameInfo,
    levels: nat,
    radius: int,
    level: nat,
    k: int,
    n: nat,
)
    requires
        info.width > 0,
        info.height > 0,
        shots.len() == ts.len(),
        forall|j: int|
            0 <= j < shots.len() ==> fits((#[trigger] shots[j]).warped, info),
        forall|j: int|
            0 <= j < ts.len() ==> covers_all(
                covered_at(#[trigger] ts[j], info, level),
                side(info.width as int, level),
                side(info.height as int, level),
            ),
        dominates(shots, info, levels, radius, level, k),
        0 <= k < shots.len(),
        n <= shots.len(),
    ensures
        ({
            let (w, h) = (side(info.width as int, level), side(info.height as int, level));
            let best = best_level(shots, ts, info, levels, radius, level, n);
            let chosen = chosen_level(shots, ts, info, levels, radius, level, n);
            let most = salient_at(shots, levels, radius, level, k);
            &&& best.len() == w * h
            &&& chosen.w == w && chosen.h == h && chosen.c == 3
            &&& chosen.data.len() == w * h * 3
            &&& n <= k ==> forall|i: int|
                0 <= i < w * h ==> most[i].spec_exceeds(#[trigger] best[i])
            &&& n > k ==> forall|i: int| 0 <= i < w * h ==> #[trigger] best[i] == most[i]
            &&& n > k ==> chosen == laplacian(shots[k].warped, levels, level)
        }),
    decreases n,
{
    let (fw, fh) = (info.width as int, info.height as int);
    let (w, h) = (side(fw, level), side(fh, level));
    let most = salient_at(shots, levels, radius, level, k);
    lemma_side(fw, level);
    lemma_side(fh, level);
    assert(0 <= w * h) by (nonlinear_arith)
        requires
            1 <= w,
            1 <= h,
    ;
    if n == 0 {
        assert(0 <= fw * fh * 3) by (nonlinear_arith)
            requires
                1 <= fw,
                1 <= fh,
        ;
        lemma_gaussian_size(black::<S>(fw, fh, 3), level);
        let best = best_level(shots, ts, info, levels, radius, level, 0);
        assert forall|i: int| 0 <= i < w * h implies most[i].spec_exceeds(#[trigger] best[i]) by {
            assert(salient_at(shots, levels, radius, level, k)[i] == most[i]);
        }
    } else {
        let m = n - 1;
        lemma_dominated_level(shots, ts, info, levels, radius, level, k, m as nat);
        let best = best_level(shots, ts, info, levels, radius, level, m as nat);
        let chosen = chosen_level(shots, ts, info, levels, radius, level, m as nat);
        let found = salient_at(shots, levels, radius, level, m);
        assert(fits(shots[m].warped, info) && fits(shots[k].warped, info));
        lemma_band_size(shots[m].warped, info, levels, level);
        lemma_band_size(shots[k].warped, info, levels, level);
        let covered = covered_at(ts[m], info, level);
        if m < k {
            let kept = best_level(shots, ts, info, levels, radius, level, n);
            assert forall|i: int| 0 <= i < w * h implies most[i].spec_exceeds(#[trigger] kept[i]) by {
                assert(salient_at(shots, levels, radius, level, k)[i] == most[i]);
                assert(salient_at(shots, levels, radius, level, m)[i] == found[i]);
                assert(most[i].spec_exceeds(best[i]));
            }
        } else {
            assert forall|i: int| 0 <= i < w * h implies found[i].spec_exceeds(#[trigger] best[i])
                == (m == k) by {
                assert(salient_at(shots, levels, radius, level, k)[i] == most[i]);
                assert(salient_at(shots, levels, radius, level, m)[i] == found[i]);
            }
            lemma_dominant_step(
                chosen.data,
                best,
                laplacian(shots[m].warped, levels, level).data,
                found,
                covered,
                w,
                h,
                m == k,
            );
        }
    }
}

/// Selection returns a frame that dominates every level: where one frame of a stack that
/// did not move is the most salient everywhere, and has all the weight for the base, the
/// selection is that frame.
pub proof fn lemma_dominant_frame_is_returned(
    shots: Seq<Shot<Fixed>>,
    ts: Seq<Transform<Fixed>>,
    info: FrameInfo,
    floor: u32,
    radius: int,
    k: int,
)
    requires
        unmoved_stack(shots, ts, info),
        all_weight_on(shots, info, k),
        0 <= k < shots.len(),
        forall|level: nat|
            level + 1 < levels_of(info.width as int, info.height as int, floor as int)
                ==> #[trigger] dominates(
                shots,
                info,
                levels_of(info.width as int, info.height as int, floor as int),
                radius,
                level,
                k,
            ),
    ensures
        selection_of(shots, ts, info, floor, radius) == shots[k].warped,
{
    let levels = levels_of(info.width as int, info.height as int, floor as int) as nat;
    let base = (levels - 1) as nat;
    let p = shots[k].warped;
    assert(fits_stack(p, shots[k].weight, info));
    let bands = Seq::new(
        base,
        |l: int| chosen_level(shots, ts, info, levels, radius, l as nat, shots.len()),
    );
    let all = laplacian_levels(p, levels);
    assert forall|l: int| 0 <= l < base implies bands[l] == all[l] by {
        assert(dominates(shots, info, levels, radius, l as nat, k));
        lemma_unmoved_frame_covers(info, l as nat);
        assert forall|j: int| 0 <= j < shots.len() implies fits((#[trigger] shots[j]).warped, info) by {
            assert(fits_stack(shots[j].warped, shots[j].weight, info));
        }
        assert forall|j: int| 0 <= j < ts.len() implies covers_all(
            covered_at(#[trigger] ts[j], info, l as nat),
            side(info.width as int, l as nat),
            side(info.height as int, l as nat),
        ) by {
            assert(ts[j] == identity_of::<Fixed>());
        }
        lemma_dominated_level(shots, ts, info, levels, radius, l as nat, k, shots.len());
    }
    assert(bands =~= all.drop_last());
    lemma_final_level_is_the_frames(shots, ts, info, levels, base, k);
    assert(final_level(shots, ts, info, levels, base) == all.last());
    lemma_pyramid_reconstructs(p, levels);
}

} // verus!
