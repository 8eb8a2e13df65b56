//! Stacking in the wavelet domain, from the first frame to the picture.
//!
//! Every frame is read twice: once to decide which frame each coefficient comes from, and
//! once to gather the coefficients that were decided on.

use vstd::prelude::*;
use crate::drive::Halt;
use crate::image::FrameInfo;
use crate::labels::{best_after, labels_after, settled_map, UNBEATEN};
use crate::pipeline::{
    broken_off, may_cancel, may_continue, rounds, Checkpoints, Event, RunControl, Stage,
};
use crate::plane::{cell, whole_sheet, Sheet};
use crate::pyramid::{levels_of, picture, whole_picture, Bitmap, Picture};
use crate::sample::Sample;
use crate::stacking::{
    activity_of, alike, bands_in, blank, channel_sheet, decompose, decomposed, finish, frame_fits,
    gathered_bands, gathering_fits, interleave, lemma_fit_by_size, level_bands, on_grid, same_size,
    shaped, share_of, sheet_scaled, sheet_sum, Channels, Gathering, Selection, WaveletStack,
};
use crate::wavelet::{
    bands_of, forward_approx, forward_bands, grids_of, lemma_decomposition_can_be_rebuilt,
    lemma_grids_agree_with_the_decomposition, levels_fit, rebuilt, rebuilt_height, rebuilt_width,
    step_approx, step_bands, Bands, Decomposition,
};

verus! {

/// One channel's details at a level of a frame.
pub open spec fn details_at<S: Sample>(p: Picture<S>, levels: nat, ch: int, l: int) -> Bands<S> {
    forward_bands(channel_sheet(p, ch), levels)[l]
}

/// How active each coefficient of a level is in a frame.
pub open spec fn energies<S: Sample>(p: Picture<S>, levels: nat, l: int, g: (int, int)) -> Seq<S> {
    activity_of(
        Channels {
            red: details_at(p, levels, 0, l),
            green: details_at(p, levels, 1, l),
            blue: details_at(p, levels, 2, l),
        },
        g.0,
        g.1,
    )
}

/// The best activity at a level after the first `n` frames.
pub open spec fn best_run<S: Sample>(
    frames: Seq<Picture<S>>,
    levels: nat,
    l: int,
    g: (int, int),
    n: nat,
) -> Seq<S>
    decreases n,
{
    if n == 0 {
        Seq::new((g.0 * g.1) as nat, |i: int| S::spec_whole(UNBEATEN))
    } else {
        best_after(
            best_run(frames, levels, l, g, (n - 1) as nat),
            energies(frames[n - 1], levels, l, g),
        )
    }
}

/// The frame that has it.
pub open spec fn labels_run<S: Sample>(
    frames: Seq<Picture<S>>,
    levels: nat,
    l: int,
    g: (int, int),
    n: nat,
) -> Seq<u16>
    decreases n,
{
    if n == 0 {
        Seq::new((g.0 * g.1) as nat, |i: int| 0u16)
    } else {
        labels_after(
            best_run(frames, levels, l, g, (n - 1) as nat),
            labels_run(frames, levels, l, g, (n - 1) as nat),
            energies(frames[n - 1], levels, l, g),
            (n - 1) as u16,
        )
    }
}

/// A sheet of zeros.
pub open spec fn blank_sheet<S: Sample>(w: int, h: int) -> Sheet<S> {
    Sheet { w, h, data: Seq::new((w * h) as nat, |i: int| S::spec_whole(0)) }
}

/// The size of what is left after `levels` levels.
pub open spec fn approx_size(w: int, h: int, levels: nat) -> (int, int) {
    let g = grids_of(w, h, levels);
    if g.len() == 0 {
        (w, h)
    } else {
        g.last()
    }
}

/// A channel's approximations added up over the first `n` frames.
pub open spec fn approx_run<S: Sample>(
    frames: Seq<Picture<S>>,
    info: FrameInfo,
    levels: nat,
    ch: int,
    n: nat,
) -> Sheet<S>
    decreases n,
{
    if n == 0 {
        let (w, h) = approx_size(info.width as int, info.height as int, levels);
        blank_sheet(w, h)
    } else {
        sheet_sum(
            approx_run(frames, info, levels, ch, (n - 1) as nat),
            forward_approx(channel_sheet(frames[n - 1], ch), levels),
        )
    }
}

/// The labels of a level once they are verified.
pub open spec fn decided<S: Sample>(
    frames: Seq<Picture<S>>,
    levels: nat,
    l: int,
    g: (int, int),
    threshold: int,
) -> Seq<u16> {
    settled_map(labels_run(frames, levels, l, g, frames.len()), g.0, g.1, threshold)
}

/// Bands of the same sizes with nothing but zeros in them.
pub open spec fn blank_like<S: Sample>(b: Bands<S>) -> Bands<S> {
    Bands {
        hl: blank_sheet(b.hl.w, b.hl.h),
        lh: blank_sheet(b.lh.w, b.lh.h),
        hh: blank_sheet(b.hh.w, b.hh.h),
    }
}

/// The bands of a level before any coefficient is in them.
pub open spec fn blank_level<S: Sample>(info: FrameInfo, levels: nat, l: int) -> Bands<S> {
    blank_like(
        forward_bands(
            blank_sheet::<S>(info.width as int, info.height as int),
            levels,
        )[l],
    )
}

/// A channel's coefficients at a level after the first `n` frames were gathered from.
pub open spec fn collected<S: Sample>(
    frames: Seq<Picture<S>>,
    labels: Seq<u16>,
    info: FrameInfo,
    levels: nat,
    ch: int,
    l: int,
    g: (int, int),
    n: nat,
) -> Bands<S>
    decreases n,
{
    if n == 0 {
        blank_level(info, levels, l)
    } else {
        gathered_bands(
            collected(frames, labels, info, levels, ch, l, g, (n - 1) as nat),
            details_at(frames[n - 1], levels, ch, l),
            labels,
            (g.0 as u32, g.1 as u32),
            (n - 1) as u16,
        )
    }
}

/// A channel of the stacked picture: decided on with one reading of the frames, gathered
/// from another.
pub open spec fn stacked_channel<S: Sample>(
    first: Seq<Picture<S>>,
    second: Seq<Picture<S>>,
    info: FrameInfo,
    levels: nat,
    threshold: int,
    ch: int,
) -> Sheet<S> {
    let grid = grids_of(info.width as int, info.height as int, levels);
    rebuilt(
        Seq::new(
            grid.len(),
            |l: int|
                collected(
                    second,
                    decided(first, levels, l, grid[l], threshold),
                    info,
                    levels,
                    ch,
                    l,
                    grid[l],
                    second.len(),
                ),
        ),
        sheet_scaled(
            approx_run(first, info, levels, ch, first.len()),
            share_of::<S>(first.len() as int),
        ),
    )
}

/// The stacked picture.
pub open spec fn stack_of<S: Sample>(
    first: Seq<Picture<S>>,
    second: Seq<Picture<S>>,
    info: FrameInfo,
    levels: nat,
    threshold: int,
) -> Picture<S> {
    picture(
        info.width as int,
        info.height as int,
        3,
        |x: int, y: int, ch: int|
            cell(stacked_channel(first, second, info, levels, threshold, ch), x, y),
    )
}

/// Could reading every frame give these pictures?
pub open spec fn all_seen<S, E, F: Fn(usize) -> Result<Bitmap<S>, E>>(
    read: F,
    frames: Seq<Picture<S>>,
) -> bool {
    forall|i: int| 0 <= i < frames.len() ==> #[trigger] seen_as(read, i, frames[i])
}

/// Could reading a frame give this picture?
pub open spec fn seen_as<S, E, F: Fn(usize) -> Result<Bitmap<S>, E>>(
    read: F,
    i: int,
    p: Picture<S>,
) -> bool {
    exists|b: Bitmap<S>| #[trigger] call_ensures(read, (i as usize,), Ok(b)) && b@ == p
}

/// A frame of the stack's own size.
pub open spec fn fits<S>(p: Picture<S>, info: FrameInfo) -> bool {
    whole_picture(p) && p.w == info.width && p.h == info.height && p.c == 3
}

/// Can every frame be asked for, and does each come in the stack's own size?
pub open spec fn watchable<S, E, F: Fn(usize) -> Result<Bitmap<S>, E>>(
    read: F,
    info: FrameInfo,
    n: int,
) -> bool {
    &&& forall|i: usize| i < n ==> #[trigger] call_requires(read, (i,))
    &&& forall|i: usize, b: Bitmap<S>|
        i < n && #[trigger] call_ensures(read, (i,), Ok(b)) ==> fits(b@, info)
}

/// Could reading a frame fail this way?
pub open spec fn missed_at<S, E, F: Fn(usize) -> Result<Bitmap<S>, E>>(read: F, i: usize, e: E) -> bool {
    call_ensures(read, (i,), Err(e))
}

/// Did a pass over the frames stop before or at a frame: was the run cancelled, or could the
/// frame not be read? Every frame before that one had been reported.
pub open spec fn pass_halted<S, R: RunControl, E, F: Fn(usize) -> Result<Bitmap<S>, E>>(
    read: F,
    n: int,
    stage: Stage,
    control: &R,
    from: Seq<Event>,
    to: Seq<Event>,
    e: Halt<E>,
) -> bool {
    match e {
        Halt::Cancelled => may_cancel(control) && exists|k: nat|
            k < n && to == from + #[trigger] broken_off(stage, n, k, true),
        Halt::Failed(why) => exists|k: usize|
            k < n && #[trigger] missed_at(read, k, why) && to == from + broken_off(
                stage,
                n,
                k as nat,
                false,
            ),
    }
}

/// Was a run cancelled between its passes, before the labels of a level were verified?
pub open spec fn verifying_halted<R: RunControl>(
    levels: nat,
    control: &R,
    from: Seq<Event>,
    to: Seq<Event>,
) -> bool {
    may_cancel(control) && exists|k: nat|
        k < levels && to == from + #[trigger] broken_off(
            Stage::Weights,
            levels as int,
            k,
            true,
        )
}

/// How a run that gave no picture ended: in the first pass over the frames, between the
/// passes, or in the second pass.
pub open spec fn halted_by<S, R: RunControl, E, F: Fn(usize) -> Result<Bitmap<S>, E>>(
    read: F,
    n: int,
    levels: nat,
    control: &R,
    from: Seq<Event>,
    to: Seq<Event>,
    e: Halt<E>,
) -> bool {
    let selected = from + rounds(Stage::Focus, n, n as nat);
    let verified = selected + rounds(Stage::Weights, levels as int, levels);
    ||| pass_halted(read, n, Stage::Focus, control, from, to, e)
    ||| e is Cancelled && verifying_halted(levels, control, selected, to)
    ||| pass_halted(read, n, Stage::Fuse, control, verified, to, e)
}

/// The bands of levels that fit are whole.
pub(crate) proof fn lemma_fitting_bands_are_whole<S>(bands: Seq<Bands<S>>, aw: int, ah: int, l: int)
    requires
        levels_fit(bands, aw, ah),
        0 <= l < bands.len(),
    ensures
        whole_sheet(bands[l].hl),
        whole_sheet(bands[l].lh),
        whole_sheet(bands[l].hh),
    decreases bands.len(),
{
    if l < bands.len() - 1 {
        lemma_fitting_bands_are_whole(
            bands.drop_last(),
            aw + bands.last().hl.w,
            ah + bands.last().lh.h,
            l,
        );
        assert(bands.drop_last()[l] == bands[l]);
    }
}

/// The sizes of a decomposition depend on the sheet's size alone.
proof fn lemma_sizes_agree<S: Sample>(a: Sheet<S>, b: Sheet<S>, levels: nat)
    requires
        a.w == b.w,
        a.h == b.h,
    ensures
        forward_bands(a, levels).len() == forward_bands(b, levels).len(),
        forall|l: int|
            0 <= l < forward_bands(a, levels).len() ==> same_size(
                #[trigger] forward_bands(a, levels)[l],
                forward_bands(b, levels)[l],
            ),
    decreases levels,
{
    if !(levels == 0 || a.w < 2 || a.h < 2) {
        let n = (levels - 1) as nat;
        lemma_sizes_agree(step_approx(a), step_approx(b), n);
        let (p, q) = (forward_bands(a, levels), forward_bands(b, levels));
        let (rp, rq) = (forward_bands(step_approx(a), n), forward_bands(step_approx(b), n));
        assert forall|l: int| 0 <= l < p.len() implies same_size(#[trigger] p[l], q[l]) by {
            if l > 0 {
                assert(p[l] == rp[l - 1]);
                assert(q[l] == rq[l - 1]);
            } else {
                assert(p[0] == step_bands(a) && q[0] == step_bands(b));
            }
        }
    }
}

/// The size of an approximation.
pub(crate) proof fn lemma_approx_size<S: Sample>(s: Sheet<S>, levels: nat)
    ensures
        forward_approx(s, levels).w == approx_size(s.w, s.h, levels).0,
        forward_approx(s, levels).h == approx_size(s.w, s.h, levels).1,
    decreases levels,
{
    if !(levels == 0 || s.w < 2 || s.h < 2) {
        let a = step_approx(s);
        let n = (levels - 1) as nat;
        lemma_approx_size(a, n);
        let rest = grids_of(a.w, a.h, n);
        let all = grids_of(s.w, s.h, levels);
        assert(all == seq![(a.w, a.h)] + rest);
        if rest.len() > 0 {
            assert(all.last() == rest.last());
        } else {
            assert(all.last() == (a.w, a.h));
        }
    }
}

/// A frame's decomposition has the shape that the stack's has.
proof fn lemma_decomposed_is_shaped<S: Sample>(
    d: Decomposition<S>,
    s: Sheet<S>,
    levels: nat,
    grid: Seq<(u32, u32)>,
)
    requires
        decomposed(d, s, levels),
        grid.map_values(|g: (u32, u32)| (g.0 as int, g.1 as int)) == grids_of(s.w, s.h, levels),
    ensures
        shaped(
            d,
            grid,
            approx_size(s.w, s.h, levels).0,
            approx_size(s.w, s.h, levels).1,
        ),
{
    let as_ints = |g: (u32, u32)| (g.0 as int, g.1 as int);
    lemma_approx_size(s, levels);
    lemma_grids_agree_with_the_decomposition(s, levels);
    assert(d.details@.len() == bands_of(d).len());
    assert forall|l: int| 0 <= l < grid.len() implies on_grid(
        (#[trigger] bands_of(d)[l]),
        grid[l].0 as int,
        grid[l].1 as int,
    ) by {
        assert(grid.map_values(as_ints)[l] == as_ints(grid[l]));
        lemma_fitting_bands_are_whole(bands_of(d), d.approx@.w, d.approx@.h, l);
        let b = forward_bands(s, levels)[l];
    }
}

/// A frame's three channels.
pub open spec fn frame_of<S: Sample>(
    f: Channels<Decomposition<S>>,
    p: Picture<S>,
    levels: nat,
) -> bool {
    &&& decomposed(f.red, channel_sheet(p, 0), levels)
    &&& decomposed(f.green, channel_sheet(p, 1), levels)
    &&& decomposed(f.blue, channel_sheet(p, 2), levels)
}

/// A run over some frames does not depend on later ones.
proof fn lemma_selecting_is_local<S: Sample>(
    a: Seq<Picture<S>>,
    b: Seq<Picture<S>>,
    levels: nat,
    l: int,
    g: (int, int),
    n: nat,
)
    requires
        n <= a.len(),
        n <= b.len(),
        forall|i: int| 0 <= i < n ==> #[trigger] a[i] == b[i],
    ensures
        best_run(a, levels, l, g, n) == best_run(b, levels, l, g, n),
        labels_run(a, levels, l, g, n) == labels_run(b, levels, l, g, n),
    decreases n,
{
    if n > 0 {
        lemma_selecting_is_local(a, b, levels, l, g, (n - 1) as nat);
        assert(a[n - 1] == b[n - 1]);
    }
}

proof fn lemma_adding_is_local<S: Sample>(
    a: Seq<Picture<S>>,
    b: Seq<Picture<S>>,
    info: FrameInfo,
    levels: nat,
    ch: int,
    n: nat,
)
    requires
        n <= a.len(),
        n <= b.len(),
        forall|i: int| 0 <= i < n ==> #[trigger] a[i] == b[i],
    ensures
        approx_run(a, info, levels, ch, n) == approx_run(b, info, levels, ch, n),
    decreases n,
{
    if n > 0 {
        lemma_adding_is_local(a, b, info, levels, ch, (n - 1) as nat);
        assert(a[n - 1] == b[n - 1]);
    }
}

proof fn lemma_collecting_is_local<S: Sample>(
    a: Seq<Picture<S>>,
    b: Seq<Picture<S>>,
    labels: Seq<u16>,
    info: FrameInfo,
    levels: nat,
    ch: int,
    l: int,
    g: (int, int),
    n: nat,
)
    requires
        n <= a.len(),
        n <= b.len(),
        forall|i: int| 0 <= i < n ==> #[trigger] a[i] == b[i],
    ensures
        collected(a, labels, info, levels, ch, l, g, n) == collected(
            b,
            labels,
            info,
            levels,
            ch,
            l,
            g,
            n,
        ),
    decreases n,
{
    if n > 0 {
        lemma_collecting_is_local(a, b, labels, info, levels, ch, l, g, (n - 1) as nat);
        assert(a[n - 1] == b[n - 1]);
    }
}

/// What the first pass knows after `n` frames.
pub open spec fn selected_through<S: Sample>(
    s: Selection<S>,
    frames: Seq<Picture<S>>,
    info: FrameInfo,
    levels: nat,
    n: nat,
) -> bool {
    let grid = grids_of(info.width as int, info.height as int, levels);
    &&& s.grid@.len() == grid.len()
    &&& forall|l: int|
        0 <= l < grid.len() ==> (#[trigger] s.best@[l])@ == best_run(
            frames,
            levels,
            l,
            grid[l],
            n,
        )
    &&& forall|l: int|
        0 <= l < grid.len() ==> (#[trigger] s.labels@[l])@ == labels_run(
            frames,
            levels,
            l,
            grid[l],
            n,
        )
    &&& s.approx.red@ == approx_run(frames, info, levels, 0, n)
    &&& s.approx.green@ == approx_run(frames, info, levels, 1, n)
    &&& s.approx.blue@ == approx_run(frames, info, levels, 2, n)
}

/// The grids of a selection are those of the stack's frames.
pub open spec fn gridded<S: Sample>(s: Selection<S>, info: FrameInfo, levels: nat) -> bool {
    &&& s.grid@.map_values(|g: (u32, u32)| (g.0 as int, g.1 as int)) == grids_of(
        info.width as int,
        info.height as int,
        levels,
    )
    &&& s.approx.red@.w == approx_size(info.width as int, info.height as int, levels).0
    &&& s.approx.red@.h == approx_size(info.width as int, info.height as int, levels).1
}

/// A frame of the stack's size can be considered.
proof fn lemma_frame_is_taken<S: Sample>(
    s: Selection<S>,
    f: Channels<Decomposition<S>>,
    p: Picture<S>,
    info: FrameInfo,
    levels: nat,
)
    requires
        gridded(s, info, levels),
        frame_of(f, p, levels),
        fits(p, info),
    ensures
        s.takes(f),
        frame_fits(f),
{
    lemma_decomposed_is_shaped(f.red, channel_sheet(p, 0), levels, s.grid@);
    lemma_decomposed_is_shaped(f.green, channel_sheet(p, 1), levels, s.grid@);
    lemma_decomposed_is_shaped(f.blue, channel_sheet(p, 2), levels, s.grid@);
}

/// Has every level of a gathering the sizes that the stack's frames have?
pub open spec fn sized<S: Sample>(bands: Seq<Bands<S>>, info: FrameInfo, levels: nat) -> bool {
    let model = forward_bands(blank_sheet::<S>(info.width as int, info.height as int), levels);
    &&& bands.len() == model.len()
    &&& forall|l: int| 0 <= l < bands.len() ==> same_size(#[trigger] bands[l], model[l])
}

/// A frame's channel has the sizes that the stack's frames have.
pub(crate) proof fn lemma_channel_is_sized<S: Sample>(p: Picture<S>, info: FrameInfo, levels: nat, ch: int)
    requires
        fits(p, info),
    ensures
        sized(forward_bands(channel_sheet(p, ch), levels), info, levels),
{
    lemma_sizes_agree(
        channel_sheet(p, ch),
        blank_sheet::<S>(info.width as int, info.height as int),
        levels,
    );
}

/// Bands of the stack's sizes rebuild a picture of the stack's size.
proof fn lemma_sized_rebuilds<S: Sample>(
    bands: Seq<Bands<S>>,
    info: FrameInfo,
    levels: nat,
)
    requires
        sized(bands, info, levels),
        info.width * info.height <= usize::MAX,
        forall|l: int|
            0 <= l < bands.len() ==> whole_sheet((#[trigger] bands[l]).hl) && whole_sheet(
                bands[l].lh,
            ) && whole_sheet(bands[l].hh),
    ensures
        ({
            let (aw, ah) = approx_size(info.width as int, info.height as int, levels);
            &&& rebuilt_width(bands, aw) == info.width
            &&& rebuilt_height(bands, ah) == info.height
        }),
{
    let model = blank_sheet::<S>(info.width as int, info.height as int);
    assert(0 <= model.w * model.h) by (nonlinear_arith)
        requires
            model.w >= 0,
            model.h >= 0,
    ;
    lemma_decomposition_can_be_rebuilt(model, levels);
    lemma_approx_size(model, levels);
    let all = forward_bands(model, levels);
    assert forall|l: int| 0 <= l < all.len() implies same_size(#[trigger] all[l], bands[l])
        && whole_sheet(bands[l].hl) && whole_sheet(bands[l].lh) && whole_sheet(bands[l].hh) by {
        assert(same_size(bands[l], all[l]));
    }
    lemma_fit_by_size(all, bands, forward_approx(model, levels).w, forward_approx(model, levels).h);
}

/// Blank bands of the stack's sizes.
proof fn lemma_blank_is_the_start<S: Sample>(b: Bands<S>, info: FrameInfo, levels: nat, l: int)
    requires
        blank(b),
        whole_sheet(b.hl),
        whole_sheet(b.lh),
        whole_sheet(b.hh),
        same_size(
            b,
            forward_bands(
                blank_sheet::<S>(info.width as int, info.height as int),
                levels,
            )[l],
        ),
    ensures
        b == blank_level::<S>(info, levels, l),
{
    let e = blank_level::<S>(info, levels, l);
    assert(b.hl.data =~= e.hl.data);
    assert(b.lh.data =~= e.lh.data);
    assert(b.hh.data =~= e.hh.data);
}

/// A selection that has verified the first `n` levels.
pub open spec fn verified_through<S: Sample>(
    before: Selection<S>,
    after: Selection<S>,
    threshold: int,
    n: int,
) -> bool {
    &&& after.grid == before.grid
    &&& after.approx == before.approx
    &&& forall|l: int|
        0 <= l < n ==> (#[trigger] after.labels@[l])@ == settled_map(
            before.labels@[l]@,
            before.grid@[l].0 as int,
            before.grid@[l].1 as int,
            threshold,
        )
    &&& forall|l: int|
        n <= l < before.grid@.len() ==> #[trigger] after.labels@[l] == before.labels@[l]
}

/// A frame's turn in a pass: the control is asked whether to stop, and the frame is read and
/// decomposed if not.
fn read_frame<S: Sample, R: RunControl, E, F: Fn(usize) -> Result<Bitmap<S>, E>>(
    read: &F,
    i: usize,
    info: FrameInfo,
    levels: usize,
    n: usize,
    run: &mut Checkpoints<R>,
    Ghost(stage): Ghost<Stage>,
    Ghost(from): Ghost<Seq<Event>>,
) -> (r: Result<(Channels<Decomposition<S>>, Ghost<Picture<S>>), Halt<E>>)
    requires
        i < n,
        watchable(*read, info, n as int),
        info.width * info.height <= usize::MAX,
        old(run).log() == from + rounds(stage, n as int, i as nat),
    ensures
        final(run).control() == old(run).control(),
        match r {
            Ok(got) => {
                &&& frame_of(got.0, got.1@, levels as nat)
                &&& fits(got.1@, info)
                &&& seen_as(*read, i as int, got.1@)
                &&& may_continue(old(run).control())
                &&& final(run).log() == old(run).log().push(Event::Asked { stop: false })
            },
            Err(e) => pass_halted(
                *read,
                n as int,
                stage,
                old(run).control(),
                from,
                final(run).log(),
                e,
            ),
        },
{
    if run.cancelled() {
        assert(run.log() =~= from + broken_off(stage, n as int, i as nat, true));
        return Err(Halt::Cancelled);
    }
    let warped = match read(i) {
        Ok(warped) => warped,
        Err(e) => {
            assert(missed_at(*read, i, e));
            assert(run.log() =~= from + broken_off(stage, n as int, i as nat, false));
            let halt = Halt::Failed(e);
            assert(halt->Failed_0 == e);
            return Err(halt);
        },
    };
    proof {
        assert(call_ensures(*read, (i,), Ok(warped)));
        assert((i as int) as usize == i);
    }
    let ghost p = warped@;
    let frame = decompose(&warped, levels);
    Ok((frame, Ghost(p)))
}

/// The first pass: every frame has its turn at every coefficient.
fn select_pass<S: Sample, R: RunControl, E, F: Fn(usize) -> Result<Bitmap<S>, E>>(
    info: FrameInfo,
    levels: usize,
    n: usize,
    read: &F,
    run: &mut Checkpoints<R>,
) -> (r: Result<(Selection<S>, Ghost<Seq<Picture<S>>>), Halt<E>>)
    requires
        info.width > 0,
        info.height > 0,
        info.width * info.height <= usize::MAX,
        n <= 0x1_0000,
        watchable(*read, info, n as int),
    ensures
        final(run).control() == old(run).control(),
        match r {
            Ok(got) => {
                &&& final(run).log() == old(run).log() + rounds(Stage::Focus, n as int, n as nat)
                &&& got.1@.len() == n
                &&& all_seen(*read, got.1@)
                &&& got.0.well_formed()
                &&& gridded(got.0, info, levels as nat)
                &&& selected_through(got.0, got.1@, info, levels as nat, n as nat)
            },
            Err(e) => pass_halted(
                *read,
                n as int,
                Stage::Focus,
                old(run).control(),
                old(run).log(),
                final(run).log(),
                e,
            ),
        },
        r is Ok && n > 0 ==> may_continue(old(run).control()),
{
    let mut selection: Selection<S> = Selection::start(info.width, info.height, levels);
    let ghost grid = grids_of(info.width as int, info.height as int, levels as nat);
    let ghost as_ints = |g: (u32, u32)| (g.0 as int, g.1 as int);
    let ghost mut frames: Seq<Picture<S>> = seq![];
    proof {
        assert(selection.grid@.len() == selection.grid@.map_values(as_ints).len());
        assert forall|l: int| 0 <= l < grid.len() implies #[trigger] selection.grid@[l] == (
            grid[l].0 as u32,
            grid[l].1 as u32,
        ) && grid[l].0 == selection.grid@[l].0 && grid[l].1 == selection.grid@[l].1 by {
            assert(selection.grid@.map_values(as_ints)[l] == as_ints(selection.grid@[l]));
        }
        assert forall|l: int| 0 <= l < grid.len() implies (#[trigger] selection.best@[l])@
            == best_run(frames, levels as nat, l, grid[l], 0) by {
            let g = selection.grid@[l];
            assert(selection.best@[l]@ =~= best_run(frames, levels as nat, l, grid[l], 0));
        }
        assert forall|l: int| 0 <= l < grid.len() implies (#[trigger] selection.labels@[l])@
            == labels_run(frames, levels as nat, l, grid[l], 0) by {
            let g = selection.grid@[l];
            assert(selection.labels@[l]@ =~= labels_run(frames, levels as nat, l, grid[l], 0));
        }
        if grid.len() > 0 {
            assert(selection.grid@.map_values(as_ints).last() == as_ints(selection.grid@.last()));
        }
        assert(gridded(selection, info, levels as nat));
        let (aw, ah) = approx_size(info.width as int, info.height as int, levels as nat);
        let zero = approx_run(frames, info, levels as nat, 0, 0);
        assert(zero == blank_sheet::<S>(aw, ah));
        assert(selection.approx.red@.data =~= zero.data);
        assert(selection.approx.green@.data =~= zero.data);
        assert(selection.approx.blue@.data =~= zero.data);
    }
    let ghost (control, from) = (run.control(), run.log());
    let mut i: usize = 0;
    assert(run.log() =~= from + rounds(Stage::Focus, n as int, 0));
    while i < n
        invariant
            i <= n,
            n <= 0x1_0000,
            info.width > 0,
            info.height > 0,
            info.width * info.height <= usize::MAX,
            watchable(*read, info, n as int),
            frames.len() == i,
            all_seen(*read, frames),
            control == old(run).control(),
            from == old(run).log(),
            run.control() == control,
            run.log() == from + rounds(Stage::Focus, n as int, i as nat),
            i > 0 ==> may_continue(control),
            selection.well_formed(),
            gridded(selection, info, levels as nat),
            selected_through(selection, frames, info, levels as nat, i as nat),
            grid == grids_of(info.width as int, info.height as int, levels as nat),
        decreases n - i,
    {
        let (frame, shown) = match read_frame(
            read,
            i,
            info,
            levels,
            n,
            run,
            Ghost(Stage::Focus),
            Ghost(from),
        ) {
            Ok(got) => got,
            Err(e) => {
                return Err(e);
            },
        };
        let ghost before = frames;
        let ghost old_selection = selection;
        proof {
            frames = frames.push(shown@);
            assert forall|k: int| 0 <= k < frames.len() implies #[trigger] seen_as(
                *read,
                k,
                frames[k],
            ) by {
                if k < i {
                    assert(seen_as(*read, k, before[k]));
                }
            }
            lemma_frame_is_taken(selection, frame, shown@, info, levels as nat);
        }
        selection.consider(i as u16, &frame);
        proof {
            let m = (i + 1) as nat;
            assert forall|l: int| 0 <= l < grid.len() implies #[trigger] activity_of(
                level_bands(frame, l),
                grid[l].0,
                grid[l].1,
            ) == energies(shown@, levels as nat, l, grid[l]) by {}
            assert forall|l: int| 0 <= l < grid.len() implies grid[l].0
                == #[trigger] old_selection.grid@[l].0 && grid[l].1 == old_selection.grid@[l].1 by {
                assert(old_selection.grid@.map_values(as_ints)[l] == as_ints(
                    old_selection.grid@[l],
                ));
            }
            assert forall|l: int| 0 <= l < grid.len() implies (#[trigger] selection.best@[l])@
                == best_run(frames, levels as nat, l, grid[l], m) by {
                lemma_selecting_is_local(before, frames, levels as nat, l, grid[l], i as nat);
                assert(old_selection.best@[l]@ == best_run(
                    before,
                    levels as nat,
                    l,
                    grid[l],
                    i as nat,
                ));
                let g = old_selection.grid@[l];
                assert(activity_of(level_bands(frame, l), grid[l].0, grid[l].1) == energies(
                    shown@,
                    levels as nat,
                    l,
                    grid[l],
                ));
            }
            assert forall|l: int| 0 <= l < grid.len() implies (#[trigger] selection.labels@[l])@
                == labels_run(frames, levels as nat, l, grid[l], m) by {
                lemma_selecting_is_local(before, frames, levels as nat, l, grid[l], i as nat);
                assert(old_selection.best@[l]@ == best_run(
                    before,
                    levels as nat,
                    l,
                    grid[l],
                    i as nat,
                ));
                assert(old_selection.labels@[l]@ == labels_run(
                    before,
                    levels as nat,
                    l,
                    grid[l],
                    i as nat,
                ));
                let g = old_selection.grid@[l];
                assert(activity_of(level_bands(frame, l), grid[l].0, grid[l].1) == energies(
                    shown@,
                    levels as nat,
                    l,
                    grid[l],
                ));
            }
            lemma_adding_is_local(before, frames, info, levels as nat, 0, i as nat);
            lemma_adding_is_local(before, frames, info, levels as nat, 1, i as nat);
            lemma_adding_is_local(before, frames, info, levels as nat, 2, i as nat);
        }
        run.progress(Stage::Focus, i + 1, n);
        i += 1;
        assert(run.log() =~= from + rounds(Stage::Focus, n as int, i as nat));
    }
    Ok((selection, Ghost(frames)))
}

/// Between the passes: the labels of every level are verified, unless the run is stopped.
fn verify_pass<S: Sample, R: RunControl>(
    selection: &mut Selection<S>,
    threshold: u32,
    run: &mut Checkpoints<R>,
) -> (r: bool)
    requires
        old(selection).well_formed(),
    ensures
        final(run).control() == old(run).control(),
        r ==> final(run).log() == old(run).log() + rounds(
            Stage::Weights,
            old(selection).grid@.len() as int,
            old(selection).grid@.len(),
        ),
        final(selection).well_formed(),
        r ==> verified_through(
            *old(selection),
            *final(selection),
            threshold as int,
            old(selection).grid@.len() as int,
        ),
        !r ==> verifying_halted(
            old(selection).grid@.len(),
            old(run).control(),
            old(run).log(),
            final(run).log(),
        ),
{
    let ghost before = *selection;
    let levels = selection.grid.len();
    let ghost (control, from) = (run.control(), run.log());
    let mut l: usize = 0;
    assert(run.log() =~= from + rounds(Stage::Weights, levels as int, 0));
    while l < levels
        invariant
            l <= levels,
            levels == before.grid@.len(),
            before == *old(selection),
            selection.well_formed(),
            control == old(run).control(),
            from == old(run).log(),
            run.control() == control,
            run.log() == from + rounds(Stage::Weights, levels as int, l as nat),
            verified_through(before, *selection, threshold as int, l as int),
        decreases levels - l,
    {
        if run.cancelled() {
            assert(run.log() =~= from + broken_off(Stage::Weights, levels as int, l as nat, true));
            return false;
        }
        selection.verify(l, threshold);
        run.progress(Stage::Weights, l + 1, levels);
        l += 1;
        assert(run.log() =~= from + rounds(Stage::Weights, levels as int, l as nat));
    }
    true
}

/// A channel of the second pass after the first `n` frames.
pub open spec fn collected_through<S: Sample>(
    bands: Seq<Bands<S>>,
    frames: Seq<Picture<S>>,
    labels: Seq<Vec<u16>>,
    info: FrameInfo,
    levels: nat,
    ch: int,
    n: nat,
) -> bool {
    let grid = grids_of(info.width as int, info.height as int, levels);
    &&& bands.len() == grid.len()
    &&& forall|l: int|
        0 <= l < grid.len() ==> #[trigger] bands[l] == collected(
            frames,
            labels[l]@,
            info,
            levels,
            ch,
            l,
            grid[l],
            n,
        )
}

/// One channel of a frame was gathered from.
proof fn lemma_channel_gathered<S: Sample>(
    before: Seq<Bands<S>>,
    after: Seq<Bands<S>>,
    d: Decomposition<S>,
    p: Picture<S>,
    frames: Seq<Picture<S>>,
    selection: Selection<S>,
    info: FrameInfo,
    levels: nat,
    ch: int,
    i: nat,
)
    requires
        gridded(selection, info, levels),
        decomposed(d, channel_sheet(p, ch), levels),
        fits(p, info),
        sized(before, info, levels),
        collected_through(before, frames, selection.labels@, info, levels, ch, i),
        frames.len() == i,
        i < 0x1_0000,
        after.len() == before.len(),
        forall|l: int|
            0 <= l < selection.grid@.len() ==> #[trigger] after[l] == gathered_bands(
                before[l],
                bands_of(d)[l],
                selection.labels@[l]@,
                selection.grid@[l],
                i as u16,
            ),
    ensures
        collected_through(
            after,
            frames.push(p),
            selection.labels@,
            info,
            levels,
            ch,
            i + 1,
        ),
        sized(after, info, levels),
{
    let grid = grids_of(info.width as int, info.height as int, levels);
    let as_ints = |g: (u32, u32)| (g.0 as int, g.1 as int);
    let model = forward_bands(blank_sheet::<S>(info.width as int, info.height as int), levels);
    assert(selection.grid@.len() == selection.grid@.map_values(as_ints).len());
    assert forall|l: int| 0 <= l < grid.len() implies #[trigger] after[l] == collected(
        frames.push(p),
        selection.labels@[l]@,
        info,
        levels,
        ch,
        l,
        grid[l],
        i + 1,
    ) by {
        assert(selection.grid@.map_values(as_ints)[l] == as_ints(selection.grid@[l]));
        lemma_collecting_is_local(
            frames,
            frames.push(p),
            selection.labels@[l]@,
            info,
            levels,
            ch,
            l,
            grid[l],
            i,
        );
        assert(frames.push(p)[i as int] == p);
        assert(before[l] == collected(
            frames,
            selection.labels@[l]@,
            info,
            levels,
            ch,
            l,
            grid[l],
            i,
        ));
    }
    assert forall|l: int| 0 <= l < after.len() implies same_size(#[trigger] after[l], model[l]) by {
        assert(same_size(before[l], model[l]));
    }
}

/// The second pass: the coefficients that the labels point at.
fn gather_pass<S: Sample, R: RunControl, E, F: Fn(usize) -> Result<Bitmap<S>, E>>(
    selection: &Selection<S>,
    info: FrameInfo,
    levels: usize,
    n: usize,
    read: &F,
    run: &mut Checkpoints<R>,
) -> (r: Result<(Gathering<S>, Ghost<Seq<Picture<S>>>), Halt<E>>)
    requires
        info.width > 0,
        info.height > 0,
        info.width * info.height <= usize::MAX,
        0 < n <= 0x1_0000,
        watchable(*read, info, n as int),
        selection.well_formed(),
        gridded(*selection, info, levels as nat),
    ensures
        final(run).control() == old(run).control(),
        match r {
            Ok(got) => {
                let c = got.0.coefficients;
                &&& final(run).log() == old(run).log() + rounds(Stage::Fuse, n as int, n as nat)
                &&& got.1@.len() == n
                &&& all_seen(*read, got.1@)
                &&& gathering_fits(
                    got.0,
                    selection.grid@,
                    selection.approx.red@.w,
                    selection.approx.red@.h,
                )
                &&& sized(bands_in(c.red@), info, levels as nat)
                &&& sized(bands_in(c.green@), info, levels as nat)
                &&& sized(bands_in(c.blue@), info, levels as nat)
                &&& collected_through(
                    bands_in(c.red@),
                    got.1@,
                    selection.labels@,
                    info,
                    levels as nat,
                    0,
                    n as nat,
                )
                &&& collected_through(
                    bands_in(c.green@),
                    got.1@,
                    selection.labels@,
                    info,
                    levels as nat,
                    1,
                    n as nat,
                )
                &&& collected_through(
                    bands_in(c.blue@),
                    got.1@,
                    selection.labels@,
                    info,
                    levels as nat,
                    2,
                    n as nat,
                )
            },
            Err(e) => pass_halted(
                *read,
                n as int,
                Stage::Fuse,
                old(run).control(),
                old(run).log(),
                final(run).log(),
                e,
            ),
        },
        r is Ok ==> may_continue(old(run).control()),
{
    let ghost mut frames: Seq<Picture<S>> = seq![];
    let mut gathering: Option<Gathering<S>> = None;
    let ghost (control, from) = (run.control(), run.log());
    let mut i: usize = 0;
    assert(run.log() =~= from + rounds(Stage::Fuse, n as int, 0));
    while i < n
        invariant
            i <= n,
            0 < n <= 0x1_0000,
            info.width > 0,
            info.height > 0,
            info.width * info.height <= usize::MAX,
            watchable(*read, info, n as int),
            selection.well_formed(),
            gridded(*selection, info, levels as nat),
            frames.len() == i,
            all_seen(*read, frames),
            control == old(run).control(),
            from == old(run).log(),
            run.control() == control,
            run.log() == from + rounds(Stage::Fuse, n as int, i as nat),
            i > 0 ==> may_continue(control),
            i > 0 ==> gathering is Some,
            gathering matches Some(g) ==> gathered_so_far(
                g,
                *selection,
                frames,
                info,
                levels as nat,
                i as nat,
            ),
        decreases n - i,
    {
        let (frame, shown) = match read_frame(
            read,
            i,
            info,
            levels,
            n,
            run,
            Ghost(Stage::Fuse),
            Ghost(from),
        ) {
            Ok(got) => got,
            Err(e) => {
                return Err(e);
            },
        };
        let ghost before = frames;
        proof {
            lemma_frame_is_taken(*selection, frame, shown@, info, levels as nat);
            lemma_channel_is_sized(shown@, info, levels as nat, 0);
            lemma_channel_is_sized(shown@, info, levels as nat, 1);
            lemma_channel_is_sized(shown@, info, levels as nat, 2);
        }
        let mut held = match gathering {
            Some(g) => g,
            None => {
                let g = Gathering::start(selection, &frame);
                proof {
                    lemma_started(g, *selection, frame, shown@, frames, info, levels as nat);
                }
                g
            },
        };
        let ghost started = held;
        proof {
            lemma_alike(held, *selection, frame, shown@, frames, info, levels as nat, i as nat);
        }
        held.gather(selection, i as u16, &frame);
        proof {
            let (a, b) = (started.coefficients, held.coefficients);
            frames = frames.push(shown@);
            assert forall|k: int| 0 <= k < frames.len() implies #[trigger] seen_as(
                *read,
                k,
                frames[k],
            ) by {
                if k < i {
                    assert(seen_as(*read, k, before[k]));
                }
            }
            lemma_channel_gathered(
                bands_in(a.red@),
                bands_in(b.red@),
                frame.red,
                shown@,
                before,
                *selection,
                info,
                levels as nat,
                0,
                i as nat,
            );
            lemma_channel_gathered(
                bands_in(a.green@),
                bands_in(b.green@),
                frame.green,
                shown@,
                before,
                *selection,
                info,
                levels as nat,
                1,
                i as nat,
            );
            lemma_channel_gathered(
                bands_in(a.blue@),
                bands_in(b.blue@),
                frame.blue,
                shown@,
                before,
                *selection,
                info,
                levels as nat,
                2,
                i as nat,
            );
        }
        gathering = Some(held);
        run.progress(Stage::Fuse, i + 1, n);
        i += 1;
        assert(run.log() =~= from + rounds(Stage::Fuse, n as int, i as nat));
    }
    match gathering {
        Some(g) => Ok((g, Ghost(frames))),
        None => {
            assert(false);
            Err(Halt::Cancelled)
        },
    }
}

/// What the second pass has after `n` frames.
pub open spec fn gathered_so_far<S: Sample>(
    g: Gathering<S>,
    s: Selection<S>,
    frames: Seq<Picture<S>>,
    info: FrameInfo,
    levels: nat,
    n: nat,
) -> bool {
    let c = g.coefficients;
    &&& gathering_fits(g, s.grid@, s.approx.red@.w, s.approx.red@.h)
    &&& sized(bands_in(c.red@), info, levels)
    &&& sized(bands_in(c.green@), info, levels)
    &&& sized(bands_in(c.blue@), info, levels)
    &&& collected_through(bands_in(c.red@), frames, s.labels@, info, levels, 0, n)
    &&& collected_through(bands_in(c.green@), frames, s.labels@, info, levels, 1, n)
    &&& collected_through(bands_in(c.blue@), frames, s.labels@, info, levels, 2, n)
}

/// Bands of one shape with another's sizes, which are the stack's.
proof fn lemma_sized_like<S: Sample>(
    a: Seq<Bands<S>>,
    b: Seq<Bands<S>>,
    info: FrameInfo,
    levels: nat,
)
    requires
        sized(b, info, levels),
        a.len() == b.len(),
        forall|l: int| 0 <= l < b.len() ==> same_size(a[l], #[trigger] b[l]),
    ensures
        sized(a, info, levels),
{
    let model = forward_bands(blank_sheet::<S>(info.width as int, info.height as int), levels);
    assert forall|l: int| 0 <= l < a.len() implies same_size(#[trigger] a[l], model[l]) by {
        assert(same_size(a[l], b[l]));
        assert(same_size(b[l], model[l]));
    }
}

/// Blank levels of the stack's sizes are where a channel starts.
proof fn lemma_channel_started<S: Sample>(
    bands: Seq<Bands<S>>,
    frames: Seq<Picture<S>>,
    s: Selection<S>,
    info: FrameInfo,
    levels: nat,
    ch: int,
)
    requires
        gridded(s, info, levels),
        sized(bands, info, levels),
        bands.len() == s.grid@.len(),
        forall|l: int| 0 <= l < bands.len() ==> blank(#[trigger] bands[l]),
        forall|l: int|
            0 <= l < s.grid@.len() ==> on_grid(
                #[trigger] bands[l],
                s.grid@[l].0 as int,
                s.grid@[l].1 as int,
            ),
    ensures
        collected_through(bands, frames, s.labels@, info, levels, ch, 0),
{
    let as_ints = |g: (u32, u32)| (g.0 as int, g.1 as int);
    assert(s.grid@.len() == s.grid@.map_values(as_ints).len());
    let model = forward_bands(blank_sheet::<S>(info.width as int, info.height as int), levels);
    assert forall|l: int| 0 <= l < bands.len() implies #[trigger] bands[l] == blank_level::<S>(
        info,
        levels,
        l,
    ) by {
        assert(same_size(bands[l], model[l]));
        assert(on_grid(bands[l], s.grid@[l].0 as int, s.grid@[l].1 as int));
        lemma_blank_is_the_start(bands[l], info, levels, l);
    }
}

/// A gathering that was just started.
proof fn lemma_started<S: Sample>(
    g: Gathering<S>,
    s: Selection<S>,
    f: Channels<Decomposition<S>>,
    p: Picture<S>,
    frames: Seq<Picture<S>>,
    info: FrameInfo,
    levels: nat,
)
    requires
        gridded(s, info, levels),
        frame_of(f, p, levels),
        fits(p, info),
        gathering_fits(g, s.grid@, s.approx.red@.w, s.approx.red@.h),
        alike(g, f),
        sized(forward_bands(channel_sheet(p, 0), levels), info, levels),
        sized(forward_bands(channel_sheet(p, 1), levels), info, levels),
        sized(forward_bands(channel_sheet(p, 2), levels), info, levels),
        forall|l: int|
            0 <= l < g.coefficients.red@.len() ==> blank(
                #[trigger] bands_in(g.coefficients.red@)[l],
            ),
        forall|l: int|
            0 <= l < g.coefficients.green@.len() ==> blank(
                #[trigger] bands_in(g.coefficients.green@)[l],
            ),
        forall|l: int|
            0 <= l < g.coefficients.blue@.len() ==> blank(
                #[trigger] bands_in(g.coefficients.blue@)[l],
            ),
    ensures
        gathered_so_far(g, s, frames, info, levels, 0),
{
    let c = g.coefficients;
    let (r, gr, b) = (bands_in(c.red@), bands_in(c.green@), bands_in(c.blue@));
    assert(r.len() == c.red@.len() && gr.len() == c.green@.len() && b.len() == c.blue@.len());
    lemma_sized_like(r, bands_of(f.red), info, levels);
    lemma_sized_like(gr, bands_of(f.green), info, levels);
    lemma_sized_like(b, bands_of(f.blue), info, levels);
    lemma_channel_started(r, frames, s, info, levels, 0);
    lemma_channel_started(gr, frames, s, info, levels, 1);
    lemma_channel_started(b, frames, s, info, levels, 2);
}

/// Two channels of the stack's sizes have the same sizes.
proof fn lemma_both_sized<S: Sample>(
    a: Seq<Bands<S>>,
    b: Seq<Bands<S>>,
    info: FrameInfo,
    levels: nat,
)
    requires
        sized(a, info, levels),
        sized(b, info, levels),
    ensures
        a.len() == b.len(),
        forall|l: int| 0 <= l < b.len() ==> same_size(a[l], #[trigger] b[l]),
{
    let model = forward_bands(blank_sheet::<S>(info.width as int, info.height as int), levels);
    assert forall|l: int| 0 <= l < b.len() implies same_size(a[l], #[trigger] b[l]) by {
        assert(same_size(a[l], model[l]));
        assert(same_size(b[l], model[l]));
    }
}

/// A gathering and a frame of the stack have the same sizes.
proof fn lemma_alike<S: Sample>(
    g: Gathering<S>,
    s: Selection<S>,
    f: Channels<Decomposition<S>>,
    p: Picture<S>,
    frames: Seq<Picture<S>>,
    info: FrameInfo,
    levels: nat,
    n: nat,
)
    requires
        gathered_so_far(g, s, frames, info, levels, n),
        frame_of(f, p, levels),
        sized(forward_bands(channel_sheet(p, 0), levels), info, levels),
        sized(forward_bands(channel_sheet(p, 1), levels), info, levels),
        sized(forward_bands(channel_sheet(p, 2), levels), info, levels),
    ensures
        alike(g, f),
{
    let c = g.coefficients;
    lemma_both_sized(bands_in(c.red@), bands_of(f.red), info, levels);
    lemma_both_sized(bands_in(c.green@), bands_of(f.green), info, levels);
    lemma_both_sized(bands_in(c.blue@), bands_of(f.blue), info, levels);
}

/// A channel's gathered bands are those of the stacked picture.
proof fn lemma_channel_is_stacked<S: Sample>(
    bands: Seq<Bands<S>>,
    first: Seq<Picture<S>>,
    second: Seq<Picture<S>>,
    chosen: Selection<S>,
    verified: Selection<S>,
    info: FrameInfo,
    levels: nat,
    threshold: int,
    ch: int,
)
    requires
        gridded(chosen, info, levels),
        first.len() == second.len(),
        selected_through(chosen, first, info, levels, first.len()),
        verified_through(chosen, verified, threshold, chosen.grid@.len() as int),
        collected_through(bands, second, verified.labels@, info, levels, ch, second.len()),
    ensures
        rebuilt(
            bands,
            sheet_scaled(
                approx_run(first, info, levels, ch, first.len()),
                share_of::<S>(first.len() as int),
            ),
        ) == stacked_channel(first, second, info, levels, threshold, ch),
{
    let grid = grids_of(info.width as int, info.height as int, levels);
    let as_ints = |g: (u32, u32)| (g.0 as int, g.1 as int);
    let all = Seq::new(
        grid.len(),
        |l: int|
            collected(
                second,
                decided(first, levels, l, grid[l], threshold),
                info,
                levels,
                ch,
                l,
                grid[l],
                second.len(),
            ),
    );
    assert forall|l: int| 0 <= l < grid.len() implies bands[l] == all[l] by {
        assert(chosen.grid@.map_values(as_ints)[l] == as_ints(chosen.grid@[l]));
        assert(verified.labels@[l]@ == settled_map(
            chosen.labels@[l]@,
            chosen.grid@[l].0 as int,
            chosen.grid@[l].1 as int,
            threshold,
        ));
        assert(chosen.labels@[l]@ == labels_run(first, levels, l, grid[l], first.len()));
    }
    assert(bands =~= all);
}

impl WaveletStack {
    /// Stacks a whole stack of warped frames.
    ///
    /// The run asks whether to stop before each frame, in both passes, and before each
    /// level's verification, and reports after each; past the last frame it does not ask,
    /// because what is left is cheap.
    pub fn stack<S: Sample, R: RunControl, E, F: Fn(usize) -> Result<Bitmap<S>, E>>(
        &self,
        info: FrameInfo,
        n: usize,
        read: F,
        run: &mut Checkpoints<R>,
    ) -> (r: Result<Bitmap<S>, Halt<E>>)
        requires
            info.width > 0,
            info.height > 0,
            info.width * 3 <= usize::MAX,
            info.width * info.height * 3 <= usize::MAX,
            0 < n <= 0x1_0000,
            watchable(read, info, n as int),
        ensures
            final(run).control() == old(run).control(),
            ({
                let depth = (levels_of(info.width as int, info.height as int, self.floor as int)
                    - 1) as nat;
                let levels = grids_of(info.width as int, info.height as int, depth).len();
                match r {
                    Ok(out) => {
                        &&& exists|first: Seq<Picture<S>>, second: Seq<Picture<S>>|
                            first.len() == n && second.len() == n && #[trigger] all_seen(
                                read,
                                first,
                            ) && #[trigger] all_seen(read, second) && out@ == stack_of(
                                first,
                                second,
                                info,
                                depth,
                                self.consistency_threshold as int,
                            )
                        &&& final(run).log() == old(run).log() + rounds(
                            Stage::Focus,
                            n as int,
                            n as nat,
                        ) + rounds(Stage::Weights, levels as int, levels) + rounds(
                            Stage::Fuse,
                            n as int,
                            n as nat,
                        )
                    },
                    Err(e) => halted_by(
                        read,
                        n as int,
                        levels,
                        old(run).control(),
                        old(run).log(),
                        final(run).log(),
                        e,
                    ),
                }
            }),
            r is Ok ==> may_continue(old(run).control()),
    {
        assert(info.width * info.height <= info.width * info.height * 3) by (nonlinear_arith);
        let levels = self.levels(info);
        let (mut selection, first) = match select_pass(info, levels, n, &read, run) {
            Ok(got) => got,
            Err(e) => {
                return Err(e);
            },
        };
        let ghost chosen = selection;
        assert(chosen.grid@.len() == grids_of(
            info.width as int,
            info.height as int,
            levels as nat,
        ).len());
        if !verify_pass(&mut selection, self.consistency_threshold, run) {
            return Err(Halt::Cancelled);
        }
        let (gathering, second) = match gather_pass(&selection, info, levels, n, &read, run) {
            Ok(got) => got,
            Err(e) => {
                return Err(e);
            },
        };
        let ghost c = gathering.coefficients;
        let ghost threshold = self.consistency_threshold as int;
        proof {
            lemma_channel_is_stacked(
                bands_in(c.red@),
                first@,
                second@,
                chosen,
                selection,
                info,
                levels as nat,
                threshold,
                0,
            );
            lemma_channel_is_stacked(
                bands_in(c.green@),
                first@,
                second@,
                chosen,
                selection,
                info,
                levels as nat,
                threshold,
                1,
            );
            lemma_channel_is_stacked(
                bands_in(c.blue@),
                first@,
                second@,
                chosen,
                selection,
                info,
                levels as nat,
                threshold,
                2,
            );
            lemma_rebuilds(c.red@, selection.grid@, info, levels as nat, selection.approx.red@.w, selection.approx.red@.h);
            lemma_rebuilds(c.green@, selection.grid@, info, levels as nat, selection.approx.red@.w, selection.approx.red@.h);
            lemma_rebuilds(c.blue@, selection.grid@, info, levels as nat, selection.approx.red@.w, selection.approx.red@.h);
        }
        let channels = finish(&selection, gathering, n as u32);
        let out = interleave(&channels);
        proof {
            let want = stack_of(first@, second@, info, levels as nat, threshold);
            assert(out.data@ =~= want.data) by {
                assert forall|i: int| 0 <= i < out.data@.len() implies out.data@[i]
                    == want.data[i] by {
                    crate::layout::lemma_place_of(i, info.width as int, info.height as int, 3);
                }
            }
            assert(all_seen(read, first@) && all_seen(read, second@));
        }
        Ok(out)
    }
}

/// Gathered bands of the stack's sizes rebuild a picture of the stack's size.
proof fn lemma_rebuilds<S: Sample>(
    details: Seq<crate::wavelet::Details<S>>,
    grid: Seq<(u32, u32)>,
    info: FrameInfo,
    levels: nat,
    aw: int,
    ah: int,
)
    requires
        sized(bands_in(details), info, levels),
        crate::stacking::gatherable(bands_in(details), grid, aw, ah),
        info.width * info.height <= usize::MAX,
        (aw, ah) == approx_size(info.width as int, info.height as int, levels),
    ensures
        rebuilt_width(bands_in(details), aw) == info.width,
        rebuilt_height(bands_in(details), ah) == info.height,
{
    let bands = bands_in(details);
    assert forall|l: int| 0 <= l < bands.len() implies whole_sheet((#[trigger] bands[l]).hl)
        && whole_sheet(bands[l].lh) && whole_sheet(bands[l].hh) by {
        assert(on_grid(bands[l], grid[l].0 as int, grid[l].1 as int));
    }
    lemma_sized_rebuilds(bands, info, levels);
}

} // verus!
