//! Whole stacks, one frame at a time: each frame is read, warped, given its turn and
//! dropped, so that the number of frames stays out of the memory that a run takes.
//!
//! The caller reads the frames. Before each of them the run asks whether to stop, and after
//! each it reports.

use vstd::prelude::*;
use crate::fusion::{
    all_cover, blended_level, blended_tally, buildable, fits_stack, rescaled_level, selected_best,
    selected_level, LaplacianPyramidFusion, SelectionFusion,
};
use crate::image::FrameInfo;
use crate::labels::UNBEATEN;
use crate::pipeline::{
    broken_off, may_cancel, may_continue, rounds, Checkpoints, Event, RunControl, Stage, Transform,
};
use crate::pyramid::{black, collapsed, gaussian, levels_of, pictures, side, Bitmap, Picture};
use crate::sample::Sample;

verus! {

/// Why a run came to no result.
#[derive(Debug, PartialEq, Eq)]
pub enum Halt<E> {
    /// The caller asked it to stop. Not a fault.
    Cancelled,
    /// A frame could not be read.
    Failed(E),
}

/// A frame that has been warped into anchor coordinates, and its weight map.
pub struct Exposure<S> {
    pub warped: Bitmap<S>,
    pub weight: Bitmap<S>,
}

/// What a frame holds.
pub struct Shot<S> {
    pub warped: Picture<S>,
    pub weight: Picture<S>,
}

/// Could reading a frame give this, and leave what it was read from in this state?
pub open spec fn read_as<S, T, E, F: Fn(usize, T) -> (T, Result<Exposure<S>, E>)>(
    read: F,
    i: int,
    before: T,
    after: T,
    shot: Shot<S>,
) -> bool {
    exists|e: Exposure<S>| #[trigger]
        call_ensures(read, (i as usize, before), (after, Ok(e))) && e.warped@ == shot.warped
            && e.weight@ == shot.weight
}

/// Could reading the first frames give these, and leave their images in these states?
pub open spec fn all_read<S, T, E, F: Fn(usize, T) -> (T, Result<Exposure<S>, E>)>(
    read: F,
    before: Seq<T>,
    after: Seq<T>,
    shots: Seq<Shot<S>>,
) -> bool {
    forall|i: int|
        0 <= i < shots.len() ==> #[trigger] read_as(read, i, before[i], after[i], shots[i])
}

/// Could reading a frame fail this way?
pub open spec fn failed_at<S, T, E, F: Fn(usize, T) -> (T, Result<Exposure<S>, E>)>(
    read: F,
    i: int,
    before: T,
    after: T,
    e: E,
) -> bool {
    call_ensures(read, (i as usize, before), (after, Err(e)))
}

/// Are the images from the `k`th on as they were?
pub open spec fn untouched<T>(before: Seq<T>, after: Seq<T>, k: int) -> bool {
    &&& after.len() == before.len()
    &&& forall|i: int| k <= i < before.len() ==> #[trigger] after[i] == before[i]
}

/// Did a run over some images stop before a frame because it was asked to? It had read the
/// frames before that one and reported each, and went no further.
pub open spec fn cancelled_at<S, T, E, F: Fn(usize, T) -> (T, Result<Exposure<S>, E>)>(
    read: F,
    before: Seq<T>,
    after: Seq<T>,
    from: Seq<Event>,
    to: Seq<Event>,
    shots: Seq<Shot<S>>,
) -> bool {
    let k = shots.len();
    &&& k < before.len()
    &&& all_read(read, before, after, shots)
    &&& untouched(before, after, k as int)
    &&& to == from + broken_off(Stage::Fuse, before.len() as int, k, true)
}

/// Did a run over some images stop at a frame because it could not be read? It had read the
/// frames before that one and reported each, and went no further.
pub open spec fn failed_after<S, T, E, F: Fn(usize, T) -> (T, Result<Exposure<S>, E>)>(
    read: F,
    before: Seq<T>,
    after: Seq<T>,
    from: Seq<Event>,
    to: Seq<Event>,
    shots: Seq<Shot<S>>,
    e: E,
) -> bool {
    let k = shots.len();
    &&& k < before.len()
    &&& all_read(read, before, after, shots)
    &&& failed_at(read, k as int, before[k as int], after[k as int], e)
    &&& untouched(before, after, k as int + 1)
    &&& to == from + broken_off(Stage::Fuse, before.len() as int, k, false)
}

/// How a run that gave no picture ended, by what passed between it and its control.
pub open spec fn stopped_by<S, R: RunControl, T, E, F: Fn(usize, T) -> (T, Result<Exposure<S>, E>)>(
    read: F,
    before: Seq<T>,
    after: Seq<T>,
    control: &R,
    from: Seq<Event>,
    to: Seq<Event>,
    e: Halt<E>,
) -> bool {
    match e {
        Halt::Cancelled => may_cancel(control) && exists|shots: Seq<Shot<S>>| #[trigger]
            cancelled_at(read, before, after, from, to, shots),
        Halt::Failed(why) => exists|shots: Seq<Shot<S>>| #[trigger]
            failed_after(read, before, after, from, to, shots, why),
    }
}

/// Can every frame be asked for, and does each come in the stack's own size?
pub open spec fn readable_stack<S, T, E, F: Fn(usize, T) -> (T, Result<Exposure<S>, E>)>(
    read: F,
    info: FrameInfo,
    images: Seq<T>,
) -> bool {
    &&& forall|i: usize|
        i < images.len() ==> #[trigger] call_requires(read, (i, images[i as int]))
    &&& forall|i: usize, before: T, after: T, e: Exposure<S>|
        i < images.len() && #[trigger] call_ensures(read, (i, before), (after, Ok(e)))
            ==> fits_stack(e.warped@, e.weight@, info)
}

/// A frame's turn: the control is asked whether to stop, and the frame is read if not.
fn turn<S: Sample, R: RunControl, T, E, F: Fn(usize, T) -> (T, Result<Exposure<S>, E>)>(
    i: usize,
    info: FrameInfo,
    images: &mut Vec<T>,
    read: &F,
    run: &mut Checkpoints<R>,
    Ghost(start): Ghost<Seq<T>>,
    Ghost(from): Ghost<Seq<Event>>,
    Ghost(shots): Ghost<Seq<Shot<S>>>,
) -> (r: Result<Exposure<S>, Halt<E>>)
    requires
        i < start.len(),
        i == shots.len(),
        readable_stack(*read, info, start),
        all_read(*read, start, old(images)@, shots),
        untouched(start, old(images)@, i as int),
        old(run).log() == from + rounds(Stage::Fuse, start.len() as int, i as nat),
    ensures
        final(run).control() == old(run).control(),
        match r {
            Ok(e) => {
                &&& fits_stack(e.warped@, e.weight@, info)
                &&& all_read(
                    *read,
                    start,
                    final(images)@,
                    shots.push(Shot { warped: e.warped@, weight: e.weight@ }),
                )
                &&& untouched(start, final(images)@, i + 1)
                &&& may_continue(old(run).control())
                &&& final(run).log() == old(run).log().push(Event::Asked { stop: false })
            },
            Err(e) => stopped_by(
                *read,
                start,
                final(images)@,
                old(run).control(),
                from,
                final(run).log(),
                e,
            ),
        },
{
    let ghost n = start.len() as int;
    let ghost held = images@;
    if run.cancelled() {
        proof {
            assert(run.log() =~= from + broken_off(Stage::Fuse, n, i as nat, true));
            assert(cancelled_at(*read, start, images@, from, run.log(), shots));
        }
        return Err(Halt::Cancelled);
    }
    assert(run.log() =~= from + broken_off(Stage::Fuse, n, i as nat, false));
    let image = images.remove(i);
    let (image, got) = read(i, image);
    images.insert(i, image);
    proof {
        assert(images@ =~= held.update(i as int, image));
        assert((i as int) as usize == i);
        assert forall|k: int| 0 <= k < i implies #[trigger] read_as(
            *read,
            k,
            start[k],
            images@[k],
            shots[k],
        ) by {
            assert(read_as(*read, k, start[k], held[k], shots[k]));
        }
    }
    match got {
        Ok(e) => {
            proof {
                let shot = Shot { warped: e.warped@, weight: e.weight@ };
                assert(call_ensures(*read, (i, start[i as int]), (image, Ok(e))));
                assert(read_as(*read, i as int, start[i as int], image, shot));
                let all = shots.push(shot);
                assert forall|k: int| 0 <= k < all.len() implies #[trigger] read_as(
                    *read,
                    k,
                    start[k],
                    images@[k],
                    all[k],
                ) by {
                    if k < i {
                        assert(read_as(*read, k, start[k], images@[k], shots[k]));
                    }
                }
            }
            Ok(e)
        },
        Err(e) => {
            assert(failed_after(*read, start, images@, from, run.log(), shots, e));
            let halt = Halt::Failed(e);
            assert(halt->Failed_0 == e);
            Err(halt)
        },
    }
}

/// A level of the blend after the first `n` frames.
pub open spec fn blend_level<S: Sample>(
    shots: Seq<Shot<S>>,
    ts: Seq<Transform<S>>,
    info: FrameInfo,
    levels: nat,
    level: nat,
    n: nat,
) -> Picture<S>
    decreases n,
{
    if n == 0 {
        gaussian(black::<S>(info.width as int, info.height as int, 3), level)
    } else {
        let m = (n - 1) as nat;
        blended_level(
            blend_level(shots, ts, info, levels, level, m),
            shots[m as int].warped,
            shots[m as int].weight,
            ts[m as int],
            info,
            levels,
            level,
        )
    }
}

/// The weight tallied at a level after the first `n` frames.
pub open spec fn blend_tally<S: Sample>(
    shots: Seq<Shot<S>>,
    ts: Seq<Transform<S>>,
    info: FrameInfo,
    level: nat,
    n: nat,
) -> Seq<S>
    decreases n,
{
    if n == 0 {
        Seq::new(
            (side(info.width as int, level) * side(info.height as int, level)) as nat,
            |i: int| S::spec_whole(0),
        )
    } else {
        let m = (n - 1) as nat;
        blended_tally(
            blend_tally(shots, ts, info, level, m),
            shots[m as int].weight,
            ts[m as int],
            info,
            level,
        )
    }
}

/// A level of a whole stack's blend, with its margin rescaled.
pub open spec fn final_level<S: Sample>(
    shots: Seq<Shot<S>>,
    ts: Seq<Transform<S>>,
    info: FrameInfo,
    levels: nat,
    level: nat,
) -> Picture<S> {
    rescaled_level(
        blend_level(shots, ts, info, levels, level, shots.len()),
        blend_tally(shots, ts, info, level, shots.len()),
        all_cover(ts, info, shots.len()),
        info,
        level,
    )
}

/// The blend of a whole stack.
pub open spec fn blend_of<S: Sample>(
    shots: Seq<Shot<S>>,
    ts: Seq<Transform<S>>,
    info: FrameInfo,
    floor: u32,
) -> Picture<S> {
    let levels = levels_of(info.width as int, info.height as int, floor as int) as nat;
    let all = Seq::new(
        levels,
        |l: int| final_level(shots, ts, info, levels, l as nat),
    );
    collapsed(all.drop_last(), all.last())
}

impl<S: Sample> LaplacianPyramidFusion<S> {
    /// Blends a stack: every level is averaged under the weight maps at its own scale.
    ///
    /// An image is what a frame is read from; reading it gives it back, in whatever state
    /// that leaves it.
    pub fn fuse<R: RunControl, T, E, F: Fn(usize, T) -> (T, Result<Exposure<S>, E>)>(
        info: FrameInfo,
        floor: u32,
        images: &mut Vec<T>,
        transforms: &[Transform<S>],
        read: F,
        run: &mut Checkpoints<R>,
    ) -> (r: Result<Bitmap<S>, Halt<E>>)
        requires
            buildable(info),
            old(images)@.len() == transforms@.len(),
            readable_stack(read, info, old(images)@),
        ensures
            match r {
                Ok(out) => {
                    &&& exists|shots: Seq<Shot<S>>|
                        shots.len() == transforms@.len() && #[trigger] all_read(
                            read,
                            old(images)@,
                            final(images)@,
                            shots,
                        ) && out@ == blend_of(shots, transforms@, info, floor)
                    &&& final(run).log() == old(run).log() + rounds(
                        Stage::Fuse,
                        transforms@.len() as int,
                        transforms@.len(),
                    )
                },
                Err(e) => stopped_by(
                    read,
                    old(images)@,
                    final(images)@,
                    old(run).control(),
                    old(run).log(),
                    final(run).log(),
                    e,
                ),
            },
            final(images)@.len() == old(images)@.len(),
            final(run).control() == old(run).control(),
            r is Ok && transforms@.len() > 0 ==> may_continue(old(run).control()),
    {
        let n = transforms.len();
        let mut state: Self = Self::new(info, floor);
        let ghost levels = state.levels as nat;
        let ghost mut shots: Seq<Shot<S>> = seq![];
        let ghost (start, from, control) = (images@, run.log(), run.control());
        proof {
            assert forall|l: int| 0 <= l < levels implies (#[trigger] state.applied@[l])@
                == blend_tally(shots, transforms@, info, l as nat, 0) by {
                assert(crate::fusion::paired(state.accumulator@[l]@, state.applied@[l]@));
                assert(state.applied@[l]@ =~= blend_tally(shots, transforms@, info, l as nat, 0));
            }
        }
        let mut i: usize = 0;
        assert(run.log() =~= from + rounds(Stage::Fuse, n as int, 0));
        while i < n
            invariant
                i <= n,
                n == transforms@.len(),
                buildable(info),
                readable_stack(read, info, start),
                start.len() == n,
                start == old(images)@,
                from == old(run).log(),
                control == old(run).control(),
                run.control() == control,
                run.log() == from + rounds(Stage::Fuse, n as int, i as nat),
                untouched(start, images@, i as int),
                state.well_formed(),
                state.info == info,
                state.levels == levels,
                levels == levels_of(info.width as int, info.height as int, floor as int),
                shots.len() == i,
                all_read(read, start, images@, shots),
                i > 0 ==> may_continue(control),
                state.every == all_cover(transforms@, info, i as nat),
                forall|l: int|
                    0 <= l < levels ==> (#[trigger] state.accumulator@[l])@ == blend_level(
                        shots,
                        transforms@,
                        info,
                        levels,
                        l as nat,
                        i as nat,
                    ),
                forall|l: int|
                    0 <= l < levels ==> (#[trigger] state.applied@[l])@ == blend_tally(
                        shots,
                        transforms@,
                        info,
                        l as nat,
                        i as nat,
                    ),
            decreases n - i,
        {
            let exposure = match turn(
                i,
                info,
                images,
                &read,
                run,
                Ghost(start),
                Ghost(from),
                Ghost(shots),
            ) {
                Ok(exposure) => exposure,
                Err(e) => {
                    return Err(e);
                },
            };
            let ghost before = shots;
            proof {
                shots = shots.push(Shot { warped: exposure.warped@, weight: exposure.weight@ });
            }
            state.add_frame(exposure.warped, exposure.weight, transforms[i]);
            proof {
                assert forall|l: int| 0 <= l < levels implies (#[trigger] state.accumulator@[l])@
                    == blend_level(
                    shots,
                    transforms@,
                    info,
                    levels,
                    l as nat,
                    (i + 1) as nat,
                ) by {
                    lemma_blend_is_local(
                        before,
                        shots,
                        transforms@,
                        info,
                        levels,
                        l as nat,
                        i as nat,
                    );
                }
                assert forall|l: int| 0 <= l < levels implies (#[trigger] state.applied@[l])@
                    == blend_tally(shots, transforms@, info, l as nat, (i + 1) as nat) by {
                    lemma_blend_is_local(
                        before,
                        shots,
                        transforms@,
                        info,
                        levels,
                        l as nat,
                        i as nat,
                    );
                }
            }
            run.progress(Stage::Fuse, i + 1, n);
            i += 1;
            assert(run.log() =~= from + rounds(Stage::Fuse, n as int, i as nat));
        }
        proof {
            let all = Seq::new(
                levels,
                |l: int| final_level(shots, transforms@, info, levels, l as nat),
            );
            let held = Seq::new(
                levels,
                |l: int|
                    rescaled_level(
                        state.accumulator@[l]@,
                        state.applied@[l]@,
                        state.every,
                        info,
                        l as nat,
                    ),
            );
            assert(all =~= held);
        }
        Ok(state.finish())
    }
}

/// What a blend holds after some frames does not depend on the later ones.
proof fn lemma_blend_is_local<S: Sample>(
    a: Seq<Shot<S>>,
    b: Seq<Shot<S>>,
    ts: Seq<Transform<S>>,
    info: FrameInfo,
    levels: nat,
    level: nat,
    n: nat,
)
    requires
        n <= a.len(),
        n <= b.len(),
        forall|i: int| 0 <= i < n ==> #[trigger] a[i] == b[i],
    ensures
        blend_level(a, ts, info, levels, level, n) == blend_level(b, ts, info, levels, level, n),
        blend_tally(a, ts, info, level, n) == blend_tally(b, ts, info, level, n),
    decreases n,
{
    if n > 0 {
        lemma_blend_is_local(a, b, ts, info, levels, level, (n - 1) as nat);
        assert(a[n - 1] == b[n - 1]);
    }
}

/// The best salience at a level after the first `n` frames.
pub open spec fn best_level<S: Sample>(
    shots: Seq<Shot<S>>,
    ts: Seq<Transform<S>>,
    info: FrameInfo,
    levels: nat,
    radius: int,
    level: nat,
    n: nat,
) -> Seq<S>
    decreases n,
{
    if n == 0 {
        Seq::new(
            (side(info.width as int, level) * side(info.height as int, level)) as nat,
            |i: int| S::spec_whole(UNBEATEN),
        )
    } else {
        let m = (n - 1) as nat;
        selected_best(
            best_level(shots, ts, info, levels, radius, level, m),
            shots[m as int].warped,
            ts[m as int],
            info,
            levels,
            radius,
            level,
        )
    }
}

/// A band-pass level of the selection after the first `n` frames.
pub open spec fn chosen_level<S: Sample>(
    shots: Seq<Shot<S>>,
    ts: Seq<Transform<S>>,
    info: FrameInfo,
    levels: nat,
    radius: int,
    level: nat,
    n: nat,
) -> Picture<S>
    decreases n,
{
    if n == 0 {
        gaussian(black::<S>(info.width as int, info.height as int, 3), level)
    } else {
        let m = (n - 1) as nat;
        selected_level(
            chosen_level(shots, ts, info, levels, radius, level, m),
            best_level(shots, ts, info, levels, radius, level, m),
            shots[m as int].warped,
            ts[m as int],
            info,
            levels,
            radius,
            level,
        )
    }
}

/// The selection from a whole stack: band-pass levels by salience, and the base blended.
pub open spec fn selection_of<S: Sample>(
    shots: Seq<Shot<S>>,
    ts: Seq<Transform<S>>,
    info: FrameInfo,
    floor: u32,
    radius: int,
) -> Picture<S> {
    let levels = levels_of(info.width as int, info.height as int, floor as int) as nat;
    let base = (levels - 1) as nat;
    collapsed(
        Seq::new(
            base,
            |l: int| chosen_level(shots, ts, info, levels, radius, l as nat, shots.len()),
        ),
        final_level(shots, ts, info, levels, base),
    )
}

/// What a selection holds after some frames does not depend on the later ones.
proof fn lemma_selection_is_local<S: Sample>(
    a: Seq<Shot<S>>,
    b: Seq<Shot<S>>,
    ts: Seq<Transform<S>>,
    info: FrameInfo,
    levels: nat,
    radius: int,
    level: nat,
    n: nat,
)
    requires
        n <= a.len(),
        n <= b.len(),
        forall|i: int| 0 <= i < n ==> #[trigger] a[i] == b[i],
    ensures
        best_level(a, ts, info, levels, radius, level, n) == best_level(
            b,
            ts,
            info,
            levels,
            radius,
            level,
            n,
        ),
        chosen_level(a, ts, info, levels, radius, level, n) == chosen_level(
            b,
            ts,
            info,
            levels,
            radius,
            level,
            n,
        ),
    decreases n,
{
    if n > 0 {
        lemma_selection_is_local(a, b, ts, info, levels, radius, level, (n - 1) as nat);
        assert(a[n - 1] == b[n - 1]);
    }
}

impl<S: Sample> SelectionFusion<S> {
    /// Fuses a stack by selection: at every level and position the most salient frame's
    /// coefficient is kept.
    ///
    /// An image is what a frame is read from; reading it gives it back, in whatever state
    /// that leaves it.
    pub fn fuse<R: RunControl, T, E, F: Fn(usize, T) -> (T, Result<Exposure<S>, E>)>(
        info: FrameInfo,
        floor: u32,
        salience_radius: u32,
        images: &mut Vec<T>,
        transforms: &[Transform<S>],
        read: F,
        run: &mut Checkpoints<R>,
    ) -> (r: Result<Bitmap<S>, Halt<E>>)
        requires
            buildable(info),
            old(images)@.len() == transforms@.len(),
            readable_stack(read, info, old(images)@),
        ensures
            match r {
                Ok(out) => {
                    &&& exists|shots: Seq<Shot<S>>|
                        shots.len() == transforms@.len() && #[trigger] all_read(
                            read,
                            old(images)@,
                            final(images)@,
                            shots,
                        ) && out@ == selection_of(
                            shots,
                            transforms@,
                            info,
                            floor,
                            salience_radius as int,
                        )
                    &&& final(run).log() == old(run).log() + rounds(
                        Stage::Fuse,
                        transforms@.len() as int,
                        transforms@.len(),
                    )
                },
                Err(e) => stopped_by(
                    read,
                    old(images)@,
                    final(images)@,
                    old(run).control(),
                    old(run).log(),
                    final(run).log(),
                    e,
                ),
            },
            final(images)@.len() == old(images)@.len(),
            final(run).control() == old(run).control(),
            r is Ok && transforms@.len() > 0 ==> may_continue(old(run).control()),
    {
        let n = transforms.len();
        let mut state: Self = Self::new(info, floor, salience_radius);
        let ghost levels = state.levels as nat;
        let ghost base = (levels - 1) as nat;
        let ghost radius = salience_radius as int;
        let ghost mut shots: Seq<Shot<S>> = seq![];
        let ghost (start, from, control) = (images@, run.log(), run.control());
        proof {
            assert forall|l: int| 0 <= l < base implies (#[trigger] state.best@[l])@ == best_level(
                shots,
                transforms@,
                info,
                levels,
                radius,
                l as nat,
                0,
            ) by {
                assert(crate::fusion::paired(state.result@[l]@, state.best@[l]@));
                assert(state.best@[l]@ =~= best_level(
                    shots,
                    transforms@,
                    info,
                    levels,
                    radius,
                    l as nat,
                    0,
                ));
            }
            assert(crate::fusion::level_shape(state.result@[base as int]@, info, base));
            assert(state.base_weight@ =~= blend_tally(shots, transforms@, info, base, 0));
        }
        let mut i: usize = 0;
        assert(run.log() =~= from + rounds(Stage::Fuse, n as int, 0));
        while i < n
            invariant
                i <= n,
                n == transforms@.len(),
                buildable(info),
                readable_stack(read, info, start),
                start.len() == n,
                start == old(images)@,
                from == old(run).log(),
                control == old(run).control(),
                run.control() == control,
                run.log() == from + rounds(Stage::Fuse, n as int, i as nat),
                untouched(start, images@, i as int),
                state.well_formed(),
                state.info == info,
                state.levels == levels,
                state.salience_radius == salience_radius,
                radius == salience_radius,
                base == levels - 1,
                levels == levels_of(info.width as int, info.height as int, floor as int),
                shots.len() == i,
                all_read(read, start, images@, shots),
                i > 0 ==> may_continue(control),
                state.every == all_cover(transforms@, info, i as nat),
                forall|l: int|
                    0 <= l < base ==> (#[trigger] state.result@[l])@ == chosen_level(
                        shots,
                        transforms@,
                        info,
                        levels,
                        radius,
                        l as nat,
                        i as nat,
                    ),
                forall|l: int|
                    0 <= l < base ==> (#[trigger] state.best@[l])@ == best_level(
                        shots,
                        transforms@,
                        info,
                        levels,
                        radius,
                        l as nat,
                        i as nat,
                    ),
                state.result@[base as int]@ == blend_level(
                    shots,
                    transforms@,
                    info,
                    levels,
                    base,
                    i as nat,
                ),
                state.base_weight@ == blend_tally(shots, transforms@, info, base, i as nat),
            decreases n - i,
        {
            let exposure = match turn(
                i,
                info,
                images,
                &read,
                run,
                Ghost(start),
                Ghost(from),
                Ghost(shots),
            ) {
                Ok(exposure) => exposure,
                Err(e) => {
                    return Err(e);
                },
            };
            let ghost before = shots;
            proof {
                shots = shots.push(Shot { warped: exposure.warped@, weight: exposure.weight@ });
            }
            state.add_frame(exposure.warped, exposure.weight, transforms[i]);
            proof {
                let m = (i + 1) as nat;
                assert forall|l: int| 0 <= l < base implies (#[trigger] state.result@[l])@
                    == chosen_level(shots, transforms@, info, levels, radius, l as nat, m) by {
                    lemma_selection_is_local(
                        before,
                        shots,
                        transforms@,
                        info,
                        levels,
                        radius,
                        l as nat,
                        i as nat,
                    );
                }
                assert forall|l: int| 0 <= l < base implies (#[trigger] state.best@[l])@
                    == best_level(shots, transforms@, info, levels, radius, l as nat, m) by {
                    lemma_selection_is_local(
                        before,
                        shots,
                        transforms@,
                        info,
                        levels,
                        radius,
                        l as nat,
                        i as nat,
                    );
                }
                lemma_blend_is_local(before, shots, transforms@, info, levels, base, i as nat);
            }
            run.progress(Stage::Fuse, i + 1, n);
            i += 1;
            assert(run.log() =~= from + rounds(Stage::Fuse, n as int, i as nat));
        }
        proof {
            let chosen = Seq::new(
                base,
                |l: int|
                    chosen_level(shots, transforms@, info, levels, radius, l as nat, shots.len()),
            );
            let held = pictures(state.result@).take(base as int);
            assert forall|l: int| 0 <= l < base implies held[l] == chosen[l] by {
                assert(held[l] == state.result@[l]@);
            }
            assert(chosen =~= held);
        }
        Ok(state.finish())
    }
}

} // verus!
