//! A run in flight: how far it got, how long each stage took, and how it ended.

use vstd::prelude::*;
use crate::defaults;
use crate::error::Error;
use crate::fusion::FusionKind;
use crate::image::larger;
use crate::pipeline::{Method, Stage};
use crate::sample::Sample;
use crate::weights::GuideSpace;

verus! {

/// Everything the pipeline needs that a front end owns.
#[derive(Debug, Copy, PartialEq, Eq)]
pub struct Settings<S> {
    pub registration_level: u32,
    pub focus_radius: u32,
    pub guide_radius: u32,
    pub guide_epsilon: S,
    pub guide_space: GuideSpace,
    /// Carries its own parameters, so a method that does not read one cannot be handed it.
    pub method: Method,
    pub pyramid_floor: u32,
}

impl<S: Copy> Clone for Settings<S> {
    fn clone(&self) -> (r: Self)
        ensures
            r == *self,
    {
        *self
    }
}

/// The settings the pipeline is tuned to.
pub open spec fn standard_settings<S: Sample>() -> Settings<S> {
    Settings {
        registration_level: defaults::REGISTRATION_LEVEL,
        focus_radius: defaults::FOCUS_RADIUS,
        guide_radius: defaults::GUIDE_RADIUS,
        guide_epsilon: S::spec_whole(1).spec_over(S::spec_whole(defaults::GUIDE_EPSILON_PARTS)),
        guide_space: defaults::GUIDE_SPACE,
        method: Method::Local { fusion: defaults::default_fusion() },
        pyramid_floor: defaults::PYRAMID_FLOOR,
    }
}

/// Do two settings agree? The regularization counts as the same where neither exceeds the
/// other.
pub open spec fn agree_on<S: Sample>(a: Settings<S>, b: Settings<S>) -> bool {
    &&& a.registration_level == b.registration_level
    &&& a.focus_radius == b.focus_radius
    &&& a.guide_radius == b.guide_radius
    &&& !a.guide_epsilon.spec_exceeds(b.guide_epsilon)
    &&& !b.guide_epsilon.spec_exceeds(a.guide_epsilon)
    &&& a.guide_space == b.guide_space
    &&& a.method == b.method
    &&& a.pyramid_floor == b.pyramid_floor
}

impl<S: Sample> Settings<S> {
    /// The settings the pipeline is tuned to.
    pub fn standard() -> (r: Self)
        ensures
            r == standard_settings::<S>(),
    {
        Settings {
            registration_level: defaults::REGISTRATION_LEVEL,
            focus_radius: defaults::FOCUS_RADIUS,
            guide_radius: defaults::GUIDE_RADIUS,
            guide_epsilon: S::whole(1).over(S::whole(defaults::GUIDE_EPSILON_PARTS)),
            guide_space: defaults::GUIDE_SPACE,
            method: defaults::method(),
            pyramid_floor: defaults::PYRAMID_FLOOR,
        }
    }

    /// Has anything moved away from the settings the pipeline is tuned to?
    pub fn is_modified(&self) -> (r: bool)
        ensures
            r == !agree_on(*self, standard_settings::<S>()),
    {
        let standard = Self::standard();
        !(self.registration_level == standard.registration_level && self.focus_radius
            == standard.focus_radius && self.guide_radius == standard.guide_radius
            && !self.guide_epsilon.exceeds(standard.guide_epsilon)
            && !standard.guide_epsilon.exceeds(self.guide_epsilon) && self.guide_space
            == standard.guide_space && self.method == standard.method && self.pyramid_floor
            == standard.pyramid_floor)
    }
}

/// One piece of a run's work, with the settings that shape it.
#[derive(Debug, Copy, PartialEq, Eq)]
pub enum Work<S> {
    /// Find the transform of every frame, on grids `level` halvings down.
    Register { level: u32 },
    /// Measure every frame's focus.
    Measure { radius: u32 },
    /// Turn the focus maps into weights.
    Weigh { radius: u32, epsilon: S, space: GuideSpace },
    /// Fuse the frames under their weights, and write the result.
    Fuse { fusion: FusionKind, floor: u32 },
    /// Select the frames' wavelet coefficients, and write the result.
    Stack { threshold: u32, floor: u32 },
}

impl<S: Copy> Clone for Work<S> {
    fn clone(&self) -> (r: Self)
        ensures
            r == *self,
    {
        *self
    }
}

/// The stage that a piece of work reports as.
pub open spec fn reported_as<S>(work: Work<S>) -> Stage {
    match work {
        Work::Register { .. } => Stage::Register,
        Work::Measure { .. } => Stage::Focus,
        Work::Weigh { .. } => Stage::Weights,
        Work::Fuse { .. } => Stage::Fuse,
        Work::Stack { .. } => Stage::Fuse,
    }
}

/// Does a piece of work leave a result?
pub open spec fn writes<S>(work: Work<S>) -> bool {
    work is Fuse || work is Stack
}

/// What a run does, in order.
pub open spec fn planned<S>(s: Settings<S>) -> Seq<Work<S>> {
    let register = Work::Register { level: s.registration_level };
    match s.method {
        Method::Local { fusion } => seq![
            register,
            Work::Measure { radius: s.focus_radius },
            Work::Weigh {
                radius: s.guide_radius,
                epsilon: s.guide_epsilon,
                space: s.guide_space,
            },
            Work::Fuse { fusion, floor: s.pyramid_floor },
        ],
        Method::Wavelet { consistency_threshold } => seq![
            register,
            Work::Stack { threshold: consistency_threshold, floor: s.pyramid_floor },
        ],
    }
}

impl<S: Sample> Settings<S> {
    /// What a run under these settings does, in order. The wavelet method decides by its
    /// own coefficients, so it needs neither focus maps nor weights.
    pub fn plan(&self) -> (r: Vec<Work<S>>)
        ensures
            r@ == planned(*self),
    {
        let register = Work::Register { level: self.registration_level };
        let r = match self.method {
            Method::Local { fusion } => vec![
                register,
                Work::Measure { radius: self.focus_radius },
                Work::Weigh {
                    radius: self.guide_radius,
                    epsilon: self.guide_epsilon,
                    space: self.guide_space,
                },
                Work::Fuse { fusion, floor: self.pyramid_floor },
            ],
            Method::Wavelet { consistency_threshold } => vec![
                register,
                Work::Stack { threshold: consistency_threshold, floor: self.pyramid_floor },
            ],
        };
        assert(r@ =~= planned(*self));
        r
    }
}

/// A run goes through its stages in order, and leaves its result last: nothing is written
/// before everything else is done.
pub proof fn lemma_runs_write_last<S>(s: Settings<S>, i: int, j: int)
    requires
        0 <= i < j < planned(s).len(),
    ensures
        place_of(reported_as(planned(s)[i])) < place_of(reported_as(planned(s)[j])),
        planned(s)[0] is Register,
        !writes(planned(s)[i]),
        writes(planned(s).last()),
{
}

/// How many stages a run has.
pub const STAGES: usize = 4;

/// A stage's place in a run.
pub open spec fn place_of(stage: Stage) -> int {
    match stage {
        Stage::Register => 0,
        Stage::Focus => 1,
        Stage::Weights => 2,
        Stage::Fuse => 3,
    }
}

fn stage_place(stage: Stage) -> (r: usize)
    ensures
        r == place_of(stage),
{
    match stage {
        Stage::Register => 0,
        Stage::Focus => 1,
        Stage::Weights => 2,
        Stage::Fuse => 3,
    }
}

/// How far a run is.
#[derive(Debug, PartialEq, Eq)]
pub struct Progress {
    /// The place of the stage that is running.
    pub stage: usize,
    pub done: usize,
    pub total: usize,
    /// Milliseconds into the run at which each stage finished; zero while it has not.
    pub finished_ms: Vec<u64>,
}

/// The stamp that a moment leaves. Zero means that a stage has not finished, so a stage
/// that finishes at once counts as one millisecond.
pub open spec fn stamp_of(now: u64) -> u64 {
    larger(now as int, 1) as u64
}

/// Stamps with the stages from one place up to another finished now; one that has a stamp
/// keeps it.
pub open spec fn stamped(ms: Seq<u64>, from: int, to: int, now: u64) -> Seq<u64> {
    Seq::new(
        ms.len(),
        |i: int|
            if from <= i < to && ms[i] == 0 {
                stamp_of(now)
            } else {
                ms[i]
            },
    )
}

/// The last stamp before a stage, or the start of the run.
pub open spec fn stamp_before(ms: Seq<u64>, n: int) -> u64
    decreases n,
{
    if n <= 0 {
        0
    } else if ms[n - 1] != 0 {
        ms[n - 1]
    } else {
        stamp_before(ms, n - 1)
    }
}

/// How long a stage took, once it has finished: from the stamp before it to its own.
pub open spec fn took(ms: Seq<u64>, i: int) -> Option<u64> {
    if ms[i] == 0 {
        None
    } else {
        Some(larger(ms[i] - stamp_before(ms, i), 0) as u64)
    }
}

impl Progress {
    /// A stage's place is one of four, and there is a stamp for each.
    pub open spec fn wf(&self) -> bool {
        self.stage < STAGES && self.finished_ms@.len() == STAGES
    }

    /// What holds at a moment of a run whose clock does not go back: the stages that have
    /// finished come first, the running one is not before any of them, and their stamps
    /// are in order and not in the future.
    pub open spec fn consistent(&self, now: u64) -> bool {
        let ms = self.finished_ms@;
        &&& self.wf()
        &&& forall|i: int, j: int|
            0 <= i <= j < STAGES && ms[j] != 0 ==> 0 < #[trigger] ms[i] <= #[trigger] ms[j]
        &&& forall|i: int| 0 <= i < self.stage ==> #[trigger] ms[i] != 0
        &&& forall|i: int| 0 <= i < STAGES ==> #[trigger] ms[i] <= stamp_of(now)
    }

    pub fn new() -> (r: Self)
        ensures
            r.wf(),
            r.stage == 0,
            r.done == 0,
            r.total == 0,
            forall|i: int| 0 <= i < STAGES ==> r.finished_ms@[i] == 0,
            forall|now: u64| r.consistent(now),
    {
        let mut finished_ms: Vec<u64> = Vec::new();
        finished_ms.push(0);
        finished_ms.push(0);
        finished_ms.push(0);
        finished_ms.push(0);
        Progress { stage: 0, done: 0, total: 0, finished_ms }
    }

    fn stamp(&mut self, from: usize, to: usize, now: u64)
        requires
            old(self).wf(),
            from <= to <= STAGES,
        ensures
            final(self).finished_ms@ == stamped(
                old(self).finished_ms@,
                from as int,
                to as int,
                now,
            ),
            final(self).stage == old(self).stage,
            final(self).done == old(self).done,
            final(self).total == old(self).total,
    {
        let ghost before = self.finished_ms@;
        let at = if now > 1 {
            now
        } else {
            1
        };
        let mut i: usize = from;
        assert(self.finished_ms@ =~= stamped(before, from as int, from as int, now));
        while i < to
            invariant
                from <= i <= to <= STAGES,
                before.len() == STAGES,
                at == stamp_of(now),
                self.finished_ms@ == stamped(before, from as int, i as int, now),
                self.stage == old(self).stage,
                self.done == old(self).done,
                self.total == old(self).total,
            decreases to - i,
        {
            if self.finished_ms[i] == 0 {
                self.finished_ms.set(i, at);
            }
            i += 1;
            assert(self.finished_ms@ =~= stamped(before, from as int, i as int, now));
        }
    }

    /// Takes a report from the pipeline. Stages only move forward, so reaching one
    /// finishes every stage before it, one that reported nothing included.
    pub fn report(&mut self, stage: Stage, done: usize, total: usize, now: u64)
        requires
            old(self).wf(),
        ensures
            final(self).wf(),
            final(self).stage == place_of(stage),
            final(self).done == done,
            final(self).total == total,
            final(self).finished_ms@ == stamped(
                old(self).finished_ms@,
                old(self).stage as int,
                place_of(stage),
                now,
            ),
    {
        let index = stage_place(stage);
        let previous = self.stage;
        if index > previous {
            self.stamp(previous, index, now);
        } else {
            assert(self.finished_ms@ =~= stamped(
                self.finished_ms@,
                previous as int,
                index as int,
                now,
            ));
        }
        self.stage = index;
        self.done = done;
        self.total = total;
    }

    /// Stamps whatever stage is still running as finished, when the run ends. Nothing
    /// comes after the last stage, so nothing else would.
    pub fn finish(&mut self, now: u64)
        requires
            old(self).wf(),
        ensures
            final(self).wf(),
            final(self).stage == old(self).stage,
            final(self).done == old(self).done,
            final(self).total == old(self).total,
            final(self).finished_ms@ == stamped(
                old(self).finished_ms@,
                0,
                old(self).stage + 1,
                now,
            ),
    {
        self.stamp(0, self.stage + 1, now);
    }

    /// How long each finished stage took.
    ///
    /// The stamps are cumulative, so they are differenced: each stage has its own
    /// duration rather than the time that had passed when it ended.
    pub fn stage_times(&self) -> (r: Vec<Option<u64>>)
        requires
            self.wf(),
        ensures
            r@ == Seq::new(STAGES as nat, |i: int| took(self.finished_ms@, i)),
    {
        let mut out: Vec<Option<u64>> = Vec::new();
        let mut previous: u64 = 0;
        let mut i: usize = 0;
        while i < STAGES
            invariant
                i <= STAGES,
                self.wf(),
                previous == stamp_before(self.finished_ms@, i as int),
                out@ == Seq::new(i as nat, |k: int| took(self.finished_ms@, k)),
            decreases STAGES - i,
        {
            let at = self.finished_ms[i];
            let own: Option<u64> = if at == 0 {
                None
            } else {
                let own = if at > previous {
                    at - previous
                } else {
                    0
                };
                previous = at;
                Some(own)
            };
            out.push(own);
            i += 1;
            assert(out@ =~= Seq::new(i as nat, |k: int| took(self.finished_ms@, k)));
        }
        out
    }
}

/// The time that the first `n` stages took together.
pub open spec fn total_took(ms: Seq<u64>, n: int) -> int
    decreases n,
{
    if n <= 0 {
        0
    } else {
        total_took(ms, n - 1) + (match took(ms, n - 1) {
            Some(t) => t as int,
            None => 0,
        })
    }
}

/// The stages' own times add up: together they are the moment at which the last finished
/// stage ended.
pub proof fn lemma_stage_times_add_up(p: Progress, now: u64, n: int)
    requires
        p.consistent(now),
        0 <= n <= STAGES,
    ensures
        total_took(p.finished_ms@, n) == stamp_before(p.finished_ms@, n),
    decreases n,
{
    if n > 0 {
        let ms = p.finished_ms@;
        lemma_stage_times_add_up(p, now, n - 1);
        lemma_stamp_before(ms, n - 1);
        if ms[n - 1] != 0 {
            let b = stamp_before(ms, n - 1);
            if b != 0 {
                let k = choose|k: int| 0 <= k < n - 1 && ms[k] == b;
                assert(ms[k] <= ms[n - 1]);
            }
        }
    }
}

/// The stamp before a stage is some stage's.
proof fn lemma_stamp_before(ms: Seq<u64>, n: int)
    requires
        0 <= n <= ms.len(),
    ensures
        stamp_before(ms, n) != 0 ==> exists|k: int|
            0 <= k < n && #[trigger] ms[k] == stamp_before(ms, n),
    decreases n,
{
    if n > 0 && ms[n - 1] == 0 {
        lemma_stamp_before(ms, n - 1);
        if stamp_before(ms, n) != 0 {
            let k = choose|k: int| 0 <= k < n - 1 && ms[k] == stamp_before(ms, n - 1);
            assert(ms[k] == stamp_before(ms, n));
        }
    } else if n > 0 {
        assert(ms[n - 1] == stamp_before(ms, n));
    }
}

/// Reports keep a run consistent as long as its clock does not go back.
pub proof fn lemma_reports_keep_order(before: Progress, after: Progress, stage: Stage, earlier: u64, now: u64)
    requires
        before.consistent(earlier),
        earlier <= now,
        after.wf(),
        after.stage == place_of(stage),
        after.finished_ms@ == stamped(
            before.finished_ms@,
            before.stage as int,
            place_of(stage),
            now,
        ),
    ensures
        after.consistent(now),
{
    let (a, b) = (before.finished_ms@, after.finished_ms@);
    assert forall|i: int, j: int| 0 <= i <= j < STAGES && b[j] != 0 implies 0 < #[trigger] b[i]
        <= #[trigger] b[j] by {
        assert(a[i] <= stamp_of(earlier));
        assert(a[j] <= stamp_of(earlier));
        if a[j] != 0 {
            assert(0 < a[i] <= a[j]);
        } else if i < before.stage {
            assert(a[i] != 0);
        }
    }
    assert forall|i: int| 0 <= i < after.stage implies #[trigger] b[i] != 0 by {
        if i < before.stage {
            assert(a[i] != 0);
        }
    }
    assert forall|i: int| 0 <= i < STAGES implies #[trigger] b[i] <= stamp_of(now) by {
        assert(a[i] <= stamp_of(earlier));
    }
}

/// A finished run shows every stage it reached as complete: four, where it reached the
/// last one.
pub proof fn lemma_finished_stages_have_times(before: Progress, after: Progress, now: u64, i: int)
    requires
        before.wf(),
        after.finished_ms@ == stamped(before.finished_ms@, 0, before.stage + 1, now),
        0 <= i <= before.stage,
    ensures
        took(after.finished_ms@, i) is Some,
{
}

/// A background job, seen from the thread that waits for it.
///
/// The job is over when its thread has exited, not when it has sent its result: one that
/// has posted its outcome is still cleaning up, and starting another into that cleanup
/// would collide with it.
#[derive(Debug, PartialEq, Eq)]
pub struct Job<T> {
    /// What the job has sent, until it is taken.
    pub outcome: Option<T>,
    /// Has the job's thread been collected?
    pub collected: bool,
}

impl<T> Job<T> {
    pub fn new() -> (r: Self)
        ensures
            r == (Job::<T> { outcome: None, collected: false }),
    {
        Job { outcome: None, collected: false }
    }

    /// Takes what has arrived, and comes back with the outcome once the thread has exited.
    /// A thread that ended without sending anything has `unsent` as its outcome.
    pub fn poll(&mut self, received: Option<T>, exited: bool, unsent: T) -> (r: Option<T>)
        ensures
            ({
                let held = match received {
                    Some(t) => Some(t),
                    None => old(self).outcome,
                };
                if exited && !old(self).collected {
                    &&& r == Some(
                        match held {
                            Some(t) => t,
                            None => unsent,
                        },
                    )
                    &&& *final(self) == (Job::<T> { outcome: None, collected: true })
                } else {
                    &&& r is None
                    &&& *final(self) == (Job::<T> {
                        outcome: held,
                        collected: old(self).collected,
                    })
                }
            }),
    {
        match received {
            Some(t) => {
                self.outcome = Some(t);
            },
            None => {},
        }
        if !exited || self.collected {
            return None;
        }
        self.collected = true;
        match self.outcome.take() {
            Some(t) => Some(t),
            None => Some(unsent),
        }
    }
}

/// What a stage does next.
#[derive(Debug, Clone, Copy, PartialEq, Eq, Structural)]
pub enum Step {
    /// Stop: the run was cancelled.
    Stop,
    /// Work on a frame.
    Frame(usize),
    /// Every frame is done.
    Finished,
}

/// A stage's walk over its frames, with a checkpoint before each of them.
#[derive(Debug, Clone, Copy, PartialEq, Eq, Structural)]
pub struct Walk {
    pub done: usize,
    pub total: usize,
}

/// What a walk does next, and where that leaves it.
pub open spec fn step_of(w: Walk, cancelled: bool) -> (Step, Walk) {
    if w.done == w.total {
        (Step::Finished, w)
    } else if cancelled {
        (Step::Stop, w)
    } else {
        (Step::Frame(w.done), Walk { done: (w.done + 1) as usize, total: w.total })
    }
}

impl Walk {
    pub open spec fn wf(&self) -> bool {
        self.done <= self.total
    }

    pub fn new(total: usize) -> (r: Self)
        ensures
            r.wf(),
            r == (Walk { done: 0, total }),
    {
        Walk { done: 0, total }
    }

    /// What to do next, given whether the run has been cancelled. A stage that is done
    /// stays done, whatever is asked of it.
    pub fn next(&mut self, cancelled: bool) -> (r: Step)
        requires
            old(self).wf(),
        ensures
            final(self).wf(),
            (r, *final(self)) == step_of(*old(self), cancelled),
    {
        if self.done == self.total {
            Step::Finished
        } else if cancelled {
            Step::Stop
        } else {
            let at = self.done;
            self.done = self.done + 1;
            Step::Frame(at)
        }
    }
}

/// How a stage's outcome reads as an error.
pub fn stopped(step: Step) -> (r: Result<(), Error>)
    ensures
        r == (if step is Stop {
            Err(Error::Cancelled)
        } else {
            Ok(())
        }),
{
    match step {
        Step::Stop => Err(Error::Cancelled),
        _ => Ok(()),
    }
}

/// A walk after `n` steps, given at each whether the run was cancelled.
pub open spec fn walk_after(total: usize, cancels: Seq<bool>, n: int) -> Walk
    decreases n,
{
    if n <= 0 {
        Walk { done: 0, total }
    } else {
        step_of(walk_after(total, cancels, n - 1), cancels[n - 1]).1
    }
}

/// The frames that the first `n` steps of a walk work on.
pub open spec fn walked(total: usize, cancels: Seq<bool>, n: int) -> Seq<usize>
    decreases n,
{
    if n <= 0 {
        seq![]
    } else {
        let before = walked(total, cancels, n - 1);
        match step_of(walk_after(total, cancels, n - 1), cancels[n - 1]).0 {
            Step::Frame(i) => before.push(i),
            _ => before,
        }
    }
}

/// A stage works on its frames in order, each at most once, and no more than there are;
/// cancelling only cuts the list short.
pub proof fn lemma_walk_is_in_order(total: usize, cancels: Seq<bool>, n: int, k: int)
    requires
        0 <= n <= cancels.len(),
    ensures
        walked(total, cancels, n).len() == walk_after(total, cancels, n).done <= total,
        walk_after(total, cancels, n).total == total,
        0 <= k < walked(total, cancels, n).len() ==> walked(total, cancels, n)[k] == k,
    decreases n,
{
    if n > 0 {
        lemma_walk_is_in_order(total, cancels, n - 1, k);
    }
}

} // verus!
