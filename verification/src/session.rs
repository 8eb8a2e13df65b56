//! The state of the stacking window: what is loaded, what is running, and what each
//! control does about it.
//!
//! Drawing and background threads stand outside. They hand in what happened and show what
//! comes back.

use vstd::prelude::*;
use crate::fusion::FusionKind;
use crate::image::FrameInfo;
use crate::pipeline::{method_token, Method};
use crate::reap::Reaped;
use crate::run::{Settings, STAGES};
use crate::sample::Sample;
use crate::text::same;

verus! {

/// A frame's thumbnail, or the reason there is none.
#[derive(Debug, PartialEq, Eq)]
pub enum Thumbnail {
    Pending,
    Ready,
    Failed(String),
}

/// A frame of the loaded stack.
#[derive(Debug, PartialEq, Eq)]
pub struct Frame {
    pub path: String,
    pub name: String,
    /// Would a run use it?
    pub included: bool,
    pub thumbnail: Thumbnail,
}

/// The paths of the frames that a run would use, among the first `n`.
pub open spec fn included_of(frames: Seq<Frame>, n: nat) -> Seq<String>
    decreases n,
{
    if n == 0 {
        seq![]
    } else {
        let before = included_of(frames, (n - 1) as nat);
        if frames[n - 1].included {
            before.push(frames[n - 1].path)
        } else {
            before
        }
    }
}

/// How many of the first `n` frames have been decoded, or could not be.
pub open spec fn arrived_of(frames: Seq<Frame>, n: nat) -> nat
    decreases n,
{
    if n == 0 {
        0
    } else {
        arrived_of(frames, (n - 1) as nat) + (if frames[n - 1].thumbnail is Pending {
            0nat
        } else {
            1nat
        })
    }
}

/// The frames a run would use, in order.
pub fn included_paths(frames: &Vec<Frame>) -> (r: Vec<String>)
    ensures
        r@ == included_of(frames@, frames@.len()),
{
    let mut out: Vec<String> = Vec::new();
    let mut i: usize = 0;
    while i < frames.len()
        invariant
            i <= frames@.len(),
            out@ == included_of(frames@, i as nat),
        decreases frames@.len() - i,
    {
        if frames[i].included {
            out.push(frames[i].path.clone());
        }
        i += 1;
    }
    out
}

/// How many frames a run would use.
pub fn included_count(frames: &Vec<Frame>) -> (r: usize)
    ensures
        r == included_of(frames@, frames@.len()).len(),
        r <= frames@.len(),
{
    let mut count: usize = 0;
    let mut i: usize = 0;
    while i < frames.len()
        invariant
            i <= frames@.len(),
            count <= i,
            count == included_of(frames@, i as nat).len(),
        decreases frames@.len() - i,
    {
        if frames[i].included {
            count += 1;
        }
        i += 1;
    }
    count
}

/// A loaded stack: its frames and their geometry, with thumbnails arriving over time.
#[derive(Debug, PartialEq, Eq)]
pub struct Loaded {
    pub name: String,
    pub info: FrameInfo,
    pub frames: Vec<Frame>,
    /// Thumbnails decoded so far, ready or failed.
    pub decoded: usize,
    /// Told apart from other loads by this, so that a superseded worker's results are
    /// dropped rather than landing in the wrong stack.
    pub id: u64,
}

/// How many frames have arrived does not depend on the rest of the list.
proof fn lemma_arrived_is_local(a: Seq<Frame>, b: Seq<Frame>, n: nat)
    requires
        forall|i: int|
            0 <= i < n ==> ((#[trigger] a[i]).thumbnail is Pending) == (b[i].thumbnail is Pending),
    ensures
        arrived_of(a, n) == arrived_of(b, n),
    decreases n,
{
    if n > 0 {
        lemma_arrived_is_local(a, b, (n - 1) as nat);
        assert((a[n - 1].thumbnail is Pending) == (b[n - 1].thumbnail is Pending));
    }
}

/// One more frame arrives.
proof fn lemma_one_arrives(a: Seq<Frame>, b: Seq<Frame>, at: int, n: nat)
    requires
        0 <= at < n,
        a[at].thumbnail is Pending,
        !(b[at].thumbnail is Pending),
        forall|i: int|
            0 <= i < n && i != at ==> ((#[trigger] a[i]).thumbnail is Pending) == (
            b[i].thumbnail is Pending),
    ensures
        arrived_of(b, n) == arrived_of(a, n) + 1,
    decreases n,
{
    if at == n - 1 {
        lemma_arrived_is_local(a, b, (n - 1) as nat);
    } else {
        lemma_one_arrives(a, b, at, (n - 1) as nat);
        assert((a[n - 1].thumbnail is Pending) == (b[n - 1].thumbnail is Pending));
    }
}

/// No more frames arrive than there are, and all of them only when none is pending.
proof fn lemma_arrived_bounds(frames: Seq<Frame>, n: nat)
    ensures
        arrived_of(frames, n) <= n,
        arrived_of(frames, n) == n <==> forall|i: int|
            0 <= i < n ==> !((#[trigger] frames[i]).thumbnail is Pending),
    decreases n,
{
    if n > 0 {
        lemma_arrived_bounds(frames, (n - 1) as nat);
        if arrived_of(frames, n) == n {
            assert forall|i: int| 0 <= i < n implies !((
            #[trigger] frames[i]).thumbnail is Pending) by {}
        } else if frames[n - 1].thumbnail is Pending {
            assert(frames[n - 1].thumbnail is Pending);
        } else {
            let i = choose|i: int|
                0 <= i < n - 1 && (#[trigger] frames[i]).thumbnail is Pending;
            assert(frames[i].thumbnail is Pending);
        }
    }
}

impl Loaded {
    /// Is the count of decoded thumbnails the number of frames that are not pending? It is
    /// as long as no frame's thumbnail comes twice.
    pub open spec fn counted(&self) -> bool {
        self.decoded == arrived_of(self.frames@, self.frames@.len())
    }

    /// A stack whose thumbnails are still to come. Every frame starts out included.
    pub fn new(name: String, info: FrameInfo, files: Vec<(String, String)>, id: u64) -> (r: Self)
        ensures
            r.counted(),
            r.name == name,
            r.info == info,
            r.id == id,
            r.decoded == 0,
            r.frames@.len() == files@.len(),
            forall|i: int|
                0 <= i < files@.len() ==> (#[trigger] r.frames@[i]) == (Frame {
                    path: files@[i].0,
                    name: files@[i].1,
                    included: true,
                    thumbnail: Thumbnail::Pending,
                }),
    {
        let mut frames: Vec<Frame> = Vec::new();
        let mut i: usize = 0;
        while i < files.len()
            invariant
                i <= files@.len(),
                frames@.len() == i,
                arrived_of(frames@, i as nat) == 0,
                forall|k: int|
                    0 <= k < i ==> (#[trigger] frames@[k]) == (Frame {
                        path: files@[k].0,
                        name: files@[k].1,
                        included: true,
                        thumbnail: Thumbnail::Pending,
                    }),
            decreases files@.len() - i,
        {
            let ghost before = frames@;
            let frame = Frame {
                path: files[i].0.clone(),
                name: files[i].1.clone(),
                included: true,
                thumbnail: Thumbnail::Pending,
            };
            frames.push(frame);
            proof {
                lemma_arrived_is_local(before, frames@, i as nat);
            }
            i += 1;
        }
        Loaded { name, info, frames, decoded: 0, id }
    }

    /// Takes a thumbnail that a worker has finished, and counts it. One from a superseded
    /// load is dropped.
    pub fn arrive(&mut self, id: u64, index: usize, thumbnail: Thumbnail)
        requires
            id == old(self).id ==> index < old(self).frames@.len(),
            old(self).decoded < usize::MAX,
            !(thumbnail is Pending),
        ensures
            id != old(self).id ==> *final(self) == *old(self),
            id == old(self).id ==> {
                let was = old(self).frames@[index as int];
                &&& final(self).frames@ == old(self).frames@.update(
                    index as int,
                    Frame { path: was.path, name: was.name, included: was.included, thumbnail },
                )
                &&& final(self).decoded == old(self).decoded + 1
                &&& final(self).name == old(self).name
                &&& final(self).info == old(self).info
                &&& final(self).id == old(self).id
                &&& old(self).counted() && was.thumbnail is Pending ==> final(self).counted()
            },
    {
        if id != self.id {
            return;
        }
        let ghost before = self.frames@;
        let frame = Frame {
            path: self.frames[index].path.clone(),
            name: self.frames[index].name.clone(),
            included: self.frames[index].included,
            thumbnail,
        };
        self.frames.set(index, frame);
        proof {
            if before[index as int].thumbnail is Pending {
                lemma_one_arrives(before, self.frames@, index as int, before.len());
            }
        }
        self.decoded = self.decoded + 1;
    }

    /// Are thumbnails still to come?
    pub fn is_loading(&self) -> (r: bool)
        ensures
            r == (self.decoded < self.frames@.len()),
    {
        self.decoded < self.frames.len()
    }

    /// Includes an excluded frame in the run, or the other way round. Nothing happens for
    /// a frame that is not there.
    pub fn toggle(&mut self, index: usize)
        ensures
            old(self).counted() ==> final(self).counted(),
            index >= old(self).frames@.len() ==> *final(self) == *old(self),
            index < old(self).frames@.len() ==> {
                let was = old(self).frames@[index as int];
                &&& final(self).frames@ == old(self).frames@.update(
                    index as int,
                    Frame {
                        path: was.path,
                        name: was.name,
                        included: !was.included,
                        thumbnail: was.thumbnail,
                    },
                )
                &&& final(self).decoded == old(self).decoded
                &&& final(self).name == old(self).name
                &&& final(self).info == old(self).info
                &&& final(self).id == old(self).id
            },
    {
        if index >= self.frames.len() {
            return;
        }
        let ghost before = self.frames@;
        let was = self.frames.remove(index);
        let frame = Frame {
            path: was.path,
            name: was.name,
            included: !was.included,
            thumbnail: was.thumbnail,
        };
        self.frames.insert(index, frame);
        proof {
            let after = self.frames@;
            assert(after =~= before.update(index as int, frame));
            lemma_arrived_is_local(before, after, before.len());
        }
    }
}

/// While no frame's thumbnail has come twice, a stack is loading exactly as long as some frame
/// is pending.
pub proof fn lemma_loading_lasts_until_every_frame_has_arrived(stack: Loaded)
    requires
        stack.counted(),
    ensures
        stack.decoded < stack.frames@.len() <==> exists|i: int|
            0 <= i < stack.frames@.len() && (#[trigger] stack.frames@[i]).thumbnail is Pending,
{
    lemma_arrived_bounds(stack.frames@, stack.frames@.len());
}

/// How a run ended.
#[derive(Debug, PartialEq, Eq)]
pub enum Outcome {
    /// Where the result is.
    Done(String),
    Cancelled,
    /// What went wrong.
    Failed(String),
}

/// How a finished run is announced.
#[derive(Debug, PartialEq, Eq)]
pub enum Headline {
    Finished,
    Cancelled,
    Failed(String),
}

/// A finished run, kept on screen until it is dismissed so that its timings can be read.
#[derive(Debug, PartialEq, Eq)]
pub struct Summary {
    pub headline: Headline,
    pub elapsed_ms: u64,
    /// How long each stage took.
    pub stages: Vec<Option<u64>>,
}

impl Summary {
    pub fn title(&self) -> (r: &'static str)
        ensures
            r@ == (match self.headline {
                Headline::Finished => "Finished"@,
                Headline::Cancelled => "Cancelled"@,
                Headline::Failed(_) => "Failed"@,
            }),
    {
        match &self.headline {
            Headline::Finished => "Finished",
            Headline::Cancelled => "Cancelled",
            Headline::Failed(_) => "Failed",
        }
    }

    /// The line under the title, where there is one.
    pub fn detail(&self) -> (r: Option<&str>)
        ensures
            match (self.headline, r) {
                (Headline::Finished, r) => r is None,
                (Headline::Cancelled, Some(text)) => text@
                    == "stopped before the output was written"@,
                (Headline::Failed(error), Some(text)) => text@ == error@,
                _ => false,
            },
    {
        match &self.headline {
            Headline::Finished => None,
            Headline::Cancelled => Some("stopped before the output was written"),
            Headline::Failed(error) => Some(error.as_str()),
        }
    }
}

/// Everything the window keeps between two passes.
#[derive(Debug, PartialEq, Eq)]
pub struct Session<S> {
    /// The frame that is shown.
    pub selected: usize,
    pub settings: Settings<S>,
    pub stack: Option<Loaded>,
    /// Is a run live? Cleared only once its worker has exited.
    pub running: bool,
    pub cancel_requested: bool,
    /// Names each run's scratch and output apart.
    pub run_sequence: u64,
    /// The result of the last successful run. It can be exported until the next run starts.
    pub result: Option<String>,
    /// Is the result shown in place of a frame?
    pub showing_result: bool,
    pub exporting: bool,
    /// Where the last export landed.
    pub exported: Option<String>,
    pub summary: Option<Summary>,
    /// What a sweep at the start reclaimed, if anything.
    pub reaped: Option<Reaped>,
    pub error: Option<String>,
}

/// The button that starts a run, and stops it once it is live.
#[derive(Debug, Clone, Copy, PartialEq, Eq, Structural)]
pub enum RunButton {
    Run { enabled: bool },
    Cancel { enabled: bool },
}

/// What stands at the right of the toolbar.
#[derive(Debug, PartialEq, Eq)]
pub enum Note<'a> {
    Error(&'a String),
    Stack {
        name: &'a String,
        included: usize,
        total: usize,
        /// Is something excluded? It is the difference between what is on screen and what
        /// a run would use.
        partial: bool,
        info: FrameInfo,
    },
    Empty,
}

/// The toolbar.
#[derive(Debug, PartialEq, Eq)]
pub struct Toolbar<'a> {
    pub open: bool,
    pub run: RunButton,
    pub export: bool,
    pub exporting: bool,
    pub note: Note<'a>,
}

/// The status line.
#[derive(Debug, PartialEq, Eq)]
pub enum Status<'a> {
    Stacking,
    Exporting,
    Saved(&'a String),
    Decoding { decoded: usize, total: usize },
    Decoded(usize),
    Reclaimed(Reaped),
    Ready,
}

/// What the preview pane shows.
#[derive(Debug, PartialEq, Eq)]
pub enum Pane<'a> {
    /// The fused result.
    Result(&'a String),
    Frame { index: usize, frame: &'a Frame },
    /// No folder has been opened.
    Welcome,
    Nothing,
}

/// One stage in the run dialog.
#[derive(Debug, Clone, Copy, PartialEq, Eq, Structural)]
pub enum Phase {
    Done,
    Now,
    Todo,
}

/// A row of the run dialog.
#[derive(Debug, Clone, Copy, PartialEq, Eq)]
pub struct Row {
    pub phase: Phase,
    /// Frames done and in all, for the stage that is running.
    pub progress: Option<(usize, usize)>,
    /// How long the stage took, where it has a time to show.
    pub took: Option<u64>,
}

/// The row of a stage, given the stage that is running.
pub open spec fn row_of(
    index: int,
    current: int,
    progress: Option<(usize, usize)>,
    took: Option<u64>,
) -> Row {
    Row {
        phase: if index < current {
            Phase::Done
        } else if index == current {
            Phase::Now
        } else {
            Phase::Todo
        },
        progress: if index == current {
            progress
        } else {
            None
        },
        took: if index == current && progress is Some {
            None
        } else {
            took
        },
    }
}

/// The rows of the run dialog: every stage at once, with only the current one moving. A
/// single bar that filled and emptied four times would read as a fault.
pub fn rows(current: usize, progress: Option<(usize, usize)>, times: &Vec<Option<u64>>) -> (r: Vec<
    Row,
>)
    requires
        times@.len() == STAGES,
    ensures
        r@ == Seq::new(
            STAGES as nat,
            |i: int| row_of(i, current as int, progress, times@[i]),
        ),
{
    let mut out: Vec<Row> = Vec::new();
    let mut i: usize = 0;
    while i < STAGES
        invariant
            i <= STAGES,
            times@.len() == STAGES,
            out@ == Seq::new(
                i as nat,
                |k: int| row_of(k, current as int, progress, times@[k]),
            ),
        decreases STAGES - i,
    {
        let phase = if i < current {
            Phase::Done
        } else if i == current {
            Phase::Now
        } else {
            Phase::Todo
        };
        let here = if i == current {
            progress
        } else {
            None
        };
        let took = if here.is_some() {
            None
        } else {
            times[i]
        };
        out.push(Row { phase, progress: here, took });
        i += 1;
        assert(out@ =~= Seq::new(
            i as nat,
            |k: int| row_of(k, current as int, progress, times@[k]),
        ));
    }
    out
}

/// A finished run draws every stage as complete.
pub proof fn lemma_finished_rows_are_done(times: Seq<Option<u64>>, i: int)
    requires
        0 <= i < STAGES,
    ensures
        row_of(i, STAGES as int, None, times[i]).phase is Done,
        row_of(i, STAGES as int, None, times[i]).took == times[i],
{
}

impl<S: Sample> Session<S> {
    /// A window with nothing loaded. What a sweep reclaimed is kept only if it is anything.
    pub fn new(reaped: Reaped) -> (r: Self)
        ensures
            r == (Session::<S> {
                selected: 0,
                settings: crate::run::standard_settings::<S>(),
                stack: None,
                running: false,
                cancel_requested: false,
                run_sequence: 0,
                result: None,
                showing_result: false,
                exporting: false,
                exported: None,
                summary: None,
                reaped: if reaped.entries > 0 {
                    Some(reaped)
                } else {
                    None
                },
                error: None,
            }),
    {
        Session {
            selected: 0,
            settings: Settings::standard(),
            stack: None,
            running: false,
            cancel_requested: false,
            run_sequence: 0,
            result: None,
            showing_result: false,
            exporting: false,
            exported: None,
            summary: None,
            reaped: if reaped.entries > 0 {
                Some(reaped)
            } else {
                None
            },
            error: None,
        }
    }

    /// A folder was chosen, and this is what loading it gave. The previous stack goes
    /// either way.
    pub fn open_folder(&mut self, loaded: Result<Loaded, String>)
        ensures
            *final(self) == (Session {
                selected: 0,
                stack: match loaded {
                    Ok(stack) => Some(stack),
                    Err(_) => None,
                },
                error: match loaded {
                    Ok(_) => None,
                    Err(e) => Some(e),
                },
                ..*old(self)
            }),
    {
        self.stack = None;
        self.selected = 0;
        match loaded {
            Ok(stack) => {
                self.error = None;
                self.stack = Some(stack);
            },
            Err(e) => {
                self.error = Some(e);
            },
        }
    }

    /// Plans a run: the frames it would use, under a new sequence number. A run needs at
    /// least two of them.
    pub fn plan_run(&mut self) -> (r: Option<Vec<String>>)
        requires
            old(self).run_sequence < u64::MAX,
        ensures
            match old(self).stack {
                None => r is None && *final(self) == *old(self),
                Some(stack) => {
                    let paths = included_of(stack.frames@, stack.frames@.len());
                    if paths.len() < 2 {
                        &&& r is None
                        &&& final(self).error matches Some(e) && e@
                            == "a run needs at least two included frames"@
                        &&& *final(self) == (Session { error: final(self).error, ..*old(self) })
                    } else {
                        &&& r matches Some(frames) && frames@ == paths
                        &&& *final(self) == (Session {
                            run_sequence: (old(self).run_sequence + 1) as u64,
                            ..*old(self)
                        })
                    }
                },
            },
    {
        let frames = match &self.stack {
            None => {
                return None;
            },
            Some(stack) => included_paths(&stack.frames),
        };
        if frames.len() < 2 {
            self.error = Some("a run needs at least two included frames".to_owned());
            return None;
        }
        self.run_sequence = self.run_sequence + 1;
        Some(frames)
    }

    /// The run was started, or could not be. One that could not leaves everything but the
    /// error as it was.
    pub fn run_started(&mut self, started: Result<(), String>)
        ensures
            *final(self) == (match started {
                Ok(()) => Session {
                    error: None,
                    result: None,
                    showing_result: false,
                    exported: None,
                    summary: None,
                    running: true,
                    cancel_requested: false,
                    ..*old(self)
                },
                Err(e) => Session { error: Some(e), ..*old(self) },
            }),
    {
        match started {
            Ok(()) => {
                self.error = None;
                self.result = None;
                self.showing_result = false;
                self.exported = None;
                self.summary = None;
                self.running = true;
                self.cancel_requested = false;
            },
            Err(e) => {
                self.error = Some(e);
            },
        }
    }

    /// Cancel was pressed. It shows at once, before the pipeline notices.
    pub fn cancel(&mut self)
        ensures
            *final(self) == (Session { cancel_requested: true, ..*old(self) }),
    {
        self.cancel_requested = true;
    }

    /// A run's worker has exited. A cancelled run has produced no output and leaves the
    /// view as it was.
    pub fn run_ended(&mut self, outcome: Outcome, elapsed_ms: u64, stages: Vec<Option<u64>>)
        ensures
            *final(self) == (Session {
                running: false,
                summary: Some(
                    Summary {
                        headline: match outcome {
                            Outcome::Done(_) => Headline::Finished,
                            Outcome::Cancelled => Headline::Cancelled,
                            Outcome::Failed(e) => Headline::Failed(e),
                        },
                        elapsed_ms,
                        stages,
                    },
                ),
                result: match outcome {
                    Outcome::Done(path) => Some(path),
                    _ => old(self).result,
                },
                showing_result: outcome is Done || old(self).showing_result,
                error: match outcome {
                    Outcome::Failed(e) => Some(e),
                    _ => old(self).error,
                },
                ..*old(self)
            }),
    {
        self.running = false;
        let headline = match outcome {
            Outcome::Done(path) => {
                self.result = Some(path);
                self.showing_result = true;
                Headline::Finished
            },
            Outcome::Cancelled => Headline::Cancelled,
            Outcome::Failed(e) => {
                self.error = Some(e.clone());
                Headline::Failed(e)
            },
        };
        self.summary = Some(Summary { headline, elapsed_ms, stages });
    }

    /// The name to offer for an export, where there is something to export.
    pub fn suggested_name(&self) -> (r: Option<String>)
        ensures
            match self.result {
                None => r is None,
                Some(_) => r matches Some(name) && name@ == (match self.stack {
                    Some(stack) => stack.name@ + "_stacked.tif"@,
                    None => "stacked.tif"@,
                }),
            },
    {
        match &self.result {
            None => None,
            Some(_) => match &self.stack {
                Some(stack) => {
                    let mut name = stack.name.clone();
                    name.append("_stacked.tif");
                    Some(name)
                },
                None => Some("stacked.tif".to_owned()),
            },
        }
    }

    /// An export was begun, or refused with a reason.
    pub fn export_started(&mut self, started: Result<(), String>)
        ensures
            *final(self) == (match started {
                Ok(()) => Session { error: None, exported: None, exporting: true, ..*old(self) },
                Err(refusal) => Session { error: Some(refusal), ..*old(self) },
            }),
    {
        match started {
            Ok(()) => {
                self.error = None;
                self.exported = None;
                self.exporting = true;
            },
            Err(refusal) => {
                self.error = Some(refusal);
            },
        }
    }

    /// An export has ended. The result lives where it was saved from then on: the
    /// temporary copy is gone.
    pub fn export_ended(&mut self, saved: Result<String, String>)
        ensures
            *final(self) == (match saved {
                Ok(path) => Session {
                    exporting: false,
                    result: Some(path),
                    exported: Some(path),
                    ..*old(self)
                },
                Err(e) => Session { exporting: false, error: Some(e), ..*old(self) },
            }),
    {
        self.exporting = false;
        match saved {
            Ok(path) => {
                self.result = Some(path.clone());
                self.exported = Some(path);
            },
            Err(e) => {
                self.error = Some(e);
            },
        }
    }

    /// A frame was picked, which leaves the view of the fused result. The result is still
    /// there to export.
    pub fn select(&mut self, index: usize)
        ensures
            *final(self) == (Session { selected: index, showing_result: false, ..*old(self) }),
            final(self).result == old(self).result,
    {
        self.selected = index;
        self.showing_result = false;
    }

    /// A frame's badge was clicked.
    pub fn toggle(&mut self, index: usize)
        ensures
            *final(self) == (Session { stack: final(self).stack, ..*old(self) }),
            match (old(self).stack, final(self).stack) {
                (Some(before), Some(after)) => {
                    &&& after.frames@.len() == before.frames@.len()
                    &&& forall|i: int|
                        0 <= i < before.frames@.len() ==> {
                            let (a, b) = (before.frames@[i], #[trigger] after.frames@[i]);
                            &&& b.included == (a.included != (i == index))
                            &&& b.path == a.path
                            &&& b.name == a.name
                            &&& b.thumbnail == a.thumbnail
                        }
                    &&& after.decoded == before.decoded
                    &&& after.name == before.name
                    &&& after.info == before.info
                    &&& after.id == before.id
                },
                (None, None) => true,
                _ => false,
            },
    {
        match self.stack.take() {
            Some(stack) => {
                let mut stack = stack;
                stack.toggle(index);
                self.stack = Some(stack);
            },
            None => {},
        }
    }

    /// The error was acknowledged.
    pub fn dismiss_error(&mut self)
        ensures
            *final(self) == (Session { error: None, ..*old(self) }),
    {
        self.error = None;
    }

    /// The finished run was dismissed.
    pub fn dismiss_summary(&mut self)
        ensures
            *final(self) == (Session { summary: None, ..*old(self) }),
    {
        self.summary = None;
    }

    /// The toolbar. Everything but Cancel is dead while a run is live: the settings it was
    /// started with are fixed, and a second run would collide with it.
    pub fn toolbar(&self) -> (r: Toolbar)
        ensures
            r.open == !self.running,
            r.run == (if self.running {
                RunButton::Cancel { enabled: !self.cancel_requested }
            } else {
                RunButton::Run { enabled: self.stack is Some }
            }),
            r.export == (!self.running && !self.exporting && self.result is Some),
            r.exporting == self.exporting,
            match (self.error, self.stack) {
                (Some(e), _) => r.note == Note::Error(&e),
                (None, Some(stack)) => {
                    let included = included_of(stack.frames@, stack.frames@.len()).len();
                    r.note == (Note::Stack {
                        name: &stack.name,
                        included: included as usize,
                        total: stack.frames@.len() as usize,
                        partial: included != stack.frames@.len(),
                        info: stack.info,
                    })
                },
                (None, None) => r.note == Note::Empty,
            },
    {
        let run = if self.running {
            RunButton::Cancel { enabled: !self.cancel_requested }
        } else {
            RunButton::Run { enabled: self.stack.is_some() }
        };
        let note = match (&self.error, &self.stack) {
            (Some(e), _) => Note::Error(e),
            (None, Some(stack)) => {
                let included = included_count(&stack.frames);
                let total = stack.frames.len();
                Note::Stack {
                    name: &stack.name,
                    included,
                    total,
                    partial: included != total,
                    info: stack.info,
                }
            },
            (None, None) => Note::Empty,
        };
        Toolbar {
            open: !self.running,
            run,
            export: !self.running && !self.exporting && self.result.is_some(),
            exporting: self.exporting,
            note,
        }
    }

    /// The status line. A run shows neither progress nor a clock there: the dialog that is
    /// on screen has both.
    pub fn status(&self) -> (r: Status)
        ensures
            if self.running {
                r == Status::Stacking
            } else if self.exporting {
                r == Status::Exporting
            } else {
                match (self.exported, self.stack) {
                    (Some(path), _) => r == Status::Saved(&path),
                    (None, Some(stack)) => r == (if stack.decoded < stack.frames@.len() {
                        Status::Decoding {
                            decoded: stack.decoded,
                            total: stack.frames@.len() as usize,
                        }
                    } else {
                        Status::Decoded(stack.decoded)
                    }),
                    (None, None) => r == (match self.reaped {
                        Some(reaped) => Status::Reclaimed(reaped),
                        None => Status::Ready,
                    }),
                }
            },
    {
        if self.running {
            return Status::Stacking;
        }
        if self.exporting {
            return Status::Exporting;
        }
        match (&self.exported, &self.stack) {
            (Some(path), _) => Status::Saved(path),
            (None, Some(stack)) => if stack.decoded < stack.frames.len() {
                Status::Decoding { decoded: stack.decoded, total: stack.frames.len() }
            } else {
                Status::Decoded(stack.decoded)
            },
            (None, None) => match self.reaped {
                Some(reaped) => Status::Reclaimed(reaped),
                None => Status::Ready,
            },
        }
    }

    /// What the preview pane shows. A finished run takes it over until a frame is picked.
    pub fn pane(&self) -> (r: Pane)
        ensures
            match (self.result, self.showing_result, self.stack) {
                (Some(path), true, _) => r == Pane::Result(&path),
                (_, _, Some(stack)) => if self.selected < stack.frames@.len() {
                    r == (Pane::Frame {
                        index: self.selected,
                        frame: &stack.frames@[self.selected as int],
                    })
                } else {
                    r == Pane::Nothing
                },
                (_, _, None) => r == Pane::Welcome,
            },
    {
        match (&self.result, self.showing_result, &self.stack) {
            (Some(path), true, _) => Pane::Result(path),
            (_, _, Some(stack)) => if self.selected < stack.frames.len() {
                Pane::Frame { index: self.selected, frame: &stack.frames[self.selected] }
            } else {
                Pane::Nothing
            },
            (_, _, None) => Pane::Welcome,
        }
    }
}

/// A control of the parameter panel.
#[derive(Debug, Clone, Copy, PartialEq, Eq, Structural)]
pub enum Control {
    RegistrationLevel,
    FocusRadius,
    GuideRadius,
    GuideEpsilon,
    GuideSpace,
    SalienceRadius,
    ConsistencyThreshold,
    PyramidFloor,
}

/// Does a method read what a control sets?
pub open spec fn reads(method: Method, control: Control) -> bool {
    match control {
        Control::RegistrationLevel => true,
        Control::FocusRadius => method is Local,
        Control::GuideRadius => method is Local,
        Control::GuideEpsilon => method is Local,
        Control::GuideSpace => method is Local,
        Control::SalienceRadius => match method {
            Method::Local { fusion } => fusion is Select,
            Method::Wavelet { .. } => false,
        },
        Control::ConsistencyThreshold => method is Wavelet,
        Control::PyramidFloor => true,
    }
}

/// A group of controls.
#[derive(Debug, Clone, Copy, PartialEq, Eq, Structural)]
pub enum Group {
    Registration,
    FocusMeasure,
    WeightRefinement,
    Fusion,
    CoefficientSelection,
}

/// What stands in the parameter panel.
#[derive(Debug, Clone, Copy, PartialEq, Eq, Structural)]
pub enum Entry {
    /// What the method is good for. On screen, not only in a tooltip.
    Summary,
    Heading(Group),
    Control(Control),
}

/// The panel, from top to bottom.
pub open spec fn panel(method: Method) -> Seq<Entry> {
    match method {
        Method::Local { fusion } => {
            let top = seq![
                Entry::Summary,
                Entry::Heading(Group::Registration),
                Entry::Control(Control::RegistrationLevel),
                Entry::Heading(Group::FocusMeasure),
                Entry::Control(Control::FocusRadius),
                Entry::Heading(Group::WeightRefinement),
                Entry::Control(Control::GuideRadius),
                Entry::Control(Control::GuideEpsilon),
                Entry::Control(Control::GuideSpace),
                Entry::Heading(Group::Fusion),
            ];
            match fusion {
                FusionKind::Select { .. } => top + seq![
                    Entry::Control(Control::SalienceRadius),
                    Entry::Control(Control::PyramidFloor),
                ],
                FusionKind::Blend => top + seq![Entry::Control(Control::PyramidFloor)],
            }
        },
        Method::Wavelet { .. } => seq![
            Entry::Summary,
            Entry::Heading(Group::Registration),
            Entry::Control(Control::RegistrationLevel),
            Entry::Heading(Group::CoefficientSelection),
            Entry::Control(Control::ConsistencyThreshold),
            Entry::Control(Control::PyramidFloor),
        ],
    }
}

/// The panel, from top to bottom. A control for a stage that the method never runs would do
/// nothing, so it has none.
pub fn parameters(method: Method) -> (r: Vec<Entry>)
    ensures
        r@ == panel(method),
{
    let mut out: Vec<Entry> = Vec::new();
    out.push(Entry::Summary);
    out.push(Entry::Heading(Group::Registration));
    out.push(Entry::Control(Control::RegistrationLevel));
    match method {
        Method::Local { fusion } => {
            out.push(Entry::Heading(Group::FocusMeasure));
            out.push(Entry::Control(Control::FocusRadius));
            out.push(Entry::Heading(Group::WeightRefinement));
            out.push(Entry::Control(Control::GuideRadius));
            out.push(Entry::Control(Control::GuideEpsilon));
            out.push(Entry::Control(Control::GuideSpace));
            out.push(Entry::Heading(Group::Fusion));
            match fusion {
                FusionKind::Select { .. } => {
                    out.push(Entry::Control(Control::SalienceRadius));
                },
                FusionKind::Blend => {},
            }
        },
        Method::Wavelet { .. } => {
            out.push(Entry::Heading(Group::CoefficientSelection));
            out.push(Entry::Control(Control::ConsistencyThreshold));
        },
    }
    out.push(Entry::Control(Control::PyramidFloor));
    assert(out@ =~= panel(method));
    out
}

/// The panel shows the method's summary and exactly the controls that the method reads, and
/// nothing twice.
pub proof fn lemma_the_panel_is_what_the_method_reads(method: Method, c: Control)
    ensures
        panel(method).contains(Entry::Summary),
        panel(method).contains(Entry::Control(c)) <==> reads(method, c),
        panel(method).no_duplicates(),
{
    let s = panel(method);
    assert(s[0] == Entry::Summary);
    if reads(method, c) {
        match c {
            Control::RegistrationLevel => assert(s[2] == Entry::Control(c)),
            Control::FocusRadius => assert(s[4] == Entry::Control(c)),
            Control::GuideRadius => assert(s[6] == Entry::Control(c)),
            Control::GuideEpsilon => assert(s[7] == Entry::Control(c)),
            Control::GuideSpace => assert(s[8] == Entry::Control(c)),
            Control::SalienceRadius => assert(s[10] == Entry::Control(c)),
            Control::ConsistencyThreshold => assert(s[4] == Entry::Control(c)),
            Control::PyramidFloor => assert(s[s.len() - 1] == Entry::Control(c)),
        }
    }
}

/// What a group is called.
pub fn group_label(group: Group) -> (r: &'static str)
    ensures
        r@ == (match group {
            Group::Registration => "Registration"@,
            Group::FocusMeasure => "Focus measure"@,
            Group::WeightRefinement => "Weight refinement"@,
            Group::Fusion => "Fusion"@,
            Group::CoefficientSelection => "Coefficient selection"@,
        }),
{
    match group {
        Group::Registration => "Registration",
        Group::FocusMeasure => "Focus measure",
        Group::WeightRefinement => "Weight refinement",
        Group::Fusion => "Fusion",
        Group::CoefficientSelection => "Coefficient selection",
    }
}

/// What a control is called.
pub fn control_label(control: Control) -> (r: &'static str)
    ensures
        r@ == (match control {
            Control::RegistrationLevel => "level"@,
            Control::FocusRadius => "radius"@,
            Control::GuideRadius => "guide radius"@,
            Control::GuideEpsilon => "epsilon"@,
            Control::GuideSpace => "guide:"@,
            Control::SalienceRadius => "salience radius"@,
            Control::ConsistencyThreshold => "consistency threshold"@,
            Control::PyramidFloor => "decomposition floor"@,
        }),
{
    match control {
        Control::RegistrationLevel => "level",
        Control::FocusRadius => "radius",
        Control::GuideRadius => "guide radius",
        Control::GuideEpsilon => "epsilon",
        Control::GuideSpace => "guide:",
        Control::SalienceRadius => "salience radius",
        Control::ConsistencyThreshold => "consistency threshold",
        Control::PyramidFloor => "decomposition floor",
    }
}

/// The whole numbers that a control offers, where it offers whole numbers.
pub fn control_range(control: Control) -> (r: Option<(u32, u32)>)
    ensures
        r == (match control {
            Control::RegistrationLevel => Some((0u32, 5u32)),
            Control::FocusRadius => Some((1u32, 16u32)),
            Control::GuideRadius => Some((1u32, 16u32)),
            Control::GuideEpsilon => None,
            Control::GuideSpace => None,
            Control::SalienceRadius => Some((0u32, 4u32)),
            Control::ConsistencyThreshold => Some((0u32, 8u32)),
            Control::PyramidFloor => Some((8u32, 128u32)),
        }),
{
    match control {
        Control::RegistrationLevel => Some((0, 5)),
        Control::FocusRadius => Some((1, 16)),
        Control::GuideRadius => Some((1, 16)),
        Control::GuideEpsilon => None,
        Control::GuideSpace => None,
        Control::SalienceRadius => Some((0, 4)),
        Control::ConsistencyThreshold => Some((0, 8)),
        Control::PyramidFloor => Some((8, 128)),
    }
}

/// The method after an entry of the list was clicked. Entries are told apart by method, not
/// by value: clicking the one that is selected keeps its tuned parameters.
pub fn choose_method(current: Method, clicked: Method) -> (r: Method)
    ensures
        r == (if method_token(current) == method_token(clicked) {
            current
        } else {
            clicked
        }),
{
    if same(current.token(), clicked.token()) {
        current
    } else {
        clicked
    }
}

} // verus!
