//! What a run will cost in memory, and how much of it we allow.
//!
//! A strip is the decoder's atomic unit, so a frame written as one strip is entirely
//! resident while its rows are read. The budget decides how many workers run, never what
//! they may keep: a worker genuinely needs its strip while it works. Nothing here refuses
//! on its own; the decision belongs to the caller.

use vstd::prelude::*;
use crate::image::{FrameInfo, BAND_ROWS};

verus! {

/// Floor for the memory limit, whatever the machine: sixteen gibibytes.
pub const LIMIT_FLOOR: u64 = 0x4_0000_0000;

/// The least memory a machine is taken to have: one gibibyte.
pub const RAM_FLOOR: u64 = 0x4000_0000;

/// Full-resolution RGB planes fusion holds at once.
pub const FUSION_PLANES: u64 = 5;

/// Banded working buffers the guided filter holds per thread. Fitted to measurements.
pub const WEIGHT_BAND_BUFFERS: u64 = 44;

/// Grid-sized buffers registration holds per thread, at its working pyramid level.
pub const REGISTRATION_GRID_BUFFERS: u64 = 39;

/// Scratch-plane bytes still dirty per frame when a stage peaks.
pub const SCRATCH_RESIDUE_PER_FRAME: u64 = 15_728_640;

/// The most threads a pool can have.
pub const THREADS_MAX: usize = 0xffff;

/// A quarter of the machine, but at least the floor, and at most nine tenths of it.
///
/// Without the ceiling the floor would exceed a small machine's own memory, and nothing
/// would ever warn where it matters most.
pub open spec fn limit_of(ram: int) -> int {
    crate::image::smaller(
        crate::image::larger(ram / 4, LIMIT_FLOOR as int),
        ram * 9 / 10,
    )
}

/// Physical memory in bytes, from `sysinfo::System::total_memory` on a fresh
/// `sysinfo::System` after `refresh_memory`; nothing where the system cannot be asked.
/// Nothing is claimed of the figure: it depends on the machine.
#[verifier::external_body]
fn reported_memory() -> (bytes: Option<u64>) {
    match sysinfo::System::new() {
        Ok(mut system) => {
            system.refresh_memory();
            Some(system.total_memory())
        },
        Err(_) => None,
    }
}

/// The width of the current thread pool, from `rayon::current_num_threads`. A pool never
/// has more than 65535 threads.
#[verifier::external_body]
fn pool_threads() -> (n: usize)
    ensures
        n <= THREADS_MAX,
{
    rayon::current_num_threads()
}

/// A pool of worker threads.
#[verifier::external_type_specification]
#[verifier::external_body]
pub struct ExThreadPool(rayon::ThreadPool);

/// A pool of this many threads, from `rayon::ThreadPoolBuilder::build`. Nothing is claimed
/// of it: whether the system gives the threads is not ours to say.
#[verifier::external_body]
fn build_pool(threads: usize) -> (r: Option<rayon::ThreadPool>) {
    rayon::ThreadPoolBuilder::new().num_threads(threads).build().ok()
}

/// `rayon::ThreadPool::install`: runs the work inside the pool, and returns what it
/// returns.
#[verifier::external_body]
fn install<R: Send, F: FnOnce() -> R + Send>(pool: &rayon::ThreadPool, work: F) -> (r: R)
    requires
        call_requires(work, ()),
    ensures
        call_ensures(work, (), r),
{
    pool.install(work)
}

/// The memory that a machine is taken to have, by what it reported.
pub open spec fn ram_from(reported: Option<u64>) -> u64 {
    match reported {
        Some(n) => if n >= RAM_FLOOR {
            n
        } else {
            RAM_FLOOR
        },
        None => RAM_FLOOR,
    }
}

/// Physical memory as it was reported, or one gibibyte if that is nothing sensible.
pub fn ram_of(reported: Option<u64>) -> (ram: u64)
    ensures
        ram == ram_from(reported),
        ram >= RAM_FLOOR,
{
    match reported {
        Some(n) => if n >= RAM_FLOOR {
            n
        } else {
            RAM_FLOOR
        },
        None => RAM_FLOOR,
    }
}

/// The machine that a run is on: it is asked once, and its answer is kept.
#[derive(Debug, Clone, Copy, PartialEq, Eq)]
pub struct Machine {
    ram: u64,
}

impl Machine {
    #[verifier::type_invariant]
    spec fn wf(&self) -> bool {
        self.ram >= RAM_FLOOR
    }

    /// The memory that the machine is taken to have.
    pub closed spec fn ram(&self) -> u64 {
        self.ram
    }

    /// Asks the machine for its memory. What holds of every answer is stated here; [`ram_of`]
    /// says what follows from which.
    pub fn ask() -> (r: Self)
        ensures
            exists|reported: Option<u64>| r.ram() == #[trigger] ram_from(reported),
    {
        Self::reporting(reported_memory())
    }

    /// A machine that reported this.
    pub fn reporting(reported: Option<u64>) -> (r: Self)
        ensures
            r.ram() == ram_from(reported),
    {
        Machine { ram: ram_of(reported) }
    }

    /// Physical memory as it was first reported, or one gibibyte if that was nothing sensible.
    pub fn total_ram(&self) -> (ram: u64)
        ensures
            ram == self.ram(),
            ram >= RAM_FLOOR,
    {
        proof {
            use_type_invariant(self);
        }
        self.ram
    }
}

/// How much memory a run may be predicted to need before the user is warned. It depends on
/// the machine's first answer alone, so every call on a machine gives the same.
pub fn limit_bytes(machine: &Machine) -> (limit: u64)
    ensures
        limit == limit_of(machine.ram() as int),
        limit >= 966_367_641,
{
    limit_for(machine.total_ram())
}

/// The limit lies between nine tenths of a gibibyte and nine tenths of the machine, whatever
/// the machine reported, and is no less on a larger one.
pub proof fn lemma_the_limit_has_bounds(reported: Option<u64>, more: Option<u64>)
    requires
        ram_from(reported) <= ram_from(more),
    ensures
        966_367_641 <= limit_of(ram_from(reported) as int) <= ram_from(reported) * 9 / 10,
        limit_of(ram_from(reported) as int) <= limit_of(ram_from(more) as int),
{
}

/// The limit on a machine with this much memory.
pub fn limit_for(ram: u64) -> (limit: u64)
    ensures
        limit == limit_of(ram as int),
        limit <= ram,
{
    let share: u64 = ram / 4;
    let floored: u64 = if share >= LIMIT_FLOOR {
        share
    } else {
        LIMIT_FLOOR
    };
    let ceiling: u64 = (ram as u128 * 9 / 10) as u64;
    if floored <= ceiling {
        floored
    } else {
        ceiling
    }
}

/// Everything the estimate depends on, read from headers rather than pixels.
#[derive(Debug, Clone, Copy, PartialEq, Eq, Structural)]
pub struct Workload {
    pub frames: usize,
    pub info: FrameInfo,
    /// What one open reader holds.
    pub cache_bytes_per_frame: u64,
    pub guide_radius: u32,
    pub registration_level: u32,
}

/// Bytes of one full-resolution plane.
pub open spec fn plane_cost(w: Workload) -> int {
    w.info.width * w.info.height * 4
}

/// Bytes of one band plus the halo the guided filter reads around it, at full width.
pub open spec fn band_cost(w: Workload) -> int {
    (BAND_ROWS + 4 * w.guide_radius) * w.info.width * 4
}

/// Bytes of one registration grid, at the level phase correlation works on.
pub open spec fn grid_cost(w: Workload) -> int {
    grid_edge(w.info.width, w.registration_level) * grid_edge(
        w.info.height,
        w.registration_level,
    ) * 4
}

/// An edge at a pyramid level; never less than one pixel.
pub open spec fn grid_edge(edge: u32, level: u32) -> int {
    crate::image::larger((edge >> level) as int, 1)
}

/// What each stage holds with `c` frames in flight on `t` threads.
pub open spec fn registration_cost(w: Workload, c: int, t: int) -> int {
    c * 2 * w.cache_bytes_per_frame + t * REGISTRATION_GRID_BUFFERS * grid_cost(w)
}

pub open spec fn focus_cost(w: Workload, c: int, t: int) -> int {
    c * w.cache_bytes_per_frame + t * 4 * band_cost(w)
}

pub open spec fn weights_cost(w: Workload, t: int) -> int {
    t * WEIGHT_BAND_BUFFERS * band_cost(w)
}

pub open spec fn fusion_cost(w: Workload) -> int {
    FUSION_PLANES * 3 * plane_cost(w) + w.cache_bytes_per_frame
}

/// Predicted peak. Stages run one after another, so the peak is the worst stage and not
/// the sum.
pub open spec fn predicted(w: Workload, c: int, t: int) -> int {
    w.frames * SCRATCH_RESIDUE_PER_FRAME + crate::image::larger(
        crate::image::larger(
            crate::image::larger(registration_cost(w, c, t), focus_cost(w, c, t)),
            weights_cost(w, t),
        ),
        fusion_cost(w),
    )
}

impl Workload {
    /// Describes a run from its first frame's header.
    pub fn probe(
        cache_bytes_per_frame: u64,
        frames: usize,
        info: FrameInfo,
        guide_radius: u32,
        registration_level: u32,
    ) -> (r: Self)
        ensures
            r == (Workload {
                frames,
                info,
                cache_bytes_per_frame,
                guide_radius,
                registration_level,
            }),
    {
        Workload { frames, info, cache_bytes_per_frame, guide_radius, registration_level }
    }

    pub fn plane_bytes(&self) -> (r: u64)
        requires
            plane_cost(*self) <= u64::MAX,
        ensures
            r == plane_cost(*self),
    {
        assert(self.info.width * self.info.height <= 0xffff_ffff * 0xffff_ffff)
            by (nonlinear_arith)
            requires
                self.info.width <= 0xffff_ffff,
                self.info.height <= 0xffff_ffff,
        ;
        self.info.width as u64 * self.info.height as u64 * 4
    }

    /// One band plus the halo the guided filter reads around it, at full width.
    pub fn band_bytes(&self) -> (r: u64)
        requires
            band_cost(*self) <= u64::MAX,
        ensures
            r == band_cost(*self),
    {
        let rows: u64 = BAND_ROWS as u64 + 4 * self.guide_radius as u64;
        rows * self.info.width as u64 * 4
    }

    /// One registration grid, at the level phase correlation works on.
    pub fn grid_bytes(&self) -> (r: u64)
        requires
            grid_cost(*self) <= u64::MAX,
            self.registration_level < 32,
        ensures
            r == grid_cost(*self),
    {
        let w: u32 = self.info.width >> self.registration_level;
        let h: u32 = self.info.height >> self.registration_level;
        let w: u64 = if w >= 1 {
            w as u64
        } else {
            1
        };
        let h: u64 = if h >= 1 {
            h as u64
        } else {
            1
        };
        assert(w * h <= 0xffff_ffff * 0xffff_ffff) by (nonlinear_arith)
            requires
                0 <= w <= 0xffff_ffff,
                0 <= h <= 0xffff_ffff,
        ;
        w * h * 4
    }
}

/// A prediction, and what it was judged against.
#[derive(Debug, Clone, Copy, PartialEq, Eq, Structural)]
pub struct Estimate {
    /// Predicted peak, in bytes.
    pub peak_bytes: u64,
    /// Frames read at once that this prediction assumes.
    pub concurrency: usize,
    /// The limit it was compared against.
    pub limit_bytes: u64,
    /// Whether parallelism had to be reduced to reach this prediction.
    pub reduced: bool,
}

impl Estimate {
    pub fn fits(&self) -> (r: bool)
        ensures
            r == (self.peak_bytes <= self.limit_bytes),
    {
        self.peak_bytes <= self.limit_bytes
    }
}

/// More frames in flight never cost less.
pub proof fn lemma_more_concurrency_costs_more(w: Workload, a: int, b: int, t: int)
    requires
        0 <= a <= b,
        0 <= t,
    ensures
        predicted(w, a, t) <= predicted(w, b, t),
{
    let cache = w.cache_bytes_per_frame as int;
    assert(a * 2 * cache <= b * 2 * cache) by (nonlinear_arith)
        requires
            0 <= a <= b,
            0 <= cache,
    ;
    assert(a * cache <= b * cache) by (nonlinear_arith)
        requires
            0 <= a <= b,
            0 <= cache,
    ;
}

/// More threads never cost less.
pub proof fn lemma_more_threads_cost_more(w: Workload, c: int, s: int, t: int)
    requires
        0 <= s <= t,
    ensures
        predicted(w, c, s) <= predicted(w, c, t),
{
    lemma_costs_are_not_negative(w);
    let (g, b) = (grid_cost(w), band_cost(w));
    assert(s * 39 * g <= t * 39 * g) by (nonlinear_arith)
        requires
            0 <= s <= t,
            0 <= g,
    ;
    assert(s * 4 * b <= t * 4 * b) by (nonlinear_arith)
        requires
            0 <= s <= t,
            0 <= b,
    ;
    assert(s * 44 * b <= t * 44 * b) by (nonlinear_arith)
        requires
            0 <= s <= t,
            0 <= b,
    ;
}

/// A larger run never costs less: more frames in flight, more threads, or both.
pub proof fn lemma_larger_runs_cost_more(w: Workload, a: int, b: int, s: int, t: int)
    requires
        0 <= a <= b,
        0 <= s <= t,
    ensures
        predicted(w, a, s) <= predicted(w, b, t),
{
    lemma_more_concurrency_costs_more(w, a, b, s);
    lemma_more_threads_cost_more(w, b, s, t);
}

/// Each frame more costs fifteen mebibytes, whatever else the run holds.
pub proof fn lemma_a_frame_costs_its_residue(w: Workload, c: int, t: int)
    requires
        w.frames < usize::MAX,
    ensures
        predicted(Workload { frames: (w.frames + 1) as usize, ..w }, c, t) == predicted(w, c, t)
            + 15 * 0x10_0000,
{
}

/// A larger frame cache never costs less.
pub proof fn lemma_larger_caches_cost_more(w: Workload, cache: u64, c: int, t: int)
    requires
        w.cache_bytes_per_frame <= cache,
        0 <= c,
    ensures
        predicted(w, c, t) <= predicted(Workload { cache_bytes_per_frame: cache, ..w }, c, t),
{
    let less = w.cache_bytes_per_frame;
    assert(c * 2 * less <= c * 2 * cache && c * less <= c * cache) by (nonlinear_arith)
        requires
            0 <= less <= cache,
            0 <= c,
    ;
}

proof fn lemma_costs_are_not_negative(w: Workload)
    ensures
        plane_cost(w) >= 0,
        band_cost(w) >= 0,
        grid_cost(w) >= 0,
{
    assert(plane_cost(w) >= 0) by (nonlinear_arith)
        requires
            plane_cost(w) == w.info.width * w.info.height * 4,
    ;
    assert(band_cost(w) >= 0) by (nonlinear_arith)
        requires
            band_cost(w) == (256 + 4 * w.guide_radius) * w.info.width * 4,
    ;
    let (x, y) = (
        grid_edge(w.info.width, w.registration_level),
        grid_edge(w.info.height, w.registration_level),
    );
    assert(x * y * 4 >= 0) by (nonlinear_arith)
        requires
            x >= 1,
            y >= 1,
    ;
}

/// Predicted peak for a workload run with `concurrency` frames in flight on `threads`.
pub fn estimate(workload: &Workload, concurrency: usize, threads: usize) -> (r: u64)
    requires
        workload.registration_level < 32,
        predicted(*workload, concurrency as int, threads as int) <= u64::MAX,
    ensures
        r == predicted(*workload, concurrency as int, threads as int),
{
    let ghost w = *workload;
    let c: u64 = concurrency as u64;
    let t: u64 = threads as u64;
    let cache: u64 = workload.cache_bytes_per_frame;
    proof {
        lemma_costs_are_not_negative(w);
        let (p, b, g) = (plane_cost(w), band_cost(w), grid_cost(w));
        let f = w.frames as int;
        assert(f * 15_728_640 >= 0);
        assert(c * 2 * cache >= 0 && t * 39 * g >= 0 && (t >= 1 ==> t * 39 * g >= g) && (t == 0 ==> t
            * 39 * g == 0)) by (nonlinear_arith)
            requires
                c >= 0,
                cache >= 0,
                t >= 0,
                g >= 0,
        ;
        assert(c * cache >= 0 && (t >= 1 ==> t * 4 * b >= b) && (t == 0 ==> t * 4 * b == 0 && t * 44 * b
            == 0)) by (nonlinear_arith)
            requires
                c >= 0,
                cache >= 0,
                t >= 0,
                b >= 0,
        ;
        assert(5 * 3 * p >= p) by (nonlinear_arith)
            requires
                p >= 0,
        ;
    }
    let scratch: u64 = workload.frames as u64 * SCRATCH_RESIDUE_PER_FRAME;
    // Where nothing runs, no thread holds a buffer, however large one would be.
    let (grid, band): (u64, u64) = if threads == 0 {
        (0, 0)
    } else {
        (workload.grid_bytes(), workload.band_bytes())
    };
    let plane: u64 = workload.plane_bytes();
    // Two readers a task: a pair alignment holds reference and target at once.
    let readers: u128 = c as u128 * 2 * cache as u128;
    let buffers: u128 = t as u128 * REGISTRATION_GRID_BUFFERS as u128;
    proof {
        lemma_wide_products(c, t, cache, grid, band);
    }
    let registration: u128 = readers + buffers * grid as u128;
    // One reader a task, plus the banded luma and energy buffers.
    let focus: u128 = c as u128 * cache as u128 + t as u128 * 4 * band as u128;
    // No frame readers: the guided filter works from scratch planes.
    let weights: u128 = t as u128 * WEIGHT_BAND_BUFFERS as u128 * band as u128;
    // Sequential, one frame at a time, so depth does not enter.
    let fusion: u128 = FUSION_PLANES as u128 * 3 * plane as u128 + cache as u128;
    let mut worst: u128 = registration;
    if focus > worst {
        worst = focus;
    }
    if weights > worst {
        worst = weights;
    }
    if fusion > worst {
        worst = fusion;
    }
    (scratch as u128 + worst) as u64
}

/// The largest parallelism, of at most `threads`, whose prediction stays under `limit`.
pub open spec fn best_concurrency(w: Workload, threads: int, limit: int, c: int) -> bool {
    &&& 1 <= c <= threads
    &&& c > 1 ==> predicted(w, c, threads) <= limit
    &&& forall|d: int| c < d <= threads ==> #[trigger] predicted(w, d, threads) > limit
}

/// The largest parallelism whose prediction fits a limit, and that prediction.
///
/// Never zero: a workload too large even single-threaded is reported as not fitting,
/// rather than made unrunnable.
pub fn fit_within(workload: &Workload, threads: usize, limit: u64) -> (r: Estimate)
    requires
        workload.registration_level < 32,
        threads >= 1,
        predicted(*workload, threads as int, threads as int) <= u64::MAX,
    ensures
        best_concurrency(*workload, threads as int, limit as int, r.concurrency as int),
        r.peak_bytes == predicted(*workload, r.concurrency as int, threads as int),
        r.limit_bytes == limit,
        r.reduced == (r.concurrency < threads),
{
    let mut concurrency: usize = threads;
    while concurrency > 1
        invariant
            1 <= concurrency <= threads,
            workload.registration_level < 32,
            predicted(*workload, threads as int, threads as int) <= u64::MAX,
            forall|d: int|
                concurrency < d <= threads ==> #[trigger] predicted(
                    *workload,
                    d,
                    threads as int,
                ) > limit,
        decreases concurrency,
    {
        proof {
            lemma_more_concurrency_costs_more(
                *workload,
                concurrency as int,
                threads as int,
                threads as int,
            );
        }
        let peak = estimate(workload, concurrency, threads);
        if peak <= limit {
            return Estimate {
                peak_bytes: peak,
                concurrency,
                limit_bytes: limit,
                reduced: concurrency < threads,
            };
        }
        concurrency -= 1;
    }
    proof {
        lemma_more_concurrency_costs_more(*workload, 1, threads as int, threads as int);
    }
    let peak = estimate(workload, 1, threads);
    Estimate { peak_bytes: peak, concurrency: 1, limit_bytes: limit, reduced: threads > 1 }
}

/// The largest parallelism whose prediction fits this machine, and that prediction.
pub fn fit(workload: &Workload, machine: &Machine) -> (r: Estimate)
    requires
        workload.registration_level < 32,
        predicted(*workload, THREADS_MAX as int, THREADS_MAX as int) <= u64::MAX,
    ensures
        r.limit_bytes == limit_of(machine.ram() as int),
        exists|threads: int|
            1 <= threads <= THREADS_MAX && #[trigger] best_concurrency(
                *workload,
                threads,
                r.limit_bytes as int,
                r.concurrency as int,
            ) && r.peak_bytes == predicted(*workload, r.concurrency as int, threads) && r.reduced
                == (r.concurrency < threads),
{
    let pool = pool_threads();
    let threads: usize = if pool >= 1 {
        pool
    } else {
        1
    };
    proof {
        lemma_more_threads_cost_more(
            *workload,
            threads as int,
            threads as int,
            THREADS_MAX as int,
        );
        lemma_more_concurrency_costs_more(
            *workload,
            threads as int,
            THREADS_MAX as int,
            THREADS_MAX as int,
        );
    }
    let limit = limit_bytes(machine);
    fit_within(workload, threads, limit)
}

/// A prediction fits at some parallelism only if it fits single-threaded, and what
/// [`fit_within`] picks fits whenever anything does.
pub proof fn lemma_best_concurrency_fits_if_anything_does(
    w: Workload,
    threads: int,
    limit: int,
    c: int,
    other: int,
)
    requires
        best_concurrency(w, threads, limit, c),
        1 <= other <= threads,
        predicted(w, other, threads) <= limit,
    ensures
        predicted(w, c, threads) <= limit,
        other <= c,
{
    if other > c {
        assert(predicted(w, other, threads) > limit);
    }
    lemma_more_concurrency_costs_more(w, 1, other, threads);
}

/// How many tasks of a given size a limit admits, on a pool of a given width.
pub open spec fn admitted(per_task: int, limit: int, threads: int) -> int {
    crate::image::clamped(limit / crate::image::larger(per_task, 1), 1, threads)
}

/// How many tasks each holding `per_task_bytes` of frame cache may run at once.
///
/// Never zero and never above the pool's width: a task larger than the whole limit is
/// admitted alone rather than refused.
pub fn workers_for(per_task_bytes: u64, limit: u64, threads: usize) -> (r: usize)
    requires
        threads >= 1,
    ensures
        r == admitted(per_task_bytes as int, limit as int, threads as int),
        1 <= r <= threads,
{
    let size: u64 = if per_task_bytes >= 1 {
        per_task_bytes
    } else {
        1
    };
    let fits: u64 = limit / size;
    if fits < 1 {
        1
    } else if fits > threads as u64 {
        threads
    } else {
        fits as usize
    }
}

/// How many tasks each holding `per_task_bytes` of frame cache may run at once here.
pub fn concurrency_for(per_task_bytes: u64, machine: &Machine) -> (r: usize)
    ensures
        exists|threads: int|
            1 <= threads <= THREADS_MAX && r == #[trigger] admitted(
                per_task_bytes as int,
                limit_of(machine.ram() as int),
                threads,
            ),
{
    let pool = pool_threads();
    let threads: usize = if pool >= 1 {
        pool
    } else {
        1
    };
    let limit = limit_bytes(machine);
    workers_for(per_task_bytes, limit, threads)
}

/// The width of the private pool that capped work needs, or nothing where the cap does
/// not bind and the work schedules on the pool it is already in.
pub fn private_pool(concurrency: usize, threads: usize) -> (r: Option<usize>)
    ensures
        r == (if concurrency >= threads {
            None
        } else {
            Some(crate::image::larger(concurrency as int, 1) as usize)
        }),
{
    if concurrency >= threads {
        None
    } else if concurrency >= 1 {
        Some(concurrency)
    } else {
        Some(1)
    }
}

/// Runs `work` with no more than `concurrency` threads, and returns what it returns.
///
/// Where the bound is not binding, the work is scheduled as it would have been without it.
/// Where the system gives no threads for a pool, losing the bound is better than losing the
/// run.
pub fn run_bounded<R: Send, F: FnOnce() -> R + Send>(concurrency: usize, work: F) -> (r: R)
    requires
        call_requires(work, ()),
    ensures
        call_ensures(work, (), r),
{
    match private_pool(concurrency, pool_threads()) {
        None => work(),
        Some(threads) => match build_pool(threads) {
            Some(pool) => install(&pool, work),
            None => work(),
        },
    }
}

/// The products the estimate forms stay inside 128 bits.
proof fn lemma_wide_products(c: u64, t: u64, cache: u64, grid: u64, band: u64)
    requires
        c * 2 * cache + t * 39 * grid <= u64::MAX,
        c * cache + t * 4 * band <= u64::MAX,
        t * 44 * band <= u64::MAX,
    ensures
        0 <= c * 2 * cache <= u64::MAX,
        0 <= t * 39 * grid <= u64::MAX,
        0 <= c * cache <= u64::MAX,
        0 <= t * 4 * band <= u64::MAX,
        0 <= t * 44 * band,
{
    assert(0 <= c * 2 * cache && 0 <= t * 39 * grid && 0 <= c * cache && 0 <= t * 4 * band && 0 <= t
        * 44 * band) by (nonlinear_arith);
}

} // verus!
