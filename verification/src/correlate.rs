//! Aligning a frame with its neighbour by phase correlation.
//!
//! The Fourier transform, the magnitude of a bin and the window are the caller's. What is
//! done with them is stated here.

use vstd::prelude::*;
use crate::drive::Halt;
use crate::grid::{coarse, Grid};
use crate::image::{two_to, FrameInfo};
use crate::pipeline::{
    broken_off, identity_of, may_cancel, may_continue, rounds, Checkpoints, RunControl, Stage,
    Transform,
};
use crate::plane::{whole_sheet, Sheet};
use crate::reading::{readable, reads_from, unread};
use crate::registration::{
    chain, cross_power, cross_spectrum, displacement, displacement_of, lemma_pairs_are_neighbours,
    padded_edge, pair_of, pairs, placed, power_for, prepare, prepared, scale_up, whiten, whitened,
    PhaseCorrelation, Phasor,
};
use crate::sample::Sample;

verus! {

/// Real samples as complex ones.
pub open spec fn plain_bins<S: Sample>(samples: Seq<S>) -> Seq<Phasor<S>> {
    samples.map_values(|v: S| Phasor { re: v, im: S::spec_whole(0) })
}

/// Could transforming these bins, forwards or back, give those?
pub open spec fn transforms<S, T: Fn(Vec<Phasor<S>>, bool) -> Vec<Phasor<S>>>(
    fourier: &T,
    bins: Seq<Phasor<S>>,
    back: bool,
    out: Seq<Phasor<S>>,
) -> bool {
    exists|v: Vec<Phasor<S>>, o: Vec<Phasor<S>>| #[trigger]
        call_ensures(*fourier, (v, back), o) && v@ == bins && o@ == out
}

/// Could these be the bins' magnitudes?
pub open spec fn measures<S, N: Fn(Phasor<S>) -> S>(
    norm: &N,
    bins: Seq<Phasor<S>>,
    mags: Seq<S>,
) -> bool {
    &&& mags.len() == bins.len()
    &&& forall|i: int|
        0 <= i < bins.len() ==> call_ensures(*norm, (bins[i],), #[trigger] mags[i])
}

/// Could this be the displacement of one grid against another? It stands at the impulse
/// that the whitened cross-power spectrum turns into.
pub open spec fn correlated<
    S: Sample,
    T: Fn(Vec<Phasor<S>>, bool) -> Vec<Phasor<S>>,
    N: Fn(Phasor<S>) -> S,
>(
    a: Sheet<S>,
    b: Sheet<S>,
    across: Seq<S>,
    down: Seq<S>,
    fw: int,
    fh: int,
    fourier: &T,
    norm: &N,
    r: (S, S),
) -> bool {
    exists|
        sa: Seq<Phasor<S>>,
        sb: Seq<Phasor<S>>,
        mags: Seq<S>,
        impulse: Seq<Phasor<S>>,
        peaks: Seq<S>,
    |
        {
            &&& #[trigger] transforms(fourier, plain_bins(prepared(a, across, down, fw, fh)), false, sa)
            &&& #[trigger] transforms(fourier, plain_bins(prepared(b, across, down, fw, fh)), false, sb)
            &&& #[trigger] measures(norm, cross_spectrum(sa, sb), mags)
            &&& #[trigger] transforms(
                fourier,
                whitened(cross_spectrum(sa, sb), mags),
                true,
                impulse,
            )
            &&& #[trigger] measures(norm, impulse, peaks)
            &&& r == displacement_of(peaks, fw, fh)
        }
}

/// A Fourier transform that takes any bins, and gives as many.
pub open spec fn fourier_fits<S, T: Fn(Vec<Phasor<S>>, bool) -> Vec<Phasor<S>>>(fourier: &T) -> bool {
    &&& forall|v: Vec<Phasor<S>>, back: bool| #[trigger] call_requires(*fourier, (v, back))
    &&& forall|v: Vec<Phasor<S>>, back: bool, o: Vec<Phasor<S>>| #[trigger]
        call_ensures(*fourier, (v, back), o) ==> o@.len() == v@.len()
}

/// Does a padded grid of this size fit the transform?
pub open spec fn paddable(width: u32, height: u32) -> bool {
    &&& width + width / 2 <= 0x4000_0000
    &&& height + height / 2 <= 0x4000_0000
    &&& forall|p: int, q: int|
        #[trigger] power_for(width + width / 2, p) && #[trigger] power_for(height + height / 2, q)
            ==> p * q <= usize::MAX
}

/// Padding a short edge gives a short edge.
proof fn lemma_padded_is_short(n: int, p: int)
    requires
        power_for(n, p),
        n <= 0x4000_0000,
    ensures
        1 <= p <= 0x4000_0000,
{
    let k = choose|k: nat|
        p == #[trigger] two_to(k) && p >= n && (k > 0 ==> two_to((k - 1) as nat) < n);
    crate::image::lemma_two_to_grows(0, k);
    if k > 30 {
        reveal_with_fuel(two_to, 31);
        assert(two_to(30) == 0x4000_0000);
        crate::image::lemma_two_to_grows(30, (k - 1) as nat);
    } else {
        reveal_with_fuel(two_to, 31);
        assert(two_to(30) == 0x4000_0000);
        crate::image::lemma_two_to_grows(k, 30);
    }
}

fn as_real<S: Sample>(samples: &Vec<S>) -> (out: Vec<Phasor<S>>)
    ensures
        out@ == plain_bins(samples@),
{
    let zero = S::whole(0);
    let mut out: Vec<Phasor<S>> = Vec::with_capacity(samples.len());
    let mut i: usize = 0;
    while i < samples.len()
        invariant
            i <= samples@.len(),
            zero == S::spec_whole(0),
            out@.len() == i,
            forall|k: int| 0 <= k < i ==> #[trigger] out@[k] == plain_bins(samples@)[k],
        decreases samples@.len() - i,
    {
        out.push(Phasor { re: samples[i], im: zero });
        i += 1;
    }
    assert(out@ =~= plain_bins(samples@));
    out
}

fn magnitudes<S: Sample, N: Fn(Phasor<S>) -> S>(bins: &Vec<Phasor<S>>, norm: &N) -> (out: Vec<S>)
    requires
        forall|p: Phasor<S>| #[trigger] call_requires(*norm, (p,)),
    ensures
        measures(norm, bins@, out@),
{
    let mut out: Vec<S> = Vec::with_capacity(bins.len());
    let mut i: usize = 0;
    while i < bins.len()
        invariant
            i <= bins@.len(),
            forall|p: Phasor<S>| #[trigger] call_requires(*norm, (p,)),
            out@.len() == i,
            forall|k: int| 0 <= k < i ==> call_ensures(*norm, (bins@[k],), #[trigger] out@[k]),
        decreases bins@.len() - i,
    {
        out.push(norm(bins[i]));
        i += 1;
    }
    out
}

/// The spectrum of a prepared grid.
fn spectrum<S: Sample, T: Fn(Vec<Phasor<S>>, bool) -> Vec<Phasor<S>>>(
    grid: &Grid<S>,
    across: &[S],
    down: &[S],
    fw: usize,
    fh: usize,
    fourier: &T,
) -> (out: Vec<Phasor<S>>)
    requires
        whole_sheet(grid@),
        across@.len() == grid.width,
        down@.len() == grid.height,
        grid.data@.len() <= i64::MAX,
        fw * fh <= usize::MAX,
        fourier_fits(fourier),
    ensures
        transforms(
            fourier,
            plain_bins(prepared(grid@, across@, down@, fw as int, fh as int)),
            false,
            out@,
        ),
        out@.len() == fw * fh,
{
    let samples = prepare(grid, across, down, fw, fh);
    let bins = as_real(&samples);
    let ghost before = bins;
    let out = fourier(bins, false);
    proof {
        assert(fw * fh * 1 == fw * fh && fw * fh >= 0) by (nonlinear_arith);
        assert(call_ensures(*fourier, (before, false), out));
    }
    out
}

/// The displacement `d` such that `b(x)` is about `a(x - d)`, refined below a pixel.
///
/// Both grids have the same size. `across` and `down` are the windows of their edges.
pub fn correlate<
    S: Sample,
    T: Fn(Vec<Phasor<S>>, bool) -> Vec<Phasor<S>>,
    N: Fn(Phasor<S>) -> S,
>(
    a: &Grid<S>,
    b: &Grid<S>,
    across: &[S],
    down: &[S],
    fw: usize,
    fh: usize,
    fourier: &T,
    norm: &N,
) -> (r: (S, S))
    requires
        whole_sheet(a@),
        whole_sheet(b@),
        a.width == b.width,
        a.height == b.height,
        a.data@.len() <= i64::MAX,
        across@.len() == a.width,
        down@.len() == a.height,
        0 < fw <= 0x4000_0000,
        0 < fh <= 0x4000_0000,
        fw * fh <= usize::MAX,
        fourier_fits(fourier),
        forall|p: Phasor<S>| #[trigger] call_requires(*norm, (p,)),
    ensures
        correlated(a@, b@, across@, down@, fw as int, fh as int, fourier, norm, r),
{
    let sa = spectrum(a, across, down, fw, fh, fourier);
    let sb = spectrum(b, across, down, fw, fh, fourier);
    let products = cross_power(sa.as_slice(), sb.as_slice());
    let mags = magnitudes(&products, norm);
    let cross = whiten(products.as_slice(), mags.as_slice());
    let ghost before = cross;
    let impulse = fourier(cross, true);
    assert(call_ensures(*fourier, (before, true), impulse));
    let peaks = magnitudes(&impulse, norm);
    let r = displacement(peaks.as_slice(), fw, fh);
    proof {
        assert(transforms(
            fourier,
            whitened(cross_spectrum(sa@, sb@), mags@),
            true,
            impulse@,
        ));
        assert(measures(norm, cross_spectrum(sa@, sb@), mags@));
        assert(measures(norm, impulse@, peaks@));
    }
    r
}

/// Could this be the transform that brings one frame onto another? Both are brought down to
/// the level, correlated there, and the displacement is scaled back up.
pub open spec fn aligned<
    S: Sample,
    W: Fn(u32) -> Vec<S>,
    T: Fn(Vec<Phasor<S>>, bool) -> Vec<Phasor<S>>,
    N: Fn(Phasor<S>) -> S,
>(
    reference: Sheet<S>,
    target: Sheet<S>,
    level: nat,
    window: &W,
    fourier: &T,
    norm: &N,
    t: Transform<S>,
) -> bool {
    exists|across: Vec<S>, down: Vec<S>, fw: int, fh: int, d: (S, S)|
        {
            &&& call_ensures(*window, (reference.w as u32,), across)
            &&& call_ensures(*window, (reference.h as u32,), down)
            &&& power_for(reference.w + reference.w / 2, fw)
            &&& power_for(reference.h + reference.h / 2, fh)
            &&& #[trigger] correlated(
                reference,
                target,
                across@,
                down@,
                fw,
                fh,
                fourier,
                norm,
                d,
            )
            &&& t == (Transform {
                scale: S::spec_whole(1),
                dx: d.0.spec_times(S::spec_whole(two_to(level) as i64)),
                dy: d.1.spec_times(S::spec_whole(two_to(level) as i64)),
            })
        }
}

/// Can a frame be brought down to this level, and correlated there?
pub open spec fn alignable(info: FrameInfo, level: u32) -> bool {
    let scale = two_to(level as nat);
    let (w, h) = (info.width as int / scale, info.height as int / scale);
    &&& level < 32
    &&& w > 0
    &&& h > 0
    &&& info.width * 3 * scale <= usize::MAX
    &&& w * h <= usize::MAX
    &&& paddable(w as u32, h as u32)
}

impl PhaseCorrelation {
    /// The transform that maps the reference's coordinates onto the target's.
    ///
    /// `window` gives the window of an edge.
    pub fn align<
        S: Sample,
        E,
        F: Fn(u32, u32) -> Result<Vec<S>, E>,
        G: Fn(u32, u32) -> Result<Vec<S>, E>,
        W: Fn(u32) -> Vec<S>,
        T: Fn(Vec<Phasor<S>>, bool) -> Vec<Phasor<S>>,
        N: Fn(Phasor<S>) -> S,
    >(
        &self,
        info: FrameInfo,
        reference: &F,
        target: &G,
        window: &W,
        fourier: &T,
        norm: &N,
    ) -> (r: Result<Transform<S>, E>)
        requires
            alignable(info, self.level),
            readable(reference, info.height, info.width * 3),
            readable(target, info.height, info.width * 3),
            forall|n: u32| #[trigger] call_requires(*window, (n,)),
            forall|n: u32, v: Vec<S>| #[trigger]
                call_ensures(*window, (n,), v) ==> v@.len() == n,
            fourier_fits(fourier),
            forall|p: Phasor<S>| #[trigger] call_requires(*norm, (p,)),
        ensures
            match r {
                Ok(t) => forall|a: Seq<S>, b: Seq<S>|
                    #![trigger
                        reads_from(reference, a, info.height, info.width * 3),
                        reads_from(target, b, info.height, info.width * 3)]
                    reads_from(reference, a, info.height, info.width * 3) && reads_from(
                        target,
                        b,
                        info.height,
                        info.width * 3,
                    ) ==> aligned(
                        coarse(a, info.width as int, info.height as int, two_to(self.level as nat)),
                        coarse(b, info.width as int, info.height as int, two_to(self.level as nat)),
                        self.level as nat,
                        window,
                        fourier,
                        norm,
                        t,
                    ),
                Err(e) => unread(reference, info.height, e) || unread(target, info.height, e),
            },
    {
        let a: Grid<S> = match Grid::from_image(info, self.level, reference) {
            Ok(grid) => grid,
            Err(e) => {
                return Err(e);
            },
        };
        let b: Grid<S> = match Grid::from_image(info, self.level, target) {
            Ok(grid) => grid,
            Err(e) => {
                return Err(e);
            },
        };
        let (across, down) = (window(a.width), window(a.height));
        let (fw, fh): (u64, u64) = (padded_edge(a.width), padded_edge(a.height));
        proof {
            lemma_padded_is_short(a.width + a.width / 2, fw as int);
            lemma_padded_is_short(a.height + a.height / 2, fh as int);
            assert(a.width * a.height <= 0x4000_0000 * 0x4000_0000) by (nonlinear_arith)
                requires
                    a.width <= 0x4000_0000,
                    a.height <= 0x4000_0000,
            ;
        }
        let d = correlate(
            &a,
            &b,
            across.as_slice(),
            down.as_slice(),
            fw as usize,
            fh as usize,
            fourier,
            norm,
        );
        let t = scale_up(d.0, d.1, self.level);
        proof {
            assert(correlated(
                a@,
                b@,
                across@,
                down@,
                fw as int,
                fh as int,
                fourier,
                norm,
                d,
            ));
            assert(aligned(a@, b@, self.level as nat, window, fourier, norm, t));
        }
        Ok(t)
    }
}

/// An alignment of two frames by their numbers, with a record of which pairs were aligned.
///
/// Nothing of the record is there when the program runs.
pub struct Alignments<'a, A> {
    align: &'a A,
    made: Ghost<Seq<(int, int)>>,
}

impl<'a, A> Alignments<'a, A> {
    /// What aligns a pair.
    pub closed spec fn by(&self) -> &A {
        self.align
    }

    /// The pairs that were aligned so far, in order.
    pub closed spec fn made(&self) -> Seq<(int, int)> {
        self.made@
    }

    /// Alignments of which none was made yet.
    pub fn new(align: &'a A) -> (r: Self)
        ensures
            r.by() == align,
            r.made() == Seq::<(int, int)>::empty(),
    {
        Alignments { align, made: Ghost(Seq::empty()) }
    }

    /// Aligns the second frame of a pair with the first.
    pub fn align<S, E>(&mut self, reference: usize, target: usize) -> (r: Result<Transform<S>, E>)
        where A: Fn(usize, usize) -> Result<Transform<S>, E>
        requires
            call_requires(*old(self).by(), (reference, target)),
        ensures
            final(self).by() == old(self).by(),
            final(self).made() == old(self).made().push((reference as int, target as int)),
            call_ensures(*old(self).by(), (reference, target), r),
    {
        let r = (self.align)(reference, target);
        self.made = Ghost(self.made@.push((reference as int, target as int)));
        r
    }
}

/// The first `k` pairs that a stack's registration aligns.
pub open spec fn first_pairs(n: int, k: nat) -> Seq<(int, int)> {
    Seq::new(k, |i: int| pair_of(n, i))
}

/// Could aligning a frame with its neighbour give this?
pub open spec fn step_gives<S, E, A: Fn(usize, usize) -> Result<Transform<S>, E>>(
    align: &A,
    n: int,
    k: int,
    t: Transform<S>,
) -> bool {
    call_ensures(*align, (pair_of(n, k).0 as usize, pair_of(n, k).1 as usize), Ok(t))
}

/// Could aligning a frame with its neighbour fail this way?
pub open spec fn step_fails<S, E, A: Fn(usize, usize) -> Result<Transform<S>, E>>(
    align: &A,
    n: int,
    k: int,
    e: E,
) -> bool {
    call_ensures(*align, (pair_of(n, k).0 as usize, pair_of(n, k).1 as usize), Err(e))
}

/// Are these the steps between the stack's neighbours, as aligning them gives them?
pub open spec fn stepped<S, E, A: Fn(usize, usize) -> Result<Transform<S>, E>>(
    align: &A,
    n: int,
    steps: Seq<Transform<S>>,
) -> bool {
    &&& steps.len() == (if n >= 2 {
        n - 1
    } else {
        0
    })
    &&& forall|k: int| 0 <= k < steps.len() ==> step_gives(align, n, k, #[trigger] steps[k])
}

/// Is every frame placed by the steps between it and the anchor?
pub open spec fn chained<S: Sample>(out: Seq<Transform<S>>, steps: Seq<Transform<S>>, n: int) -> bool {
    &&& out.len() == n
    &&& n < 2 ==> forall|i: int| 0 <= i < n ==> #[trigger] out[i] == identity_of::<S>()
    &&& n >= 2 ==> forall|i: int| 0 <= i < n ==> #[trigger] out[i] == placed(steps, n, i)
}

/// Registers a whole stack against its middle frame: a transform per frame.
///
/// The chain runs outward in both directions. Focus breathing drifts monotonically across a
/// bracket, so anchoring at one end would give the far end both the largest transform and
/// the most accumulated error.
///
/// `align` aligns the second frame with the first. Before each alignment the run asks whether
/// to stop, and after each it reports.
pub fn register_stack<S: Sample, R: RunControl, E, A: Fn(usize, usize) -> Result<Transform<S>, E>>(
    n: usize,
    align: &mut Alignments<A>,
    run: &mut Checkpoints<R>,
) -> (r: Result<Vec<Transform<S>>, Halt<E>>)
    requires
        forall|i: usize, j: usize|
            i < n && j < n ==> #[trigger] call_requires(*old(align).by(), (i, j)),
    ensures
        final(align).by() == old(align).by(),
        final(run).control() == old(run).control(),
        ({
            let total = if n >= 2 {
                n - 1
            } else {
                0
            };
            let (did, does) = (old(align).made(), final(align).made());
            let (from, to) = (old(run).log(), final(run).log());
            match r {
                Ok(out) => {
                    &&& exists|steps: Seq<Transform<S>>|
                        stepped(old(align).by(), n as int, steps) && #[trigger] chained(
                            out@,
                            steps,
                            n as int,
                        )
                    &&& does == did + first_pairs(n as int, total as nat)
                    &&& to == from + rounds(Stage::Register, total, total as nat)
                },
                Err(Halt::Cancelled) => may_cancel(old(run).control()) && exists|k: nat|
                    k < total && does == did + #[trigger] first_pairs(n as int, k) && to == from
                        + broken_off(Stage::Register, total, k, true),
                Err(Halt::Failed(e)) => exists|k: int|
                    0 <= k < total && #[trigger] step_fails(old(align).by(), n as int, k, e) && does
                        == did + first_pairs(n as int, (k + 1) as nat) && to == from + broken_off(
                        Stage::Register,
                        total,
                        k as nat,
                        false,
                    ),
            }
        }),
        r is Ok && n >= 2 ==> may_continue(old(run).control()),
{
    let todo = pairs(n);
    let ghost total = todo@.len() as int;
    let ghost (by, did) = (align.by(), align.made());
    let ghost (control, from) = (run.control(), run.log());
    let mut steps: Vec<Transform<S>> = Vec::new();
    let mut k: usize = 0;
    proof {
        assert(align.made() =~= did + first_pairs(n as int, 0));
        assert(run.log() =~= from + rounds(Stage::Register, total, 0));
    }
    while k < todo.len()
        invariant
            k <= todo@.len(),
            total == todo@.len(),
            total == (if n >= 2 {
                n - 1
            } else {
                0
            }),
            by == old(align).by(),
            did == old(align).made(),
            control == old(run).control(),
            from == old(run).log(),
            align.by() == by,
            run.control() == control,
            align.made() == did + first_pairs(n as int, k as nat),
            run.log() == from + rounds(Stage::Register, total, k as nat),
            forall|k: int|
                0 <= k < todo@.len() ==> ((#[trigger] todo@[k]).0 as int, todo@[k].1 as int)
                    == pair_of(n as int, k),
            forall|i: usize, j: usize| i < n && j < n ==> #[trigger] call_requires(*by, (i, j)),
            steps@.len() == k,
            k > 0 ==> may_continue(control),
            forall|j: int| 0 <= j < k ==> step_gives(by, n as int, j, #[trigger] steps@[j]),
        decreases todo@.len() - k,
    {
        if run.cancelled() {
            proof {
                let done = first_pairs(n as int, k as nat);
                assert(run.log() =~= from + broken_off(Stage::Register, total, k as nat, true));
            }
            return Err(Halt::Cancelled);
        }
        assert(run.log() =~= from + broken_off(Stage::Register, total, k as nat, false));
        let (reference, target) = todo[k];
        proof {
            lemma_pairs_are_neighbours(n as int, k as int);
        }
        let step = align.align(reference, target);
        assert(align.made() =~= did + first_pairs(n as int, (k + 1) as nat));
        match step {
            Ok(t) => {
                assert(step_gives(by, n as int, k as int, t));
                steps.push(t);
            },
            Err(e) => {
                assert(step_fails(by, n as int, k as int, e));
                let halt = Halt::Failed(e);
                assert(halt->Failed_0 == e);
                return Err(halt);
            },
        }
        k += 1;
        run.progress(Stage::Register, k, todo.len());
        assert(run.log() =~= from + rounds(Stage::Register, total, k as nat));
    }
    let out = chain(steps.as_slice(), n);
    let ghost made = steps@;
    let done: Result<Vec<Transform<S>>, Halt<E>> = Ok(out);
    assert(stepped(by, n as int, made) && chained(done->Ok_0@, made, n as int));
    done
}

} // verus!
