//! The types that flow between the stages, and a caller's handle on a running pipeline.

use vstd::prelude::*;
use crate::fusion::FusionKind;
use crate::sample::{
    lemma_wrapped_multiple, lemma_wrapped_sum, wrap, Exact, Fixed, Sample,
};

verus! {

/// Geometric correction mapping a frame onto the reference frame.
///
/// A similarity: uniform scale about the image centre, then translation. Coordinates are
/// centre-relative, so `frame_point = scale * anchor_point + (dx, dy)`.
#[derive(Debug, Copy, PartialEq, Eq)]
pub struct Transform<S> {
    /// Uniform magnification, reference to frame. One is no change.
    pub scale: S,
    /// Horizontal shift in pixels, reference to frame.
    pub dx: S,
    /// Vertical shift in pixels, reference to frame.
    pub dy: S,
}

impl<S: Copy> Clone for Transform<S> {
    fn clone(&self) -> (r: Self)
        ensures
            r == *self,
    {
        *self
    }
}

/// The transform that changes nothing.
pub open spec fn identity_of<S: Sample>() -> Transform<S> {
    Transform { scale: S::spec_whole(1), dx: S::spec_whole(0), dy: S::spec_whole(0) }
}

/// Where a point goes.
pub open spec fn applied<S: Sample>(t: Transform<S>, x: S, y: S) -> (S, S) {
    (t.scale.spec_times(x).spec_plus(t.dx), t.scale.spec_times(y).spec_plus(t.dy))
}

/// One transform followed by another: the scales multiply, and the leading translation
/// picks up the trailing scale.
pub open spec fn followed_by<S: Sample>(first: Transform<S>, next: Transform<S>) -> Transform<S> {
    Transform {
        scale: first.scale.spec_times(next.scale),
        dx: next.scale.spec_times(first.dx).spec_plus(next.dx),
        dy: next.scale.spec_times(first.dy).spec_plus(next.dy),
    }
}

/// The transform undoing another.
pub open spec fn inverse_of<S: Sample>(t: Transform<S>) -> Transform<S> {
    let inv = S::spec_whole(1).spec_over(t.scale);
    Transform {
        scale: inv,
        dx: S::spec_whole(0).spec_minus(t.dx).spec_times(inv),
        dy: S::spec_whole(0).spec_minus(t.dy).spec_times(inv),
    }
}

impl<S: Sample> Default for Transform<S> {
    /// No change.
    fn default() -> (r: Self)
        ensures
            r == identity_of::<S>(),
    {
        Transform::identity()
    }
}

impl<S: Sample> Transform<S> {
    pub fn identity() -> (r: Self)
        ensures
            r == identity_of::<S>(),
    {
        Transform { scale: S::whole(1), dx: S::whole(0), dy: S::whole(0) }
    }

    pub fn translation(dx: S, dy: S) -> (r: Self)
        ensures
            r == (Transform { scale: S::spec_whole(1), dx, dy }),
    {
        Transform { scale: S::whole(1), dx, dy }
    }

    /// Map a point given in centre-relative coordinates.
    pub fn apply(self, x: S, y: S) -> (r: (S, S))
        ensures
            r == applied(self, x, y),
    {
        (self.scale.times(x).plus(self.dx), self.scale.times(y).plus(self.dy))
    }

    /// This transform followed by `next`. This is what chains single-step alignments
    /// outward from the anchor.
    pub fn and_then(self, next: Self) -> (r: Self)
        ensures
            r == followed_by(self, next),
    {
        Transform {
            scale: self.scale.times(next.scale),
            dx: next.scale.times(self.dx).plus(next.dx),
            dy: next.scale.times(self.dy).plus(next.dy),
        }
    }

    /// The transform undoing this one.
    pub fn inverse(self) -> (r: Self)
        ensures
            r == inverse_of(self),
    {
        let inv = S::whole(1).over(self.scale);
        let zero = S::whole(0);
        Transform {
            scale: inv,
            dx: zero.minus(self.dx).times(inv),
            dy: zero.minus(self.dy).times(inv),
        }
    }
}

/// Which stage is reporting.
#[derive(Debug, Clone, Copy, PartialEq, Eq, Structural)]
pub enum Stage {
    Register,
    Focus,
    Weights,
    Fuse,
}

impl Stage {
    pub fn label(self) -> (r: &'static str)
        ensures
            r@ == (match self {
                Stage::Register => "register"@,
                Stage::Focus => "focus"@,
                Stage::Weights => "weights"@,
                Stage::Fuse => "fuse"@,
            }),
    {
        match self {
            Stage::Register => "register",
            Stage::Focus => "focus",
            Stage::Weights => "weights",
            Stage::Fuse => "fuse",
        }
    }
}

/// A caller's handle on a running pipeline: whether to keep going, and how far it got.
///
/// Both halves live on one trait because they need the same checkpoints: a stage that can
/// report "frame 47 of 100" is exactly a stage that can be stopped at frame 47. Both
/// methods default to doing nothing, so `()` is a complete implementation.
pub trait RunControl: Sync {
    /// Polled at each stage's checkpoints. Returning `true` aborts the run.
    fn cancelled(&self) -> (r: bool)
        default_ensures
            !r,
    {
        false
    }

    /// `done` of `total` units finished in `stage`. Units are frames everywhere.
    fn progress(&self, stage: Stage, done: usize, total: usize) {
    }
}

/// Could a control ask the run to stop?
pub open spec fn may_cancel<R: RunControl>(run: &R) -> bool {
    call_ensures(R::cancelled, (run,), true)
}

/// Could a control let the run go on? Where it could not, a run that looks at it stops.
pub open spec fn may_continue<R: RunControl>(run: &R) -> bool {
    call_ensures(R::cancelled, (run,), false)
}

/// The do-nothing control, for callers that never cancel.
impl RunControl for () {

}

/// What passes between a run and its control.
pub enum Event {
    /// The run asked whether to stop, and this was the answer.
    Asked { stop: bool },
    /// The run reported that `done` of `total` units of a stage are finished.
    Told { stage: Stage, done: int, total: int },
}

/// A control as a stage sees it: it can be asked and told, and what passed is on record.
///
/// A control answers as it likes, and two answers may differ; the record says what was
/// asked and told, in order. Nothing of it is there when the program runs.
pub struct Checkpoints<'a, R> {
    run: &'a R,
    passed: Ghost<Seq<Event>>,
}

impl<'a, R: RunControl> Checkpoints<'a, R> {
    /// The control behind the checkpoints.
    pub closed spec fn control(&self) -> &R {
        self.run
    }

    /// What was asked and told so far, in order.
    pub closed spec fn log(&self) -> Seq<Event> {
        self.passed@
    }

    /// Checkpoints at which nothing has passed yet.
    pub fn new(run: &'a R) -> (r: Self)
        ensures
            r.control() == run,
            r.log() == Seq::<Event>::empty(),
    {
        Checkpoints { run, passed: Ghost(Seq::empty()) }
    }

    /// Asks whether the run is to stop.
    pub fn cancelled(&mut self) -> (stop: bool)
        ensures
            final(self).control() == old(self).control(),
            final(self).log() == old(self).log().push(Event::Asked { stop }),
            call_ensures(R::cancelled, (old(self).control(),), stop),
    {
        let stop = self.run.cancelled();
        self.passed = Ghost(self.passed@.push(Event::Asked { stop }));
        stop
    }

    /// Reports that `done` of `total` units of a stage are finished.
    pub fn progress(&mut self, stage: Stage, done: usize, total: usize)
        ensures
            final(self).control() == old(self).control(),
            final(self).log() == old(self).log().push(
                Event::Told { stage, done: done as int, total: total as int },
            ),
    {
        self.run.progress(stage, done, total);
        self.passed = Ghost(
            self.passed@.push(Event::Told { stage, done: done as int, total: total as int }),
        );
    }
}

/// What passes while the first `k` of a stage's `total` units are done: before each the
/// control is asked and lets the run go on, and after each it is told.
pub open spec fn rounds(stage: Stage, total: int, k: nat) -> Seq<Event>
    decreases k,
{
    if k == 0 {
        Seq::empty()
    } else {
        rounds(stage, total, (k - 1) as nat).push(Event::Asked { stop: false }).push(
            Event::Told { stage, done: k as int, total },
        )
    }
}

/// What passes where a stage ends at unit `k`, counted from zero, after the control was
/// asked and gave this answer.
pub open spec fn broken_off(stage: Stage, total: int, k: nat, stop: bool) -> Seq<Event> {
    rounds(stage, total, k).push(Event::Asked { stop })
}

/// What passes while the control is asked `k` times and lets the run go on each time.
pub open spec fn asked(k: nat) -> Seq<Event> {
    Seq::new(k, |i: int| Event::Asked { stop: false })
}

/// The reports of a stage come in order: the `k`th says that `k` units of `total` are done.
pub proof fn lemma_reports_come_in_order(stage: Stage, total: int, k: nat, i: int)
    requires
        0 <= i < k,
    ensures
        rounds(stage, total, k).len() == 2 * k,
        rounds(stage, total, k)[2 * i] == (Event::Asked { stop: false }),
        rounds(stage, total, k)[2 * i + 1] == (Event::Told { stage, done: i + 1, total }),
    decreases k,
{
    if i < k - 1 {
        lemma_reports_come_in_order(stage, total, (k - 1) as nat, i);
    } else if k > 1 {
        lemma_reports_come_in_order(stage, total, (k - 1) as nat, 0);
    } else {
        assert(rounds(stage, total, 0).len() == 0);
    }
}

/// The do-nothing control never stops a run.
pub proof fn lemma_nothing_never_cancels()
    ensures
        !may_cancel(&()),
{
}

/// Which pipeline shape a run uses.
///
/// [`Self::Local`] carries the fusion rule because that rule is a choice within the
/// four-stage pipeline; [`Self::Wavelet`] has no fusion rule to carry.
#[derive(Debug, Clone, Copy, PartialEq, Eq, Structural)]
pub enum Method {
    /// Registration, focus measurement, edge-aware weights, pyramid fusion.
    Local { fusion: FusionKind },
    /// Registration, then wavelet-coefficient selection.
    Wavelet { consistency_threshold: u32 },
}

/// What a user types for each method.
pub open spec fn method_token(m: Method) -> Seq<char> {
    match m {
        Method::Local { .. } => "local"@,
        Method::Wavelet { .. } => "wavelet"@,
    }
}

/// The method a token names, with its default parameters.
pub open spec fn method_named(token: Seq<char>) -> Option<Method> {
    if token == "local"@ {
        Some(Method::Local { fusion: crate::defaults::default_fusion() })
    } else if token == "wavelet"@ {
        Some(Method::Wavelet { consistency_threshold: crate::defaults::CONSISTENCY_THRESHOLD })
    } else {
        None
    }
}

impl Method {
    /// Every method, each with its default parameters.
    pub fn all() -> (r: [Method; 2])
        ensures
            r@ == seq![
                Method::Local { fusion: crate::defaults::default_fusion() },
                Method::Wavelet { consistency_threshold: crate::defaults::CONSISTENCY_THRESHOLD },
            ],
    {
        [
            Method::Local { fusion: crate::defaults::fusion() },
            Method::Wavelet { consistency_threshold: crate::defaults::CONSISTENCY_THRESHOLD },
        ]
    }

    /// Accepted spellings, in the order of [`Self::all`].
    pub const TOKENS: [&'static str; 2] = ["local", "wavelet"];

    pub fn token(self) -> (r: &'static str)
        ensures
            r@ == method_token(self),
    {
        match self {
            Method::Local { .. } => "local",
            Method::Wavelet { .. } => "wavelet",
        }
    }

    /// The method a token names, with its default parameters.
    pub fn from_token(token: &str) -> (r: Option<Self>)
        ensures
            r == method_named(token@),
    {
        if crate::text::same(token, "local") {
            Some(Method::Local { fusion: crate::defaults::fusion() })
        } else if crate::text::same(token, "wavelet") {
            Some(
                Method::Wavelet { consistency_threshold: crate::defaults::CONSISTENCY_THRESHOLD },
            )
        } else {
            None
        }
    }

    /// Names the decomposition, which is the thing that actually differs.
    pub fn label(self) -> (r: &'static str)
        ensures
            r@ == (match self {
                Method::Local { .. } => "Local"@,
                Method::Wavelet { .. } => "Wavelet"@,
            }),
    {
        match self {
            Method::Local { .. } => "Local",
            Method::Wavelet { .. } => "Wavelet",
        }
    }

    /// What each method is good for, with its ratings: the two are not peers.
    pub fn summary(self) -> (r: &'static str)
        ensures
            r@ == (match self {
                Method::Local { .. } =>
                    "Laplacian pyramid with edge-aware weights. Rated 5/5/5 on the test stacks — the recommended choice."@,
                Method::Wavelet { .. } =>
                    "Wavelet-coefficient selection. Rated 2/4/2: it draws colour from out-of-focus frames into smooth backgrounds near a subject's edge (defocus spread). Usable where the background is textured; otherwise prefer Local."@,
            }),
    {
        match self {
            Method::Local { .. } =>
                "Laplacian pyramid with edge-aware weights. Rated 5/5/5 on the test stacks — the recommended choice.",
            Method::Wavelet { .. } =>
                "Wavelet-coefficient selection. Rated 2/4/2: it draws colour from out-of-focus frames into smooth backgrounds near a subject's edge (defocus spread). Usable where the background is textured; otherwise prefer Local.",
        }
    }
}

/// Every method is found again by its own token, with its default parameters.
pub proof fn lemma_method_tokens_round_trip(m: Method)
    ensures
        method_named(method_token(m)) == Some(
            match m {
                Method::Local { .. } => Method::Local {
                    fusion: crate::defaults::default_fusion(),
                },
                Method::Wavelet { .. } => Method::Wavelet {
                    consistency_threshold: crate::defaults::CONSISTENCY_THRESHOLD,
                },
            },
        ),
{
    reveal_strlit("local");
    reveal_strlit("wavelet");
    assert("local"@.len() == 5);
    assert("wavelet"@.len() == 7);
}

/// Multiplying by one changes nothing.
#[verifier::spinoff_prover]
proof fn lemma_one(v: Fixed)
    ensures
        Fixed::spec_whole(1).spec_times(v) == v,
        v.spec_times(Fixed::spec_whole(1)) == v,
{
    assert(Fixed::spec_whole(1).raw == 65536);
    assert((65536 * v.raw) / 65536 == v.raw);
    assert(v.raw * 65536 == 65536 * v.raw);
}

/// A transform followed by a translation maps a point to where the two map it in turn.
pub proof fn lemma_following_is_mapping_in_turn(
    first: Transform<Fixed>,
    next: Transform<Fixed>,
    x: Fixed,
    y: Fixed,
)
    requires
        next.scale == Fixed::spec_whole(1),
    ensures
        ({
            let (u, v) = applied(first, x, y);
            applied(followed_by(first, next), x, y) == applied(next, u, v)
        }),
{
    let (u, v) = applied(first, x, y);
    lemma_one(first.scale);
    lemma_one(first.dx);
    lemma_one(first.dy);
    lemma_one(u);
    lemma_one(v);
    Fixed::lemma_plus_associates(first.scale.spec_times(x), first.dx, next.dx);
    Fixed::lemma_plus_associates(first.scale.spec_times(y), first.dy, next.dy);
}

/// A translation followed by its inverse changes nothing.
#[verifier::spinoff_prover]
pub proof fn lemma_translations_are_undone(t: Transform<Fixed>)
    requires
        t.scale == Fixed::spec_whole(1),
    ensures
        followed_by(t, inverse_of(t)) == identity_of::<Fixed>(),
{
    let one = Fixed::spec_whole(1);
    let zero = Fixed::spec_whole(0);
    assert(one.raw == 65536 && zero.raw == 0);
    assert((65536int * 65536) / 65536 == 65536);
    assert(one.spec_over(one) == one);
    lemma_one(one);
    lemma_one(t.dx);
    lemma_one(t.dy);
    lemma_one(zero.spec_minus(t.dx));
    lemma_one(zero.spec_minus(t.dy));
}

/// A whole number times a sample is a multiple of it, wrapped around.
#[verifier::spinoff_prover]
proof fn lemma_whole_times(n: int, v: Fixed)
    requires
        -0x4000_0000_0000 <= n <= 0x4000_0000_0000,
    ensures
        Fixed::spec_whole(n as i64).raw == n * 65536,
        Fixed::spec_whole(n as i64).spec_times(v).raw == wrap(n * v.raw),
{
    assert((n * 65536) * v.raw == 65536 * (n * v.raw)) by (nonlinear_arith);
    assert((65536 * (n * v.raw)) / 65536 == n * v.raw);
}

/// One coordinate of a point under two whole scales in turn.
#[verifier::spinoff_prover]
proof fn lemma_coordinate_in_turn(a: int, b: int, d: int, e: int, x: int)
    ensures
        wrap(wrap(a * b * x) + wrap(wrap(b * d) + e)) == wrap(wrap(b * wrap(wrap(a * x) + d)) + e),
{
    let ax = a * x;
    lemma_wrapped_multiple(b, wrap(ax) + d);
    assert(b * (wrap(ax) + d) == b * wrap(ax) + b * d) by (nonlinear_arith);
    lemma_wrapped_multiple(b, ax);
    assert(b * ax == a * b * x) by (nonlinear_arith)
        requires
            ax == a * x,
    ;
    lemma_wrapped_sum(b * wrap(ax), b * d);
    let n = wrap(a * b * x) as int;
    assert(wrap(b * wrap(wrap(ax) + d)) == wrap(n + b * d));
    lemma_wrapped_sum(n + b * d, e);
    lemma_wrapped_sum(wrap(b * d) + e, n);
    lemma_wrapped_sum(b * d, e + n);
}

/// Two transforms with whole scales map a point, one followed by the other, to where they
/// map it in turn.
pub proof fn lemma_whole_scales_map_in_turn(
    first: Transform<Fixed>,
    next: Transform<Fixed>,
    a: int,
    b: int,
    x: Fixed,
    y: Fixed,
)
    requires
        -0x7f_ffff <= a <= 0x7f_ffff,
        -0x7f_ffff <= b <= 0x7f_ffff,
        first.scale == Fixed::spec_whole(a as i64),
        next.scale == Fixed::spec_whole(b as i64),
    ensures
        ({
            let (u, v) = applied(first, x, y);
            applied(followed_by(first, next), x, y) == applied(next, u, v)
        }),
{
    let (u, v) = applied(first, x, y);
    let ab = a * b;
    assert(-0x4000_0000_0000 <= ab <= 0x4000_0000_0000) by (nonlinear_arith)
        requires
            ab == a * b,
            -0x7f_ffff <= a <= 0x7f_ffff,
            -0x7f_ffff <= b <= 0x7f_ffff,
    ;
    let both = followed_by(first, next);
    lemma_whole_times(a, next.scale);
    lemma_whole_times(b, next.scale);
    assert(a * (b * 65536) == ab * 65536) by (nonlinear_arith)
        requires
            ab == a * b,
    ;
    assert(both.scale == Fixed::spec_whole(ab as i64));
    lemma_whole_times(ab, x);
    lemma_whole_times(ab, y);
    lemma_whole_times(a, x);
    lemma_whole_times(a, y);
    lemma_whole_times(b, first.dx);
    lemma_whole_times(b, first.dy);
    lemma_whole_times(b, u);
    lemma_whole_times(b, v);
    lemma_coordinate_in_turn(
        a,
        b,
        first.dx.raw as int,
        next.dx.raw as int,
        x.raw as int,
    );
    lemma_coordinate_in_turn(
        a,
        b,
        first.dy.raw as int,
        next.dy.raw as int,
        y.raw as int,
    );
}

/// An offset scaled one way and its opposite scaled the same way cancel, where scaling them
/// loses nothing.
#[verifier::spinoff_prover]
proof fn lemma_offsets_cancel(i: Fixed, d: Fixed)
    requires
        d.raw > i64::MIN,
        (i.raw * d.raw) % 65536 == 0,
    ensures
        i.spec_times(d).spec_plus(Fixed::spec_whole(0).spec_minus(d).spec_times(i)).raw == 0,
{
    let q = (i.raw * d.raw) / 65536;
    vstd::arithmetic::div_mod::lemma_fundamental_div_mod(i.raw * d.raw, 65536);
    assert((-d.raw) * i.raw == 65536 * (-q)) by (nonlinear_arith)
        requires
            i.raw * d.raw == 65536 * q,
    ;
    assert((65536 * (-q)) / 65536 == -q);
    assert(Fixed::spec_whole(0).raw == 0);
    assert(Fixed::spec_whole(0).spec_minus(d).raw == -d.raw);
    lemma_wrapped_sum(q, wrap(-q) as int);
    lemma_wrapped_sum(-q, q);
}

/// A transform followed by its inverse changes nothing, where the inverse of its scale is a
/// sample, and loses nothing of its offsets.
pub proof fn lemma_exact_transforms_are_undone(t: Transform<Fixed>)
    requires
        t.scale.raw > 0,
        0x1_0000_0000int % (t.scale.raw as int) == 0,
        t.dx.raw > i64::MIN,
        t.dy.raw > i64::MIN,
        (inverse_of(t).scale.raw * t.dx.raw) % 65536 == 0,
        (inverse_of(t).scale.raw * t.dy.raw) % 65536 == 0,
    ensures
        followed_by(t, inverse_of(t)) == identity_of::<Fixed>(),
{
    let s = t.scale.raw as int;
    let q = 0x1_0000_0000int / s;
    let inv = inverse_of(t).scale;
    vstd::arithmetic::div_mod::lemma_fundamental_div_mod(0x1_0000_0000, s);
    assert(0 <= q <= 0x1_0000_0000) by (nonlinear_arith)
        requires
            s >= 1,
            s * q == 0x1_0000_0000,
    ;
    assert(Fixed::spec_whole(1).raw == 65536);
    assert(Fixed::spec_whole(0).raw == 0);
    assert(inv.raw == q);
    assert(t.scale.spec_times(inv).raw == 65536);
    lemma_offsets_cancel(inv, t.dx);
    lemma_offsets_cancel(inv, t.dy);
}

} // verus!
