//! Phase-correlation registration (Kuglin & Hines, 1975).
//!
//! What surrounds the transform itself: preparing a grid for it, finding the displacement
//! in the correlation it gives, and chaining single steps outward from the anchor.

use vstd::prelude::*;
use crate::grid::{total, Grid};
use crate::image::{lemma_two_to_grows, two_to};
use crate::labels::champion;
use crate::layout::{fill, image_of, lemma_place};
use crate::pipeline::{followed_by, identity_of, Transform};
use crate::plane::{cell, whole_sheet, Sheet};
use crate::sample::{Fixed, Sample};

verus! {

/// Phase correlation at a fixed pyramid level.
///
/// The level trades resolution for robustness: adjacent frames of a focus bracket do not
/// share their finest detail, and downsampling suppresses exactly that.
#[derive(Debug, Clone, Copy, PartialEq, Eq, Structural)]
pub struct PhaseCorrelation {
    pub level: u32,
}

impl PhaseCorrelation {
    pub fn new(level: u32) -> (r: Self)
        ensures
            r.level == level,
    {
        PhaseCorrelation { level }
    }

    pub fn level(&self) -> (r: u32)
        ensures
            r == self.level,
    {
        self.level
    }
}

/// The smallest power of two that is at least `n`.
pub open spec fn power_for(n: int, p: int) -> bool {
    exists|k: nat|
        p == #[trigger] two_to(k) && p >= n && (k > 0 ==> two_to((k - 1) as nat) < n)
}

/// The edge that a grid's edge is padded to: half as long again, rounded up to a power of
/// two. The padding stops the circular correlation from wrapping content around.
pub fn padded_edge(n: u32) -> (p: u64)
    ensures
        power_for(n + n / 2, p as int),
        p >= n + n / 2,
{
    let least: u64 = n as u64 + n as u64 / 2;
    let mut p: u64 = 1;
    let ghost mut k: nat = 0;
    while p < least
        invariant
            least <= 0x1_8000_0000,
            1 <= p <= 0x3_0000_0000,
            p == two_to(k),
            k > 0 ==> two_to((k - 1) as nat) < least,
        decreases 0x8_0000_0000 - p,
    {
        proof {
            assert(two_to(k + 1) == 2 * two_to(k));
        }
        p = p * 2;
        proof {
            k = k + 1;
        }
    }
    assert(two_to(k) == p);
    p
}

/// A displacement measured at a pyramid level, at full resolution.
pub fn scale_up<S: Sample>(dx: S, dy: S, level: u32) -> (r: Transform<S>)
    requires
        level < 32,
    ensures
        r == (Transform {
            scale: S::spec_whole(1),
            dx: dx.spec_times(S::spec_whole(two_to(level as nat) as i64)),
            dy: dy.spec_times(S::spec_whole(two_to(level as nat) as i64)),
        }),
{
    let mut side: i64 = 1;
    let mut k: u32 = 0;
    while k < level
        invariant
            k <= level,
            level < 32,
            side == two_to(k as nat),
        decreases level - k,
    {
        proof {
            reveal_with_fuel(two_to, 32);
            assert(two_to(31) == 0x8000_0000);
            lemma_two_to_grows(k as nat, 31);
        }
        side = side * 2;
        k += 1;
    }
    let s = S::whole(side);
    Transform::translation(dx.times(s), dy.times(s))
}

/// A magnitude too small to divide by.
pub open spec fn vanishing<S: Sample>() -> S {
    let part = S::spec_whole(10_000_000_000);
    S::spec_whole(1).spec_over(part).spec_over(part)
}

pub open spec fn magnitude<S: Sample>(v: S) -> S {
    if S::spec_whole(0).spec_exceeds(v) {
        S::spec_whole(0).spec_minus(v)
    } else {
        v
    }
}

/// Sub-pixel offset of a peak, from a parabola through it and its two neighbours.
pub open spec fn peak_offset<S: Sample>(mid: S, left: S, right: S) -> S {
    let curve = left.spec_minus(S::spec_whole(2).spec_times(mid)).spec_plus(right);
    if vanishing::<S>().spec_exceeds(magnitude(curve)) {
        S::spec_whole(0)
    } else {
        S::spec_whole(1).spec_over(S::spec_whole(2)).spec_times(
            left.spec_minus(right),
        ).spec_over(curve)
    }
}

/// Sub-pixel offset of a peak from a parabola through it and its two neighbours.
///
/// A whole-pixel peak carries up to half a pixel of error, which is the scale that shows
/// as a seam on a thin line.
pub fn parabolic<S: Sample>(mid: S, left: S, right: S) -> (r: S)
    ensures
        r == peak_offset(mid, left, right),
{
    let zero = S::whole(0);
    let part = S::whole(10_000_000_000);
    let tiny = S::whole(1).over(part).over(part);
    let curve = left.minus(S::whole(2).times(mid)).plus(right);
    let size = if zero.exceeds(curve) {
        zero.minus(curve)
    } else {
        curve
    };
    if tiny.exceeds(size) {
        zero
    } else {
        S::whole(1).over(S::whole(2)).times(left.minus(right)).over(curve)
    }
}

/// A periodic coordinate as a signed one: less than half the extent, and no less than minus
/// half.
pub open spec fn signed<S: Sample>(v: S, n: int) -> S {
    let extent = S::spec_whole(n as i64);
    if extent.spec_over(S::spec_whole(2)).spec_exceeds(v) {
        v
    } else {
        v.spec_minus(extent)
    }
}

/// Map a periodic coordinate into `[-n/2, n/2)`, so that shifts read as signed.
pub fn wrap<S: Sample>(v: S, n: usize) -> (r: S)
    requires
        n <= i64::MAX,
    ensures
        r == signed(v, n as int),
{
    let extent = S::whole(n as i64);
    if extent.over(S::whole(2)).exceeds(v) {
        v
    } else {
        v.minus(extent)
    }
}

/// A signed shift lies in `[-n/2, n/2)`, and is the coordinate that it was made from, once
/// around the extent or not at all.
pub proof fn lemma_shifts_are_signed(v: Fixed, n: int)
    requires
        0 < n <= 0x3fff_ffff_ffff,
        0 <= v.raw < n * 65536,
    ensures
        -n * 65536 <= 2 * signed(v, n).raw < n * 65536,
        signed(v, n).raw == v.raw || signed(v, n).raw == v.raw - n * 65536,
{
    let extent = Fixed::spec_whole(n as i64);
    assert(extent.raw == n * 65536);
    assert(Fixed::spec_whole(2).raw == 131072);
    assert((n * 65536 * 65536) / 131072 == n * 32768);
    assert(extent.spec_over(Fixed::spec_whole(2)).raw == n * 32768);
}

/// How strongly the whitening falls away where there is no signal, as one part in this many
/// of the strongest bin.
pub const WHITENING_PARTS: i64 = 1000;

/// A complex number: its real part, and its imaginary one.
#[derive(Debug, Copy, PartialEq, Eq)]
pub struct Phasor<S> {
    pub re: S,
    pub im: S,
}

impl<S: Copy> Clone for Phasor<S> {
    fn clone(&self) -> (r: Self)
        ensures
            r == *self,
    {
        *self
    }
}

/// A bin of the cross-power spectrum: the first spectrum's conjugate times the second's.
pub open spec fn crossed<S: Sample>(a: Phasor<S>, b: Phasor<S>) -> Phasor<S> {
    let im = S::spec_whole(0).spec_minus(a.im);
    Phasor {
        re: a.re.spec_times(b.re).spec_minus(im.spec_times(b.im)),
        im: a.re.spec_times(b.im).spec_plus(im.spec_times(b.re)),
    }
}

/// The cross-power spectrum of two spectra.
pub open spec fn cross_spectrum<S: Sample>(a: Seq<Phasor<S>>, b: Seq<Phasor<S>>) -> Seq<Phasor<S>> {
    Seq::new(a.len(), |i: int| crossed(a[i], b[i]))
}

/// The cross-power spectrum of two spectra, bin by bin.
pub fn cross_power<S: Sample>(a: &[Phasor<S>], b: &[Phasor<S>]) -> (out: Vec<Phasor<S>>)
    requires
        a@.len() == b@.len(),
    ensures
        out@ == cross_spectrum(a@, b@),
{
    let zero = S::whole(0);
    let mut out: Vec<Phasor<S>> = Vec::with_capacity(a.len());
    let mut i: usize = 0;
    while i < a.len()
        invariant
            i <= a@.len(),
            a@.len() == b@.len(),
            zero == S::spec_whole(0),
            out@.len() == i,
            forall|k: int| 0 <= k < i ==> #[trigger] out@[k] == crossed(a@[k], b@[k]),
        decreases a@.len() - i,
    {
        let (p, q) = (a[i], b[i]);
        let im = zero.minus(p.im);
        out.push(
            Phasor {
                re: p.re.times(q.re).minus(im.times(q.im)),
                im: p.re.times(q.im).plus(im.times(q.re)),
            },
        );
        i += 1;
    }
    out
}

/// The strongest of the first `n` bins, and no less than zero.
pub open spec fn strongest<S: Sample>(mags: Seq<S>, n: nat) -> S
    decreases n,
{
    if n == 0 {
        S::spec_whole(0)
    } else {
        let before = strongest(mags, (n - 1) as nat);
        if mags[n - 1].spec_exceeds(before) {
            mags[n - 1]
        } else {
            before
        }
    }
}

/// What whitening adds to every magnitude.
pub open spec fn whitening<S: Sample>(mags: Seq<S>) -> S {
    S::spec_whole(1).spec_over(S::spec_whole(WHITENING_PARTS)).spec_times(
        strongest(mags, mags.len()),
    )
}

/// A spectrum with each bin brought to about unit magnitude.
pub open spec fn whitened<S: Sample>(bins: Seq<Phasor<S>>, mags: Seq<S>) -> Seq<Phasor<S>> {
    Seq::new(
        bins.len(),
        |i: int|
            Phasor {
                re: bins[i].re.spec_over(mags[i].spec_plus(whitening(mags))),
                im: bins[i].im.spec_over(mags[i].spec_plus(whitening(mags))),
            },
    )
}

/// A spectrum with each bin brought to about unit magnitude, from the bins' magnitudes.
///
/// Plain whitening would normalize bins that carry no signal at all, so that empty parts of
/// the spectrum count as much as real structure. Adding a fraction of the strongest bin
/// leaves well-supported frequencies as they are and lets empty ones fall away.
pub fn whiten<S: Sample>(bins: &[Phasor<S>], mags: &[S]) -> (out: Vec<Phasor<S>>)
    requires
        mags@.len() == bins@.len(),
    ensures
        out@ == whitened(bins@, mags@),
{
    let mut most = S::whole(0);
    let mut i: usize = 0;
    while i < mags.len()
        invariant
            i <= mags@.len(),
            most == strongest(mags@, i as nat),
        decreases mags@.len() - i,
    {
        if mags[i].exceeds(most) {
            most = mags[i];
        }
        i += 1;
    }
    let add = S::whole(1).over(S::whole(WHITENING_PARTS)).times(most);
    let mut out: Vec<Phasor<S>> = Vec::with_capacity(bins.len());
    let mut i: usize = 0;
    while i < bins.len()
        invariant
            i <= bins@.len(),
            mags@.len() == bins@.len(),
            add == whitening(mags@),
            out@.len() == i,
            forall|k: int|
                0 <= k < i ==> #[trigger] out@[k] == (Phasor {
                    re: bins@[k].re.spec_over(mags@[k].spec_plus(add)),
                    im: bins@[k].im.spec_over(mags@[k].spec_plus(add)),
                }),
        decreases bins@.len() - i,
    {
        let by = mags[i].plus(add);
        out.push(Phasor { re: bins[i].re.over(by), im: bins[i].im.over(by) });
        i += 1;
    }
    out
}

/// Where the largest of the magnitudes stands, the first of equals.
pub open spec fn peak_of<S: Sample>(mags: Seq<S>) -> int {
    champion(|i: int| mags[i], S::spec_lowest(), mags.len()).1
}

fn peak<S: Sample>(mags: &[S]) -> (r: usize)
    requires
        mags@.len() > 0,
    ensures
        r == peak_of(mags@),
        r < mags@.len(),
{
    let ghost value = |i: int| mags@[i];
    let mut best = S::lowest();
    let mut at: usize = 0;
    let mut i: usize = 0;
    while i < mags.len()
        invariant
            i <= mags@.len(),
            mags@.len() > 0,
            at < mags@.len(),
            value == (|i: int| mags@[i]),
            (best, at as int) == champion(value, S::spec_lowest(), i as nat),
        decreases mags@.len() - i,
    {
        if mags[i].exceeds(best) {
            best = mags[i];
            at = i;
        }
        i += 1;
    }
    at
}

/// The displacement that a correlation of `fw` by `fh` magnitudes shows: the impulse sits
/// at it, refined between its neighbours, around the edges where it stands at one.
pub open spec fn displacement_of<S: Sample>(mags: Seq<S>, fw: int, fh: int) -> (S, S) {
    let p = peak_of(mags);
    let (px, py) = (p % fw, p / fw);
    let best = mags[p];
    let dx = S::spec_whole(px as i64).spec_plus(
        peak_offset(
            best,
            mags[py * fw + (px + fw - 1) % fw],
            mags[py * fw + (px + 1) % fw],
        ),
    );
    let dy = S::spec_whole(py as i64).spec_plus(
        peak_offset(
            best,
            mags[((py + fh - 1) % fh) * fw + px],
            mags[((py + 1) % fh) * fw + px],
        ),
    );
    (signed(dx, fw), signed(dy, fh))
}

/// The displacement that a correlation shows, from the magnitudes of its samples.
pub fn displacement<S: Sample>(mags: &[S], fw: usize, fh: usize) -> (r: (S, S))
    requires
        0 < fw <= 0x4000_0000,
        0 < fh <= 0x4000_0000,
        mags@.len() == fw * fh,
    ensures
        r == displacement_of(mags@, fw as int, fh as int),
{
    assert(0 < fw * fh) by (nonlinear_arith)
        requires
            0 < fw,
            0 < fh,
    ;
    assert(mags@.len() == mags.len());
    let p = peak(mags);
    proof {
        crate::layout::lemma_column_and_row(p as int, fw as int, fh as int);
    }
    let (px, py): (usize, usize) = (p % fw, p / fw);
    let best = mags[p];
    let (left, right): (usize, usize) = ((px + fw - 1) % fw, (px + 1) % fw);
    let (above, below): (usize, usize) = ((py + fh - 1) % fh, (py + 1) % fh);
    proof {
        lemma_place(left as int, py as int, fw as int, fh as int);
        lemma_place(right as int, py as int, fw as int, fh as int);
        lemma_place(px as int, above as int, fw as int, fh as int);
        lemma_place(px as int, below as int, fw as int, fh as int);
    }
    let dx = S::whole(px as i64).plus(
        parabolic(best, mags[py * fw + left], mags[py * fw + right]),
    );
    let dy = S::whole(py as i64).plus(
        parabolic(best, mags[above * fw + px], mags[below * fw + px]),
    );
    (wrap(dx, fw), wrap(dy, fh))
}

/// The mean of a grid that has samples.
pub open spec fn mean_of<S: Sample>(data: Seq<S>) -> S {
    if data.len() == 0 {
        S::spec_whole(0)
    } else {
        total(data, data.len()).spec_over(S::spec_whole(data.len() as i64))
    }
}

/// A grid with its mean taken off, windowed, and padded with zeros.
pub open spec fn prepared<S: Sample>(
    s: Sheet<S>,
    across: Seq<S>,
    down: Seq<S>,
    fw: int,
    fh: int,
) -> Seq<S> {
    image_of(
        fw,
        fh,
        1,
        |x: int, y: int, ch: int|
            if x < s.w && y < s.h {
                cell(s, x, y).spec_minus(mean_of(s.data)).spec_times(across[x]).spec_times(down[y])
            } else {
                S::spec_whole(0)
            },
    )
}

/// Mean-subtract, window and zero-pad a grid, with the window of each axis given.
///
/// The window suppresses the leakage that a non-periodic frame edge would otherwise
/// inject into every frequency.
pub fn prepare<S: Sample>(
    grid: &Grid<S>,
    across: &[S],
    down: &[S],
    fw: usize,
    fh: usize,
) -> (out: Vec<S>)
    requires
        whole_sheet(grid@),
        across@.len() == grid.width,
        down@.len() == grid.height,
        grid.data@.len() <= i64::MAX,
        fw * fh <= usize::MAX,
        fw <= usize::MAX,
    ensures
        out@ == prepared(grid@, across@, down@, fw as int, fh as int),
{
    let mean = grid.mean();
    let ghost s = grid@;
    let ghost g = |x: int, y: int, ch: int|
        if x < s.w && y < s.h {
            cell(s, x, y).spec_minus(mean_of(s.data)).spec_times(across@[x]).spec_times(down@[y])
        } else {
            S::spec_whole(0)
        };
    let (w, h): (usize, usize) = (grid.width as usize, grid.height as usize);
    assert(fw * 1 == fw && fw * fh * 1 == fw * fh) by (nonlinear_arith);
    fill(
        fw,
        fh,
        1,
        (|x: usize, y: usize, ch: usize| -> (v: S)
            requires
                x < fw,
                y < fh,
            ensures
                v == g(x as int, y as int, ch as int),
        {
            if x < w && y < h {
                grid.at(x as u32, y as u32).minus(mean).times(across[x]).times(down[y])
            } else {
                S::whole(0)
            }
        }),
        Ghost(g),
    )
}

/// The frame that a stack is registered against: its middle one. Focus breathing drifts
/// across a bracket, so anchoring at one end would give the far end the largest error.
pub open spec fn anchor_of(n: int) -> int {
    n / 2
}

/// The pairs to align, in order: outward from the anchor to the last frame, and then
/// outward to the first. Each is a reference and the frame aligned onto it.
pub open spec fn pair_of(n: int, k: int) -> (int, int) {
    let a = anchor_of(n);
    if k < n - 1 - a {
        (a + k, a + k + 1)
    } else {
        let i = a - 1 - (k - (n - 1 - a));
        (i + 1, i)
    }
}

/// The pairs to align.
pub fn pairs(n: usize) -> (out: Vec<(usize, usize)>)
    ensures
        out@.len() == (if n >= 2 {
            n - 1
        } else {
            0
        }),
        forall|k: int|
            0 <= k < out@.len() ==> ((#[trigger] out@[k]).0 as int, out@[k].1 as int) == pair_of(
                n as int,
                k,
            ),
{
    let mut out: Vec<(usize, usize)> = Vec::new();
    if n < 2 {
        return out;
    }
    let anchor: usize = n / 2;
    let mut i: usize = anchor + 1;
    while i < n
        invariant
            n >= 2,
            anchor == n / 2,
            anchor < i <= n,
            out@.len() == i - anchor - 1,
            forall|k: int|
                0 <= k < out@.len() ==> ((#[trigger] out@[k]).0 as int, out@[k].1 as int)
                    == pair_of(n as int, k),
        decreases n - i,
    {
        out.push((i - 1, i));
        i += 1;
    }
    let mut j: usize = anchor;
    while j > 0
        invariant
            n >= 2,
            anchor == n / 2,
            j <= anchor,
            out@.len() == n - 1 - j,
            forall|k: int|
                0 <= k < out@.len() ==> ((#[trigger] out@[k]).0 as int, out@[k].1 as int)
                    == pair_of(n as int, k),
        decreases j,
    {
        out.push((j, j - 1));
        j -= 1;
    }
    out
}

/// Every pair is of neighbours, and of a frame aligned onto one nearer the anchor.
pub proof fn lemma_pairs_are_neighbours(n: int, k: int)
    requires
        n >= 2,
        0 <= k < n - 1,
    ensures
        ({
            let (reference, target) = pair_of(n, k);
            &&& 0 <= reference < n
            &&& 0 <= target < n
            &&& target != anchor_of(n)
            &&& (target == reference + 1 && reference >= anchor_of(n) || target == reference - 1
                && reference <= anchor_of(n))
        }),
{
}

/// Every frame but the anchor is aligned, and once.
pub proof fn lemma_every_frame_is_aligned_once(n: int, i: int)
    requires
        n >= 2,
        0 <= i < n,
        i != anchor_of(n),
    ensures
        ({
            let k = step_of(n, i);
            &&& 0 <= k < n - 1
            &&& pair_of(n, k).1 == i
            &&& forall|m: int| 0 <= m < n - 1 && (#[trigger] pair_of(n, m)).1 == i ==> m == k
        }),
{
}

/// The pair that aligns a frame.
pub open spec fn step_of(n: int, i: int) -> int {
    let a = anchor_of(n);
    if i > a {
        i - a - 1
    } else {
        (n - 1 - a) + (a - 1 - i)
    }
}

/// A frame's transform relative to the anchor: its neighbour's, followed by the step
/// between them.
pub open spec fn placed<S: Sample>(steps: Seq<Transform<S>>, n: int, i: int) -> Transform<S>
    decreases
            (if i >= anchor_of(n) {
                i - anchor_of(n)
            } else {
                anchor_of(n) - i
            }),
{
    let a = anchor_of(n);
    if i == a {
        identity_of::<S>()
    } else if i > a {
        followed_by(placed(steps, n, i - 1), steps[step_of(n, i)])
    } else {
        followed_by(placed(steps, n, i + 1), steps[step_of(n, i)])
    }
}

/// Chains the steps of [`pairs`] into one transform for each frame, relative to the
/// anchor.
pub fn chain<S: Sample>(steps: &[Transform<S>], n: usize) -> (out: Vec<Transform<S>>)
    requires
        n >= 2 ==> steps@.len() == n - 1,
    ensures
        out@.len() == n,
        n < 2 ==> forall|i: int| 0 <= i < n ==> #[trigger] out@[i] == identity_of::<S>(),
        n >= 2 ==> forall|i: int|
            0 <= i < n ==> #[trigger] out@[i] == placed(steps@, n as int, i),
{
    let mut out: Vec<Transform<S>> = Vec::with_capacity(n);
    let mut i: usize = 0;
    while i < n
        invariant
            i <= n,
            out@.len() == i,
            forall|k: int| 0 <= k < i ==> #[trigger] out@[k] == identity_of::<S>(),
        decreases n - i,
    {
        out.push(Transform::identity());
        i += 1;
    }
    if n < 2 {
        return out;
    }
    let anchor: usize = n / 2;
    let mut i: usize = anchor + 1;
    while i < n
        invariant
            n >= 2,
            anchor == n / 2,
            anchor < i <= n,
            steps@.len() == n - 1,
            out@.len() == n,
            forall|k: int| anchor <= k < i ==> #[trigger] out@[k] == placed(steps@, n as int, k),
        decreases n - i,
    {
        let t = out[i - 1].and_then(steps[i - anchor - 1]);
        assert(out@[i - 1] == placed(steps@, n as int, i - 1));
        out.set(i, t);
        i += 1;
    }
    let mut j: usize = anchor;
    while j > 0
        invariant
            n >= 2,
            anchor == n / 2,
            j <= anchor,
            steps@.len() == n - 1,
            out@.len() == n,
            forall|k: int| j <= k < n ==> #[trigger] out@[k] == placed(steps@, n as int, k),
        decreases j,
    {
        let k: usize = j - 1;
        let t = out[j].and_then(steps[(n - 1 - anchor) + (anchor - 1 - k)]);
        assert(out@[j as int] == placed(steps@, n as int, j as int));
        out.set(k, t);
        j = k;
    }
    out
}

/// A peak between two equal neighbours stands at its own pixel.
pub proof fn lemma_symmetric_peak_is_centred(mid: Fixed, side: Fixed)
    ensures
        peak_offset(mid, side, side) == Fixed::spec_whole(0),
{
    let zero = Fixed::spec_whole(0);
    assert(side.spec_minus(side) == zero);
    let half = Fixed::spec_whole(1).spec_over(Fixed::spec_whole(2));
    assert(half.raw * 0 == 0);
    assert(half.spec_times(zero) == zero);
    let curve = side.spec_minus(Fixed::spec_whole(2).spec_times(mid)).spec_plus(side);
    if curve.raw != 0 {
        let size = if curve.raw > 0 {
            curve.raw as int
        } else {
            -curve.raw
        };
        assert((0 * crate::sample::FRACTION) / size == 0) by (nonlinear_arith)
            requires
                size > 0,
        ;
        assert(zero.spec_over(curve) == zero);
    }
}

/// A real peak lies off its pixel towards the larger of its neighbours, and no further than
/// half a pixel, where halving their difference loses nothing.
#[verifier::spinoff_prover]
pub proof fn lemma_a_peak_leans_to_its_larger_neighbour(mid: Fixed, left: Fixed, right: Fixed)
    requires
        -0x100_0000_0000 <= left.raw <= mid.raw <= 0x100_0000_0000,
        -0x100_0000_0000 <= right.raw <= mid.raw,
    ensures
        left.raw <= right.raw ==> peak_offset(mid, left, right).raw >= 0,
        left.raw >= right.raw ==> peak_offset(mid, left, right).raw <= 0,
        (left.raw - right.raw) % 2 == 0 ==> -32768 <= peak_offset(mid, left, right).raw <= 32768,
{
    let (a, b) = (mid.raw - left.raw, mid.raw - right.raw);
    let two = Fixed::spec_whole(2);
    assert(two.raw == 131072);
    assert((131072 * mid.raw) / 65536 == 2 * mid.raw);
    let curve = left.spec_minus(two.spec_times(mid)).spec_plus(right);
    assert(curve.raw == -(a + b));
    assert(Fixed::spec_whole(1).raw == 65536);
    assert((65536int * 65536) / 131072 == 32768);
    let half = Fixed::spec_whole(1).spec_over(two);
    assert(half.raw == 32768);
    let d = left.spec_minus(right);
    assert(d.raw == b - a);
    let h = (b - a) / 2;
    assert((32768 * d.raw) / 65536 == h);
    assert(half.spec_times(d).raw == h);
    assert(Fixed::spec_whole(0).raw == 0);
    lemma_vanishing_is_nothing();
    if a + b > 0 {
        let n = -h * 65536;
        let q = n / (a + b);
        lemma_peak_quotient(a, b, h, q);
        assert(peak_offset(mid, left, right).raw == q);
    }
}

/// The smallest magnitude is too small for a fixed-point sample to hold.
pub(crate) proof fn lemma_vanishing_is_nothing()
    ensures
        vanishing::<Fixed>().raw == 0,
{
    assert(Fixed::spec_whole(1).raw == 65536);
    assert(Fixed::spec_whole(10_000_000_000).raw == 655_360_000_000_000);
    assert((65536int * 65536) / 655_360_000_000_000 == 0);
    assert((0int * 65536) / 655_360_000_000_000 == 0);
}

#[verifier::spinoff_prover]
proof fn lemma_peak_quotient(a: int, b: int, h: int, q: int)
    requires
        0 <= a,
        0 <= b,
        0 < a + b,
        h == (b - a) / 2,
        q == (-h * 65536) / (a + b),
    ensures
        b <= a ==> q >= 0,
        a <= b ==> q <= 0,
        (a - b) % 2 == 0 ==> -32768 <= q <= 32768,
        -65536 <= q <= 65536,
{
    let m = a + b;
    let n = -h * 65536;
    vstd::arithmetic::div_mod::lemma_fundamental_div_mod(n, m);
    assert(-65536 * m <= n <= 65536 * m);
    assert(b <= a ==> q >= 0) by (nonlinear_arith)
        requires
            m > 0,
            n == m * q + n % m,
            0 <= n % m < m,
            b <= a ==> n >= 0,
    ;
    assert(a <= b ==> q <= 0) by (nonlinear_arith)
        requires
            m > 0,
            n == m * q + n % m,
            0 <= n % m < m,
            a <= b ==> n <= 0,
    ;
    assert(-65536 <= q <= 65536) by (nonlinear_arith)
        requires
            m > 0,
            n == m * q + n % m,
            0 <= n % m < m,
            -65536 * m <= n <= 65536 * m,
    ;
    if (a - b) % 2 == 0 {
        assert(2 * h == b - a);
        assert(-32768 <= q <= 32768) by (nonlinear_arith)
            requires
                m > 0,
                n == m * q + n % m,
                0 <= n % m < m,
                -32768 * m <= n <= 32768 * m,
        ;
    }
}

} // verus!
