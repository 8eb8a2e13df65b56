//! Turning focus maps into blending weights.
//!
//! The sharpest frame is picked at each pixel, and the resulting mask is refined by
//! guided filtering against each frame's own aligned image (He, Sun & Tang, 2013).

use vstd::prelude::*;
use crate::filter::{
    agree, box_mean, box_means, clear_of_bottom, clear_of_top, lemma_box_mean_is_local, product,
    products, zone,
};
use crate::focus::{band_of, kept, Band};
use crate::labels::best_after;
use crate::luma::{luma, luminance};
use crate::sample::{Exact, Fixed, Sample};

verus! {

/// Which tone space the guide image is measured in.
///
/// The guided filter decides how much edge to preserve from the guide's local variance,
/// so this changes which edges are protected.
#[derive(Debug, Clone, Copy, PartialEq, Eq, Structural)]
pub enum GuideSpace {
    /// Guide in linear light, as decoded.
    Linear,
    /// Guide re-encoded to sRGB before measuring variance: thin dark structures then
    /// count as edges the way the eye counts them.
    Perceptual,
}

/// A sample, or zero where it is not above zero.
pub open spec fn not_negative<S: Sample>(v: S) -> S {
    if v.spec_exceeds(S::spec_whole(0)) {
        v
    } else {
        S::spec_whole(0)
    }
}

fn lift_to_zero<S: Sample>(v: S) -> (r: S)
    ensures
        r == not_negative(v),
{
    let zero = S::whole(0);
    if v.exceeds(zero) {
        v
    } else {
        zero
    }
}

/// A pixel's guide before any tone encoding: its luminance, kept from going negative
/// where it is about to be encoded.
pub open spec fn guide_value<S: Sample>(space: GuideSpace, r: S, g: S, b: S) -> S {
    match space {
        GuideSpace::Linear => luminance(r, g, b),
        GuideSpace::Perceptual => not_negative(luminance(r, g, b)),
    }
}

/// The guide of interleaved RGB rows, before any tone encoding.
pub fn guide_rows<S: Sample>(rows: &[S], space: GuideSpace) -> (out: Vec<S>)
    ensures
        out@ == Seq::new(
            (rows@.len() / 3) as nat,
            |i: int| guide_value(space, rows@[3 * i], rows@[3 * i + 1], rows@[3 * i + 2]),
        ),
{
    let n = rows.len() / 3;
    let ghost all = Seq::new(
        (rows@.len() / 3) as nat,
        |i: int| guide_value(space, rows@[3 * i], rows@[3 * i + 1], rows@[3 * i + 2]),
    );
    let mut out: Vec<S> = Vec::with_capacity(n);
    let mut i: usize = 0;
    while i < n
        invariant
            i <= n,
            n == rows@.len() / 3,
            n * 3 <= rows@.len() <= usize::MAX,
            all == Seq::new(
                (rows@.len() / 3) as nat,
                |i: int| guide_value(space, rows@[3 * i], rows@[3 * i + 1], rows@[3 * i + 2]),
            ),
            out@.len() == i,
            forall|k: int| 0 <= k < i ==> #[trigger] out@[k] == all[k],
        decreases n - i,
    {
        let v = luma(rows[3 * i], rows[3 * i + 1], rows[3 * i + 2]);
        let v = match space {
            GuideSpace::Linear => v,
            GuideSpace::Perceptual => lift_to_zero(v),
        };
        out.push(v);
        i += 1;
    }
    assert(out@ =~= all);
    out
}

/// Lets one frame's focus contend for a band: it takes a place over where it is sharper
/// than every frame before it. The first of equals keeps its place.
pub fn contend<S: Sample>(best: &mut Vec<S>, winner: &mut Vec<usize>, focus: &[S], index: usize)
    requires
        old(best)@.len() == focus@.len(),
        old(winner)@.len() == focus@.len(),
    ensures
        final(best)@ == best_after(old(best)@, focus@),
        final(winner)@ == winners_after(old(best)@, old(winner)@, focus@, index),
{
    let ghost (b, w) = (best@, winner@);
    let mut i: usize = 0;
    while i < focus.len()
        invariant
            i <= focus@.len(),
            b.len() == focus@.len(),
            w.len() == focus@.len(),
            best@.len() == focus@.len(),
            winner@.len() == focus@.len(),
            forall|k: int| 0 <= k < i ==> #[trigger] best@[k] == best_after(b, focus@)[k],
            forall|k: int|
                0 <= k < i ==> #[trigger] winner@[k] == winners_after(b, w, focus@, index)[k],
            forall|k: int| i <= k < focus@.len() ==> #[trigger] best@[k] == b[k],
            forall|k: int| i <= k < focus@.len() ==> #[trigger] winner@[k] == w[k],
        decreases focus@.len() - i,
    {
        let v = focus[i];
        if v.exceeds(best[i]) {
            best.set(i, v);
            winner.set(i, index);
        }
        i += 1;
    }
    assert(best@ =~= best_after(b, focus@));
    assert(winner@ =~= winners_after(b, w, focus@, index));
}

/// Who holds each place after a frame has contended for it.
pub open spec fn winners_after<S: Sample>(
    best: Seq<S>,
    winner: Seq<usize>,
    focus: Seq<S>,
    index: usize,
) -> Seq<usize> {
    Seq::new(
        winner.len(),
        |i: int|
            if focus[i].spec_exceeds(best[i]) {
                index
            } else {
                winner[i]
            },
    )
}

/// One where a frame was picked, zero elsewhere.
pub open spec fn mask<S: Sample>(labels: Seq<usize>, index: int) -> Seq<S> {
    labels.map_values(
        |l: usize|
            if l == index {
                S::spec_whole(1)
            } else {
                S::spec_whole(0)
            },
    )
}

/// A frame's one-hot selection mask.
pub fn selection_mask<S: Sample>(labels: &[usize], index: usize) -> (out: Vec<S>)
    ensures
        out@ == mask::<S>(labels@, index as int),
{
    let (one, zero) = (S::whole(1), S::whole(0));
    let mut out: Vec<S> = Vec::with_capacity(labels.len());
    let mut i: usize = 0;
    while i < labels.len()
        invariant
            i <= labels@.len(),
            one == S::spec_whole(1),
            zero == S::spec_whole(0),
            out@.len() == i,
            forall|k: int|
                0 <= k < i ==> #[trigger] out@[k] == (if labels@[k] == index {
                    one
                } else {
                    zero
                }),
        decreases labels@.len() - i,
    {
        out.push(
            if labels[i] == index {
                one
            } else {
                zero
            },
        );
        i += 1;
    }
    assert(out@ =~= mask::<S>(labels@, index as int));
    out
}

/// The slope of the locally linear model at each window: covariance over regularized
/// variance.
pub open spec fn slopes<S: Sample>(
    guide: Seq<S>,
    input: Seq<S>,
    w: int,
    h: int,
    r: int,
    epsilon: S,
) -> Seq<S> {
    let mean_i = box_means(guide, w, h, r);
    let mean_p = box_means(input, w, h, r);
    let corr_i = box_means(products(guide, guide), w, h, r);
    let corr_ip = box_means(products(guide, input), w, h, r);
    Seq::new(
        guide.len(),
        |i: int|
            {
                let variance = corr_i[i].spec_minus(mean_i[i].spec_times(mean_i[i]));
                let covariance = corr_ip[i].spec_minus(mean_i[i].spec_times(mean_p[i]));
                covariance.spec_over(variance.spec_plus(epsilon))
            },
    )
}

/// The intercept of the locally linear model at each window.
pub open spec fn intercepts<S: Sample>(
    guide: Seq<S>,
    input: Seq<S>,
    w: int,
    h: int,
    r: int,
    epsilon: S,
) -> Seq<S> {
    let a = slopes(guide, input, w, h, r, epsilon);
    let mean_i = box_means(guide, w, h, r);
    let mean_p = box_means(input, w, h, r);
    Seq::new(guide.len(), |i: int| mean_p[i].spec_minus(a[i].spec_times(mean_i[i])))
}

/// The guided filter: locally a linear function of the guide, with the coefficients
/// averaged over overlapping windows.
pub open spec fn guided<S: Sample>(
    guide: Seq<S>,
    input: Seq<S>,
    w: int,
    h: int,
    r: int,
    epsilon: S,
) -> Seq<S> {
    let mean_a = box_means(slopes(guide, input, w, h, r, epsilon), w, h, r);
    let mean_b = box_means(intercepts(guide, input, w, h, r, epsilon), w, h, r);
    Seq::new(guide.len(), |i: int| mean_a[i].spec_times(guide[i]).spec_plus(mean_b[i]))
}

proof fn lemma_means_length<S: Sample>(data: Seq<S>, w: int, h: int, r: int)
    requires
        w >= 0,
        h >= 0,
    ensures
        box_means(data, w, h, r).len() == w * h,
{
    assert(w * h * 1 == w * h && w * h >= 0) by (nonlinear_arith)
        requires
            w >= 0,
            h >= 0,
    ;
}

/// He, Sun & Tang's guided filter.
///
/// `epsilon` sets how much guide variance counts as an edge worth preserving rather than
/// noise worth smoothing.
pub fn guided_filter<S: Sample>(
    guide: &[S],
    input: &[S],
    width: u32,
    height: u32,
    radius: u32,
    epsilon: S,
) -> (out: Vec<S>)
    requires
        width > 0,
        height > 0,
        guide@.len() == width * height,
        input@.len() == width * height,
    ensures
        out@ == guided(guide@, input@, width as int, height as int, radius as int, epsilon),
{
    let ghost (w, h, r) = (width as int, height as int, radius as int);
    let n = guide.len();
    proof {
        lemma_means_length(guide@, w, h, r);
        lemma_means_length(input@, w, h, r);
        lemma_means_length(products(guide@, guide@), w, h, r);
        lemma_means_length(products(guide@, input@), w, h, r);
    }
    let mean_i = box_mean(guide, width, height, radius);
    let mean_p = box_mean(input, width, height, radius);
    let corr_i = box_mean(product(guide, guide).as_slice(), width, height, radius);
    let corr_ip = box_mean(product(guide, input).as_slice(), width, height, radius);
    let mut a: Vec<S> = Vec::with_capacity(n);
    let mut b: Vec<S> = Vec::with_capacity(n);
    let ghost (slope, intercept) = (
        slopes(guide@, input@, w, h, r, epsilon),
        intercepts(guide@, input@, w, h, r, epsilon),
    );
    let mut i: usize = 0;
    while i < n
        invariant
            i <= n,
            n == guide@.len(),
            mean_i@.len() == n,
            mean_p@.len() == n,
            corr_i@.len() == n,
            corr_ip@.len() == n,
            mean_i@ == box_means(guide@, w, h, r),
            mean_p@ == box_means(input@, w, h, r),
            corr_i@ == box_means(products(guide@, guide@), w, h, r),
            corr_ip@ == box_means(products(guide@, input@), w, h, r),
            slope == slopes(guide@, input@, w, h, r, epsilon),
            intercept == intercepts(guide@, input@, w, h, r, epsilon),
            a@.len() == i,
            b@.len() == i,
            forall|k: int| 0 <= k < i ==> #[trigger] a@[k] == slope[k],
            forall|k: int| 0 <= k < i ==> #[trigger] b@[k] == intercept[k],
        decreases n - i,
    {
        let variance = corr_i[i].minus(mean_i[i].times(mean_i[i]));
        let covariance = corr_ip[i].minus(mean_i[i].times(mean_p[i]));
        let s = covariance.over(variance.plus(epsilon));
        a.push(s);
        b.push(mean_p[i].minus(s.times(mean_i[i])));
        i += 1;
    }
    assert(a@ =~= slope);
    assert(b@ =~= intercept);
    proof {
        lemma_means_length(slope, w, h, r);
        lemma_means_length(intercept, w, h, r);
    }
    let mean_a = box_mean(a.as_slice(), width, height, radius);
    let mean_b = box_mean(b.as_slice(), width, height, radius);
    let ghost all = guided(guide@, input@, w, h, r, epsilon);
    let mut out: Vec<S> = Vec::with_capacity(n);
    let mut i: usize = 0;
    while i < n
        invariant
            i <= n,
            n == guide@.len(),
            mean_a@.len() == n,
            mean_b@.len() == n,
            mean_a@ == box_means(slope, w, h, r),
            mean_b@ == box_means(intercept, w, h, r),
            slope == slopes(guide@, input@, w, h, r, epsilon),
            intercept == intercepts(guide@, input@, w, h, r, epsilon),
            all == guided(guide@, input@, w, h, r, epsilon),
            out@.len() == i,
            forall|k: int| 0 <= k < i ==> #[trigger] out@[k] == all[k],
        decreases n - i,
    {
        out.push(mean_a[i].times(guide[i]).plus(mean_b[i]));
        i += 1;
    }
    assert(out@ =~= all);
    out
}

/// The rows around a refined band: two box passes, each reaching the radius.
pub open spec fn refine_halo(radius: int) -> int {
    2 * radius
}

/// One band of a frame's refined weight, from the guide rows and labels it reads. The
/// filter can undershoot slightly; weights stay non-negative.
pub fn refine_band<S: Sample>(
    guide: &[S],
    labels: &[usize],
    index: usize,
    width: u32,
    radius: u32,
    epsilon: S,
    b: Band,
) -> (out: Vec<S>)
    requires
        width > 0,
        b.from <= b.y0,
        b.y0 + b.rows <= b.to,
        0 < b.rows,
        guide@.len() == width * (b.to - b.from),
        labels@.len() == width * (b.to - b.from),
    ensures
        out@ == kept(
            guided(
                guide@,
                mask::<S>(labels@, index as int),
                width as int,
                b.to - b.from,
                radius as int,
                epsilon,
            ),
            width as int,
            b,
        ).map_values(|v: S| not_negative(v)),
{
    let span = b.to - b.from;
    let input: Vec<S> = selection_mask(labels, index);
    let q = guided_filter(guide, input.as_slice(), width, span, radius, epsilon);
    let w: usize = width as usize;
    let first: usize = (b.y0 - b.from) as usize;
    let rows: usize = b.rows as usize;
    assert(guide@.len() == guide.len());
    assert(0 <= first * w && first * w + rows * w == (first + rows) * w && (first + rows) * w
        <= width * span) by (nonlinear_arith)
        requires
            first + rows <= span,
            w == width,
    ;
    let start: usize = first * w;
    let end: usize = (first + rows) * w;
    let ghost whole = q@.subrange(start as int, end as int);
    let mut out: Vec<S> = Vec::with_capacity(end - start);
    let mut i: usize = start;
    while i < end
        invariant
            start <= i <= end,
            end <= q@.len(),
            whole == q@.subrange(start as int, end as int),
            out@.len() == i - start,
            forall|k: int| 0 <= k < i - start ==> #[trigger] out@[k] == not_negative(whole[k]),
        decreases end - i,
    {
        assert(whole[i - start] == q@[i as int]);
        out.push(lift_to_zero(q[i]));
        i += 1;
    }
    assert(out@ =~= whole.map_values(|v: S| not_negative(v)));
    out
}

/// The smallest total that weights are divided by: one part in a hundred million.
pub open spec fn least_total<S: Sample>() -> S {
    S::spec_whole(1).spec_over(S::spec_whole(100_000_000))
}

/// The weights at a place, added in the order of the frames.
pub open spec fn total_weight<S: Sample>(planes: Seq<Vec<S>>, i: int, n: nat) -> S
    decreases n,
{
    if n == 0 {
        S::spec_whole(0)
    } else {
        total_weight(planes, i, (n - 1) as nat).spec_plus(planes[n - 1]@[i])
    }
}

/// A weight as a share of its place's total. Where nothing is in focus, each of the `n`
/// frames has the same share.
pub open spec fn share<S: Sample>(weight: S, total: S, n: int) -> S {
    if total.spec_exceeds(least_total::<S>()) {
        weight.spec_over(total)
    } else {
        S::spec_whole(1).spec_over(S::spec_whole(n as i64))
    }
}

/// A weight scaled so that a place's weights sum to one.
pub open spec fn fair_share<S: Sample>(planes: Seq<Vec<S>>, k: int, i: int) -> S {
    share(planes[k]@[i], total_weight(planes, i, planes.len()), planes.len() as int)
}

/// Adds a frame's weights to the totals of a band.
pub fn tally<S: Sample>(totals: &mut Vec<S>, weights: &[S])
    requires
        old(totals)@.len() == weights@.len(),
    ensures
        final(totals)@ == Seq::new(
            weights@.len(),
            |i: int| old(totals)@[i].spec_plus(weights@[i]),
        ),
{
    let ghost before = totals@;
    let ghost all = Seq::new(weights@.len(), |i: int| before[i].spec_plus(weights@[i]));
    let mut i: usize = 0;
    while i < weights.len()
        invariant
            i <= weights@.len(),
            before.len() == weights@.len(),
            totals@.len() == weights@.len(),
            all == Seq::new(weights@.len(), |i: int| before[i].spec_plus(weights@[i])),
            forall|k: int| 0 <= k < i ==> #[trigger] totals@[k] == all[k],
            forall|k: int| i <= k < weights@.len() ==> #[trigger] totals@[k] == before[k],
        decreases weights@.len() - i,
    {
        totals.set(i, totals[i].plus(weights[i]));
        i += 1;
    }
    assert(totals@ =~= all);
}

/// A frame's weights over a band, as shares of the totals of `n` frames.
pub fn shares<S: Sample>(weights: &[S], totals: &[S], n: usize) -> (out: Vec<S>)
    requires
        weights@.len() == totals@.len(),
        n <= i64::MAX,
    ensures
        out@ == Seq::new(
            weights@.len(),
            |i: int| share(weights@[i], totals@[i], n as int),
        ),
{
    let least = S::whole(1).over(S::whole(100_000_000));
    let even = S::whole(1).over(S::whole(n as i64));
    let ghost all = Seq::new(weights@.len(), |i: int| share(weights@[i], totals@[i], n as int));
    let mut out: Vec<S> = Vec::with_capacity(weights.len());
    let mut i: usize = 0;
    while i < weights.len()
        invariant
            i <= weights@.len(),
            weights@.len() == totals@.len(),
            least == least_total::<S>(),
            even == S::spec_whole(1).spec_over(S::spec_whole(n as i64)),
            all == Seq::new(
                weights@.len(),
                |i: int| share(weights@[i], totals@[i], n as int),
            ),
            out@.len() == i,
            forall|k: int| 0 <= k < i ==> #[trigger] out@[k] == all[k],
        decreases weights@.len() - i,
    {
        let v = if totals[i].exceeds(least) {
            weights[i].over(totals[i])
        } else {
            even
        };
        out.push(v);
        i += 1;
    }
    assert(out@ =~= all);
    out
}

/// Scale each pixel's weights across frames to sum to one, over the same rows of every
/// frame's plane.
pub fn normalize<S: Sample>(planes: &Vec<Vec<S>>, len: usize) -> (out: Vec<Vec<S>>)
    requires
        planes@.len() <= i64::MAX,
        forall|k: int| 0 <= k < planes@.len() ==> (#[trigger] planes@[k])@.len() == len,
    ensures
        out@.len() == planes@.len(),
        forall|k: int| 0 <= k < out@.len() ==> (#[trigger] out@[k])@.len() == len,
        forall|k: int, i: int|
            0 <= k < out@.len() && 0 <= i < len ==> #[trigger] out@[k]@[i] == fair_share(
                planes@,
                k,
                i,
            ),
{
    let mut totals = filled(S::whole(0), len);
    let mut k: usize = 0;
    while k < planes.len()
        invariant
            k <= planes@.len(),
            forall|k: int| 0 <= k < planes@.len() ==> (#[trigger] planes@[k])@.len() == len,
            totals@.len() == len,
            forall|i: int|
                0 <= i < len ==> #[trigger] totals@[i] == total_weight(planes@, i, k as nat),
        decreases planes@.len() - k,
    {
        tally(&mut totals, planes[k].as_slice());
        k += 1;
    }
    let mut out: Vec<Vec<S>> = Vec::new();
    let mut k: usize = 0;
    while k < planes.len()
        invariant
            k <= planes@.len() <= i64::MAX,
            forall|k: int| 0 <= k < planes@.len() ==> (#[trigger] planes@[k])@.len() == len,
            totals@.len() == len,
            forall|i: int|
                0 <= i < len ==> #[trigger] totals@[i] == total_weight(
                    planes@,
                    i,
                    planes@.len(),
                ),
            out@.len() == k,
            forall|m: int| 0 <= m < k ==> (#[trigger] out@[m])@.len() == len,
            forall|m: int, i: int|
                0 <= m < k && 0 <= i < len ==> #[trigger] out@[m]@[i] == fair_share(planes@, m, i),
        decreases planes@.len() - k,
    {
        out.push(shares(planes[k].as_slice(), totals.as_slice(), planes.len()));
        k += 1;
    }
    out
}

/// The first `n` weights at a place, added without wrapping around.
pub open spec fn raw_total(planes: Seq<Vec<Fixed>>, i: int, n: nat) -> int
    decreases n,
{
    if n == 0 {
        0
    } else {
        raw_total(planes, i, (n - 1) as nat) + planes[n - 1]@[i].raw
    }
}

/// The first `n` shares at a place, added without wrapping around.
pub open spec fn raw_shares(planes: Seq<Vec<Fixed>>, i: int, n: nat) -> int
    decreases n,
{
    if n == 0 {
        0
    } else {
        raw_shares(planes, i, (n - 1) as nat) + fair_share(planes, n - 1, i).raw
    }
}

/// The least total is too small for a fixed-point sample to hold.
proof fn lemma_least_total()
    ensures
        least_total::<Fixed>().raw == 0,
{
    assert(Fixed::spec_whole(1).raw == 65536);
    assert(Fixed::spec_whole(100_000_000).raw == 6_553_600_000_000);
    assert((65536int * 65536) / 6_553_600_000_000 == 0);
}

/// A total that is in range is the sum of its weights.
#[verifier::spinoff_prover]
proof fn lemma_total_is_the_sum(planes: Seq<Vec<Fixed>>, i: int, n: nat, all: nat)
    requires
        n <= all <= planes.len(),
        forall|k: int| 0 <= k < planes.len() ==> (#[trigger] planes[k])@[i].raw >= 0,
        raw_total(planes, i, all) < 0x8000_0000_0000,
    ensures
        total_weight(planes, i, n).raw == raw_total(planes, i, n),
        0 <= raw_total(planes, i, n) <= raw_total(planes, i, all),
    decreases all, n,
{
    assert(Fixed::spec_whole(0).raw == 0);
    if n < all {
        lemma_total_is_the_sum(planes, i, n, (all - 1) as nat);
        lemma_total_is_the_sum(planes, i, (all - 1) as nat, (all - 1) as nat);
        assert(planes[all - 1]@[i].raw >= 0);
    } else if n > 0 {
        assert(planes[n - 1]@[i].raw >= 0);
        lemma_total_is_the_sum(planes, i, (n - 1) as nat, (n - 1) as nat);
    }
}

/// The shares of a total that is in range, each rounded down, fall short of the sum's own
/// share by less than one unit in the last place each.
#[verifier::spinoff_prover]
proof fn lemma_shares_of_a_total(planes: Seq<Vec<Fixed>>, i: int, n: nat, t: int)
    requires
        n <= planes.len(),
        forall|k: int| 0 <= k < planes.len() ==> (#[trigger] planes[k])@[i].raw >= 0,
        t == raw_total(planes, i, planes.len()),
        0 < t < 0x8000_0000_0000,
    ensures
        t * raw_shares(planes, i, n) <= 65536 * raw_total(planes, i, n),
        n > 0 ==> 65536 * raw_total(planes, i, n) < t * (raw_shares(planes, i, n) + n),
    decreases n,
{
    lemma_total_is_the_sum(planes, i, planes.len(), planes.len());
    lemma_total_is_the_sum(planes, i, n, planes.len());
    if n == 0 {
        assert(t * 0 == 0) by (nonlinear_arith);
    } else {
        let m = (n - 1) as nat;
        lemma_shares_of_a_total(planes, i, m, t);
        lemma_total_is_the_sum(planes, i, m, planes.len());
        let r = planes[n - 1]@[i].raw as int;
        let q = (r * 65536) / t;
        vstd::arithmetic::div_mod::lemma_fundamental_div_mod(r * 65536, t);
        assert(0 <= r <= t);
        assert(0 <= q <= 65536) by (nonlinear_arith)
            requires
                0 <= r <= t,
                0 < t,
                q == (r * 65536) / t,
        ;
        lemma_least_total();
        assert(fair_share(planes, n - 1, i).raw == q);
        let (sm, rm) = (raw_shares(planes, i, m), raw_total(planes, i, m));
        assert(t * (sm + q) == t * sm + t * q) by (nonlinear_arith);
        assert(t * (sm + q + n) == t * (sm + m) + t * q + t) by (nonlinear_arith)
            requires
                n == m + 1,
        ;
        if m == 0 {
            assert(t * (sm + m) == 0) by (nonlinear_arith)
                requires
                    sm == 0,
                    m == 0,
            ;
        }
    }
}

/// Where every frame has the same share, so many shares are one, but for rounding.
#[verifier::spinoff_prover]
proof fn lemma_even_shares(planes: Seq<Vec<Fixed>>, i: int, n: nat)
    requires
        n <= planes.len(),
        0 < planes.len() <= 0xffff,
        !total_weight(planes, i, planes.len()).spec_exceeds(least_total::<Fixed>()),
    ensures
        raw_shares(planes, i, n) == n * (65536int / planes.len() as int),
    decreases n,
{
    let all = planes.len() as int;
    let q = 65536int / all;
    if n == 0 {
        assert(0 * q == 0) by (nonlinear_arith);
    } else {
        lemma_even_shares(planes, i, (n - 1) as nat);
        let p = all * 65536;
        assert(Fixed::spec_whole(all as i64).raw == p);
        assert(Fixed::spec_whole(1).raw == 65536);
        assert((65536int * 65536) / p == q && 0 <= q <= 65536) by (nonlinear_arith)
            requires
                p == all * 65536,
                0 < all,
                q == 65536int / all,
        ;
        assert(fair_share(planes, n - 1, i).raw == q);
        assert(n * q == (n - 1) * q + q) by (nonlinear_arith);
    }
}

/// A pixel's weights sum to one, but for what each of them loses to rounding: less than one
/// unit in the last place.
pub proof fn lemma_weights_sum_to_one(planes: Seq<Vec<Fixed>>, i: int)
    requires
        0 < planes.len() <= 0xffff,
        forall|k: int| 0 <= k < planes.len() ==> (#[trigger] planes[k])@[i].raw >= 0,
        raw_total(planes, i, planes.len()) < 0x8000_0000_0000,
    ensures
        65536 - planes.len() < raw_shares(planes, i, planes.len()) <= 65536,
{
    let n = planes.len();
    let t = raw_total(planes, i, n);
    let sum = raw_shares(planes, i, n);
    lemma_total_is_the_sum(planes, i, n, n);
    lemma_least_total();
    if t > 0 {
        lemma_shares_of_a_total(planes, i, n, t);
        assert(65536 - n < sum <= 65536) by (nonlinear_arith)
            requires
                0 < t,
                t * sum <= 65536 * t,
                65536 * t < t * (sum + n),
        ;
    } else {
        lemma_even_shares(planes, i, n);
        let q = 65536int / (n as int);
        assert(65536 - n < n * q <= 65536) by (nonlinear_arith)
            requires
                0 < n,
                q == 65536int / (n as int),
        ;
    }
}

/// `len` copies of a value.
pub(crate) fn filled<T: Copy>(v: T, len: usize) -> (out: Vec<T>)
    ensures
        out@ == Seq::new(len as nat, |i: int| v),
{
    let mut out: Vec<T> = Vec::with_capacity(len);
    let mut i: usize = 0;
    while i < len
        invariant
            i <= len,
            out@ == Seq::new(i as nat, |i: int| v),
        decreases len - i,
    {
        out.push(v);
        i += 1;
        assert(out@ =~= Seq::new(i as nat, |i: int| v));
    }
    out
}

/// Sample-by-sample products agree where their factors do.
proof fn lemma_products_are_local<S: Sample>(
    a: Seq<S>,
    b: Seq<S>,
    c: Seq<S>,
    d: Seq<S>,
    w: int,
    h: int,
    from: int,
    n: int,
)
    requires
        zone(h, from, n, from, from + n),
        w > 0,
        a.len() == w * n,
        b.len() == w * n,
        c.len() == w * h,
        d.len() == w * h,
        agree(a, c, w, from, from, from + n),
        agree(b, d, w, from, from, from + n),
    ensures
        agree(products(a, b), products(c, d), w, from, from, from + n),
{
    assert forall|x: int, y: int| 0 <= x < w && from <= y < from + n implies #[trigger] products(
        a,
        b,
    )[(y - from) * w + x] == products(c, d)[y * w + x] by {
        crate::layout::lemma_place(x, y, w, h);
        crate::layout::lemma_place(x, y - from, w, n);
        assert(a[(y - from) * w + x] == c[y * w + x]);
        assert(b[(y - from) * w + x] == d[y * w + x]);
    }
}

/// A band's halo keeps its own edges from reaching the rows that are kept: for exact
/// samples, the guided filter of a band and of the whole plane agree on every row that is
/// twice the radius clear of the band's edges, or of no edge but the plane's own.
pub proof fn lemma_guided_filter_is_local<S: Exact>(
    guide: Seq<S>,
    input: Seq<S>,
    whole_guide: Seq<S>,
    whole_input: Seq<S>,
    w: int,
    h: int,
    from: int,
    n: int,
    r: int,
    epsilon: S,
)
    requires
        zone(h, from, n, from, from + n),
        w > 0,
        r >= 0,
        guide.len() == w * n,
        input.len() == w * n,
        whole_guide.len() == w * h,
        whole_input.len() == w * h,
        agree(guide, whole_guide, w, from, from, from + n),
        agree(input, whole_input, w, from, from, from + n),
        clear_of_top(from, r) <= clear_of_bottom(from + n, h, r),
        (clear_of_top(from, r) == 0 ==> from == 0),
    ensures
        agree(
            guided(guide, input, w, n, r, epsilon),
            guided(whole_guide, whole_input, w, h, r, epsilon),
            w,
            from,
            clear_of_top(clear_of_top(from, r), r),
            clear_of_bottom(clear_of_bottom(from + n, h, r), h, r),
        ),
{
    let to = from + n;
    let (lo, hi) = (clear_of_top(from, r), clear_of_bottom(to, h, r));
    lemma_products_are_local(guide, guide, whole_guide, whole_guide, w, h, from, n);
    lemma_products_are_local(guide, input, whole_guide, whole_input, w, h, from, n);
    lemma_box_mean_is_local(guide, whole_guide, w, h, from, n, from, to, r);
    lemma_box_mean_is_local(input, whole_input, w, h, from, n, from, to, r);
    lemma_box_mean_is_local(
        products(guide, guide),
        products(whole_guide, whole_guide),
        w,
        h,
        from,
        n,
        from,
        to,
        r,
    );
    lemma_box_mean_is_local(
        products(guide, input),
        products(whole_guide, whole_input),
        w,
        h,
        from,
        n,
        from,
        to,
        r,
    );
    let (a, c) = (
        slopes(guide, input, w, n, r, epsilon),
        slopes(whole_guide, whole_input, w, h, r, epsilon),
    );
    let (b, d) = (
        intercepts(guide, input, w, n, r, epsilon),
        intercepts(whole_guide, whole_input, w, h, r, epsilon),
    );
    let (gi, wi) = (box_means(guide, w, n, r), box_means(whole_guide, w, h, r));
    let (gp, wp) = (box_means(input, w, n, r), box_means(whole_input, w, h, r));
    let (gii, wii) = (
        box_means(products(guide, guide), w, n, r),
        box_means(products(whole_guide, whole_guide), w, h, r),
    );
    let (gip, wip) = (
        box_means(products(guide, input), w, n, r),
        box_means(products(whole_guide, whole_input), w, h, r),
    );
    assert forall|x: int, y: int| 0 <= x < w && lo <= y < hi implies #[trigger] a[(y - from) * w
        + x] == c[y * w + x] && b[(y - from) * w + x] == d[y * w + x] by {
        crate::layout::lemma_place(x, y, w, h);
        crate::layout::lemma_place(x, y - from, w, n);
        let (i, j) = ((y - from) * w + x, y * w + x);
        assert(gi[i] == wi[j] && gp[i] == wp[j] && gii[i] == wii[j] && gip[i] == wip[j]);
    }
    assert forall|x: int, y: int| 0 <= x < w && lo <= y < hi implies #[trigger] b[(y - from) * w
        + x] == d[y * w + x] by {
        assert(a[(y - from) * w + x] == c[y * w + x]);
    }
    lemma_box_mean_is_local(a, c, w, h, from, n, lo, hi, r);
    lemma_box_mean_is_local(b, d, w, h, from, n, lo, hi, r);
    let (ma, mc) = (box_means(a, w, n, r), box_means(c, w, h, r));
    let (mb, md) = (box_means(b, w, n, r), box_means(d, w, h, r));
    let (p, q) = (clear_of_top(lo, r), clear_of_bottom(hi, h, r));
    assert forall|x: int, y: int| 0 <= x < w && p <= y < q implies #[trigger] guided(
        guide,
        input,
        w,
        n,
        r,
        epsilon,
    )[(y - from) * w + x] == guided(whole_guide, whole_input, w, h, r, epsilon)[y * w + x] by {
        crate::layout::lemma_place(x, y, w, h);
        crate::layout::lemma_place(x, y - from, w, n);
        let (i, j) = ((y - from) * w + x, y * w + x);
        assert(ma[i] == mc[j] && mb[i] == md[j]);
        assert(guide[i] == whole_guide[j]);
    }
}

/// Refined bands leave no seam: for exact samples, a band's output rows are the rows that
/// filtering the whole plane at once gives, wherever the band begins.
pub proof fn lemma_refined_bands_leave_no_seam<S: Exact>(
    guide: Seq<S>,
    input: Seq<S>,
    w: int,
    h: int,
    r: int,
    epsilon: S,
    y0: int,
)
    requires
        0 < w,
        0 <= y0 < h <= u32::MAX,
        r >= 0,
        guide.len() == w * h,
        input.len() == w * h,
    ensures
        ({
            let b = band_of(h, y0, refine_halo(r), 1);
            let (from, to) = (b.from * w, b.to * w);
            kept(
                guided(
                    guide.subrange(from, to),
                    input.subrange(from, to),
                    w,
                    b.to - b.from,
                    r,
                    epsilon,
                ),
                w,
                b,
            ) == guided(guide, input, w, h, r, epsilon).subrange(b.y0 * w, (b.y0 + b.rows) * w)
        }),
{
    let b = band_of(h, y0, refine_halo(r), 1);
    let (from, n) = (b.from as int, b.to - b.from);
    assert(0 <= from * w && from * w + n * w == b.to * w && b.to * w <= w * h)
        by (nonlinear_arith)
        requires
            0 <= from,
            n == b.to - from,
            from <= b.to <= h,
            0 < w,
    ;
    assert(n * w == w * n) by (nonlinear_arith);
    let (g, p) = (guide.subrange(from * w, b.to * w), input.subrange(from * w, b.to * w));
    assert forall|x: int, y: int| 0 <= x < w && from <= y < from + n implies #[trigger] g[(y - from)
        * w + x] == guide[y * w + x] && p[(y - from) * w + x] == input[y * w + x] by {
        crate::layout::lemma_place(x, y - from, w, n);
        assert(from * w + ((y - from) * w + x) == y * w + x) by (nonlinear_arith);
    }
    assert forall|x: int, y: int| 0 <= x < w && from <= y < from + n implies #[trigger] p[(y - from)
        * w + x] == input[y * w + x] by {
        assert(g[(y - from) * w + x] == guide[y * w + x]);
    }
    lemma_guided_filter_is_local(g, p, guide, input, w, h, from, n, r, epsilon);
    let (left, right) = (
        kept(guided(g, p, w, n, r, epsilon), w, b),
        guided(guide, input, w, h, r, epsilon).subrange(b.y0 * w, (b.y0 + b.rows) * w),
    );
    let first = y0 - from;
    assert(0 <= first * w && (first + b.rows) * w <= w * n && 0 <= y0 * w && (y0 + b.rows) * w <= w
        * h && (first + b.rows) * w - first * w == w * b.rows && (y0 + b.rows) * w - y0 * w == w
        * b.rows) by (nonlinear_arith)
        requires
            0 <= first,
            first + b.rows <= n,
            0 <= y0,
            y0 + b.rows <= h,
            0 < w,
    ;
    let (all_g, all_w) = (
        guided(g, p, w, n, r, epsilon),
        guided(guide, input, w, h, r, epsilon),
    );
    assert forall|i: int| 0 <= i < w * b.rows implies #[trigger] left[i] == right[i] by {
        crate::layout::lemma_column_and_row(i, w, b.rows as int);
        let (x, k) = (i % w, i / w);
        let y = y0 + k;
        assert(first * w + i == (y - from) * w + x && y0 * w + i == y * w + x) by (nonlinear_arith)
            requires
                i == k * w + x,
                first == y0 - from,
                y == y0 + k,
        ;
        assert(all_g[(y - from) * w + x] == all_w[y * w + x]);
    }
    assert(left =~= right);
}

} // verus!
