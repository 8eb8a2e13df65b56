//! Where an alignment puts a frame: as far as the peak of the correlation stands from the
//! origin, to the right and down for a frame whose content lies to the right and below.

use vstd::prelude::*;
use crate::correlate::{
    aligned, correlated, fourier_fits, measures, plain_bins, transforms,
};
use crate::image::{lemma_two_to_grows, two_to};
use crate::labels::{champion, lemma_champion_is_the_first_maximum};
use crate::layout::{lemma_column_and_row, lemma_place};
use crate::pipeline::{followed_by, Transform};
use crate::plane::Sheet;
use crate::registration::{
    cross_spectrum, crossed, displacement_of, lemma_symmetric_peak_is_centred, peak_of, placed,
    power_for, prepared, signed, strongest, whitened, whitening, Phasor, WHITENING_PARTS,
};
use crate::rounding::{
    bounded, lemma_difference, lemma_part, lemma_product_of, lemma_sum, lemma_whole,
};
use crate::sample::{wrap, Fixed, Sample};

verus! {

/// Is one magnitude larger than all others? It stands at column `px` of row `py`.
pub open spec fn peaks_at(mags: Seq<Fixed>, fw: int, fh: int, px: int, py: int) -> bool {
    &&& 0 <= px < fw
    &&& 0 <= py < fh
    &&& mags.len() == fw * fh
    &&& i64::MIN < mags[py * fw + px].raw
    &&& forall|x: int, y: int|
        0 <= x < fw && 0 <= y < fh && (x != px || y != py) ==> i64::MIN < (#[trigger] mags[y * fw
            + x]).raw < mags[py * fw + px].raw
}

/// Is a peak level with itself on both sides, along each axis? Neighbours are counted around
/// the edges.
pub open spec fn level_sides(mags: Seq<Fixed>, fw: int, fh: int, px: int, py: int) -> bool {
    &&& mags[py * fw + (px + fw - 1) % fw] == mags[py * fw + (px + 1) % fw]
    &&& mags[((py + fh - 1) % fh) * fw + px] == mags[((py + 1) % fh) * fw + px]
}

/// A place on an axis that goes around, as a distance from the origin: the first half lies
/// ahead of it, and the second behind.
pub open spec fn ahead_or_behind(p: int, n: int) -> int {
    if 2 * p < n {
        p
    } else {
        p - n
    }
}

proof fn lemma_peak(mags: Seq<Fixed>, fw: int, fh: int, px: int, py: int)
    requires
        peaks_at(mags, fw, fh, px, py),
    ensures
        peak_of(mags) == py * fw + px,
        0 <= py * fw + px < mags.len(),
        (py * fw + px) % fw == px,
        (py * fw + px) / fw == py,
{
    let p = py * fw + px;
    lemma_place(px, py, fw, fh);
    let value = |i: int| mags[i];
    let seed = Fixed::spec_lowest();
    assert forall|k: int| 0 <= k < mags.len() implies (#[trigger] value(k)).spec_exceeds(seed)
        && (k != p ==> value(k).raw < mags[p].raw) by {
        lemma_column_and_row(k, fw, fh);
        let (x, y) = (k % fw, k / fw);
        assert(mags[y * fw + x] == mags[k]);
    }
    lemma_champion_is_the_first_maximum(value, seed, mags.len());
    let who = champion(value, seed, mags.len()).1;
    if who != p {
        assert(!value(p).spec_exceeds(champion(value, seed, mags.len()).0));
    }
}

/// The peak of a correlation is the displacement: as far to the right as it stands from the
/// first column, and as far down as it stands from the first row, or as far to the left and
/// up where it stands in the second half.
#[verifier::spinoff_prover]
pub proof fn lemma_the_peak_is_the_displacement(
    mags: Seq<Fixed>,
    fw: int,
    fh: int,
    px: int,
    py: int,
)
    requires
        0 < fw <= 0x4000_0000,
        0 < fh <= 0x4000_0000,
        peaks_at(mags, fw, fh, px, py),
        level_sides(mags, fw, fh, px, py),
    ensures
        displacement_of(mags, fw, fh).0.raw == ahead_or_behind(px, fw) * 65536,
        displacement_of(mags, fw, fh).1.raw == ahead_or_behind(py, fh) * 65536,
{
    lemma_peak(mags, fw, fh, px, py);
    let best = mags[py * fw + px];
    let side = mags[py * fw + (px + 1) % fw];
    let rise = mags[((py + 1) % fh) * fw + px];
    lemma_symmetric_peak_is_centred(best, side);
    lemma_symmetric_peak_is_centred(best, rise);
    lemma_whole(0);
    lemma_whole(px);
    lemma_whole(py);
    let zero = Fixed::spec_whole(0);
    lemma_sum(Fixed::spec_whole(px as i64), zero);
    lemma_sum(Fixed::spec_whole(py as i64), zero);
    lemma_signed_place(px, fw);
    lemma_signed_place(py, fh);
}

proof fn lemma_signed_place(p: int, n: int)
    requires
        0 <= p < n <= 0x4000_0000,
    ensures
        signed(Fixed { raw: (p * 65536) as i64 }, n).raw == ahead_or_behind(p, n) * 65536,
{
    lemma_whole(n);
    lemma_whole(2);
    assert((n * 65536 * 65536) / 131072 == n * 32768);
    let extent = Fixed::spec_whole(n as i64);
    assert(extent.spec_over(Fixed::spec_whole(2)).raw == n * 32768);
    lemma_difference(Fixed { raw: (p * 65536) as i64 }, extent);
}

/// Exchanging rows and columns of a correlation exchanges the displacement's axes, refined
/// between pixels or not.
#[verifier::spinoff_prover]
pub proof fn lemma_displacements_turn(
    mags: Seq<Fixed>,
    turned: Seq<Fixed>,
    fw: int,
    fh: int,
    px: int,
    py: int,
)
    requires
        0 < fw <= 0x4000_0000,
        0 < fh <= 0x4000_0000,
        peaks_at(mags, fw, fh, px, py),
        turned.len() == fw * fh,
        forall|x: int, y: int|
            0 <= x < fw && 0 <= y < fh ==> #[trigger] turned[x * fh + y] == mags[y * fw + x],
    ensures
        displacement_of(turned, fh, fw).0 == displacement_of(mags, fw, fh).1,
        displacement_of(turned, fh, fw).1 == displacement_of(mags, fw, fh).0,
{
    assert(fw * fh == fh * fw) by (nonlinear_arith);
    assert(turned[px * fh + py] == mags[py * fw + px]);
    assert forall|x: int, y: int|
        0 <= x < fh && 0 <= y < fw && (x != py || y != px) implies i64::MIN < (#[trigger] turned[y
        * fh + x]).raw < turned[px * fh + py].raw by {
        assert(turned[y * fh + x] == mags[x * fw + y]);
    }
    lemma_peak(mags, fw, fh, px, py);
    lemma_peak(turned, fh, fw, py, px);
    lemma_around(px, fw);
    lemma_around(py, fh);
    let (l, r) = ((px + fw - 1) % fw, (px + 1) % fw);
    let (a, b) = ((py + fh - 1) % fh, (py + 1) % fh);
    assert(turned[l * fh + py] == mags[py * fw + l]);
    assert(turned[r * fh + py] == mags[py * fw + r]);
    assert(turned[px * fh + a] == mags[a * fw + px]);
    assert(turned[px * fh + b] == mags[b * fw + px]);
}

proof fn lemma_around(p: int, n: int)
    requires
        0 <= p < n,
    ensures
        0 <= (p + n - 1) % n < n,
        0 <= (p + 1) % n < n,
{
    vstd::arithmetic::div_mod::lemma_mod_bound(p + n - 1, n);
    vstd::arithmetic::div_mod::lemma_mod_bound(p + 1, n);
}

/// A grid's edge is padded to one length.
proof fn lemma_one_power(n: int, p: int, q: int)
    requires
        power_for(n, p),
        power_for(n, q),
    ensures
        p == q,
{
    let j = choose|k: nat|
        p == #[trigger] two_to(k) && p >= n && (k > 0 ==> two_to((k - 1) as nat) < n);
    let k = choose|k: nat|
        q == #[trigger] two_to(k) && q >= n && (k > 0 ==> two_to((k - 1) as nat) < n);
    if j < k {
        lemma_two_to_grows(j, (k - 1) as nat);
    } else if k < j {
        lemma_two_to_grows(k, (j - 1) as nat);
    }
}

/// Does every correlation that can come back peak at a place, level on both sides?
pub open spec fn always_peaks_at<
    T: Fn(Vec<Phasor<Fixed>>, bool) -> Vec<Phasor<Fixed>>,
    N: Fn(Phasor<Fixed>) -> Fixed,
>(fourier: &T, norm: &N, fw: int, fh: int, px: int, py: int) -> bool {
    forall|bins: Seq<Phasor<Fixed>>, impulse: Seq<Phasor<Fixed>>, mags: Seq<Fixed>|
        #![trigger transforms(fourier, bins, true, impulse), measures(norm, impulse, mags)]
        transforms(fourier, bins, true, impulse) && measures(norm, impulse, mags) ==> peaks_at(
            mags,
            fw,
            fh,
            px,
            py,
        ) && level_sides(mags, fw, fh, px, py)
}

/// An alignment is the displacement that the correlation shows, times two to the level, along
/// each axis with its sign: where the correlation peaks in the first half of the columns and
/// rows, the frame is shifted to the right and down.
#[verifier::spinoff_prover]
pub proof fn lemma_an_alignment_is_the_displacement<
    W: Fn(u32) -> Vec<Fixed>,
    T: Fn(Vec<Phasor<Fixed>>, bool) -> Vec<Phasor<Fixed>>,
    N: Fn(Phasor<Fixed>) -> Fixed,
>(
    reference: Sheet<Fixed>,
    target: Sheet<Fixed>,
    level: nat,
    window: &W,
    fourier: &T,
    norm: &N,
    t: Transform<Fixed>,
    fw: int,
    fh: int,
    px: int,
    py: int,
)
    requires
        aligned(reference, target, level, window, fourier, norm, t),
        level < 32,
        power_for(reference.w + reference.w / 2, fw),
        power_for(reference.h + reference.h / 2, fh),
        0 < fw <= 0x4000_0000,
        0 < fh <= 0x4000_0000,
        fw * two_to(level) <= 0x100_0000_0000,
        fh * two_to(level) <= 0x100_0000_0000,
        always_peaks_at(fourier, norm, fw, fh, px, py),
    ensures
        t.scale.raw == 65536,
        t.dx.raw == ahead_or_behind(px, fw) * two_to(level) * 65536,
        t.dy.raw == ahead_or_behind(py, fh) * two_to(level) * 65536,
{
    let (across, down, fw2, fh2, d) = choose|
        across: Vec<Fixed>,
        down: Vec<Fixed>,
        fw: int,
        fh: int,
        d: (Fixed, Fixed),
    |
        {
            &&& call_ensures(*window, (reference.w as u32,), across)
            &&& call_ensures(*window, (reference.h as u32,), down)
            &&& power_for(reference.w + reference.w / 2, fw)
            &&& power_for(reference.h + reference.h / 2, fh)
            &&& #[trigger] correlated(
                reference,
                target,
                across@,
                down@,
                fw,
                fh,
                fourier,
                norm,
                d,
            )
            &&& t == (Transform {
                scale: Fixed::spec_whole(1),
                dx: d.0.spec_times(Fixed::spec_whole(two_to(level) as i64)),
                dy: d.1.spec_times(Fixed::spec_whole(two_to(level) as i64)),
            })
        };
    lemma_one_power(reference.w + reference.w / 2, fw, fw2);
    lemma_one_power(reference.h + reference.h / 2, fh, fh2);
    lemma_correlation_shows(reference, target, across@, down@, fw, fh, fourier, norm, d, px, py);
    lemma_side_of(level);
    lemma_whole(1);
    lemma_scaled_up(d.0, px, fw, two_to(level));
    lemma_scaled_up(d.1, py, fh, two_to(level));
}

proof fn lemma_correlation_shows<
    T: Fn(Vec<Phasor<Fixed>>, bool) -> Vec<Phasor<Fixed>>,
    N: Fn(Phasor<Fixed>) -> Fixed,
>(
    a: Sheet<Fixed>,
    b: Sheet<Fixed>,
    across: Seq<Fixed>,
    down: Seq<Fixed>,
    fw: int,
    fh: int,
    fourier: &T,
    norm: &N,
    d: (Fixed, Fixed),
    px: int,
    py: int,
)
    requires
        correlated(a, b, across, down, fw, fh, fourier, norm, d),
        0 < fw <= 0x4000_0000,
        0 < fh <= 0x4000_0000,
        always_peaks_at(fourier, norm, fw, fh, px, py),
    ensures
        0 <= px < fw,
        0 <= py < fh,
        d.0.raw == ahead_or_behind(px, fw) * 65536,
        d.1.raw == ahead_or_behind(py, fh) * 65536,
{
    assert forall|mags: Seq<Fixed>|
        peaks_at(mags, fw, fh, px, py) && level_sides(mags, fw, fh, px, py) implies (
    #[trigger] displacement_of(mags, fw, fh)).0.raw == ahead_or_behind(px, fw) * 65536
        && displacement_of(mags, fw, fh).1.raw == ahead_or_behind(py, fh) * 65536 by {
        lemma_the_peak_is_the_displacement(mags, fw, fh, px, py);
    }
}

proof fn lemma_side_of(level: nat)
    requires
        level < 32,
    ensures
        1 <= two_to(level) <= 0x8000_0000,
{
    reveal_with_fuel(two_to, 32);
    assert(two_to(31) == 0x8000_0000);
    lemma_two_to_grows(level, 31);
    lemma_two_to_grows(0, level);
}

/// A displacement times two to the level.
#[verifier::spinoff_prover]
proof fn lemma_scaled_up(d: Fixed, p: int, n: int, side: int)
    requires
        0 <= p < n <= 0x4000_0000,
        d.raw == ahead_or_behind(p, n) * 65536,
        1 <= side <= 0x8000_0000,
        n * side <= 0x100_0000_0000,
    ensures
        d.spec_times(Fixed::spec_whole(side as i64)).raw == ahead_or_behind(p, n) * side * 65536,
{
    lemma_whole(side);
    let k = ahead_or_behind(p, n);
    let v = k * side;
    assert(-0x100_0000_0000 <= v <= 0x100_0000_0000) by (nonlinear_arith)
        requires
            v == k * side,
            -n <= k <= n,
            0 <= side,
            n * side <= 0x100_0000_0000,
    ;
    assert((k * 65536) * (side * 65536) == (v * 65536) * 65536) by (nonlinear_arith)
        requires
            v == k * side,
    ;
    lemma_product_of(d, Fixed::spec_whole(side as i64));
}

/// A bin of the cross-power spectrum turns from the first spectrum to the second: its real part
/// is the two bins' inner product, and its imaginary part the area that they span, which is
/// positive where the second lies ahead of the first. Each is off by less than two steps.
#[verifier::spinoff_prover]
pub proof fn lemma_bins_turn_from_the_first_to_the_second(a: Phasor<Fixed>, b: Phasor<Fixed>)
    requires
        bounded(a.re, 0x20_0000_0000),
        bounded(a.im, 0x20_0000_0000),
        bounded(b.re, 0x20_0000_0000),
        bounded(b.im, 0x20_0000_0000),
    ensures
        -131072 < 65536 * crossed(a, b).re.raw - (a.re.raw * b.re.raw + a.im.raw * b.im.raw)
            < 131072,
        -131072 < 65536 * crossed(a, b).im.raw - (a.re.raw * b.im.raw - a.im.raw * b.re.raw)
            < 131072,
{
    lemma_whole(0);
    let back = Fixed::spec_whole(0).spec_minus(a.im);
    lemma_difference(Fixed::spec_whole(0), a.im);
    lemma_moderate_product(a.re, b.re);
    lemma_moderate_product(a.re, b.im);
    lemma_moderate_product(back, b.im);
    lemma_moderate_product(back, b.re);
    assert(back.raw * b.im.raw == -(a.im.raw * b.im.raw)) by (nonlinear_arith)
        requires
            back.raw == -a.im.raw,
    ;
    assert(back.raw * b.re.raw == -(a.im.raw * b.re.raw)) by (nonlinear_arith)
        requires
            back.raw == -a.im.raw,
    ;
    lemma_difference(a.re.spec_times(b.re), back.spec_times(b.im));
    lemma_sum(a.re.spec_times(b.im), back.spec_times(b.re));
}

proof fn lemma_moderate_product(a: Fixed, b: Fixed)
    requires
        bounded(a, 0x20_0000_0000),
        bounded(b, 0x20_0000_0000),
    ensures
        a.raw * b.raw - 65536 < 65536 * a.spec_times(b).raw <= a.raw * b.raw,
        bounded(a.spec_times(b), 0x400_0000_0000_0000),
{
    let p = a.raw * b.raw;
    assert(-0x400_0000_0000_0000_0000 <= p <= 0x400_0000_0000_0000_0000) by (nonlinear_arith)
        requires
            p == a.raw * b.raw,
            -0x20_0000_0000 <= a.raw <= 0x20_0000_0000,
            -0x20_0000_0000 <= b.raw <= 0x20_0000_0000,
    ;
    lemma_product_of(a, b);
}

/// Steps that are shifts add up outward from the anchor: the anchor is not moved, and each
/// frame stands its step away from its neighbour nearer the anchor.
pub proof fn lemma_shifts_add_up_from_the_anchor(steps: Seq<Transform<Fixed>>, n: int, i: int)
    requires
        0 <= i < n,
        2 <= n,
        steps.len() == n - 1,
        forall|k: int| 0 <= k < steps.len() ==> (#[trigger] steps[k]).scale.raw == 65536,
    ensures
        placed(steps, n, i).scale.raw == 65536,
        i == n / 2 ==> placed(steps, n, i).dx.raw == 0 && placed(steps, n, i).dy.raw == 0,
        i > n / 2 ==> placed(steps, n, i).dx == placed(steps, n, i - 1).dx.spec_plus(
            steps[i - n / 2 - 1].dx,
        ) && placed(steps, n, i).dy == placed(steps, n, i - 1).dy.spec_plus(
            steps[i - n / 2 - 1].dy,
        ),
        i < n / 2 ==> placed(steps, n, i).dx == placed(steps, n, i + 1).dx.spec_plus(
            steps[n - 2 - i].dx,
        ) && placed(steps, n, i).dy == placed(steps, n, i + 1).dy.spec_plus(steps[n - 2 - i].dy),
    decreases
            (if i >= n / 2 {
                i - n / 2
            } else {
                n / 2 - i
            }),
{
    lemma_whole(0);
    lemma_whole(1);
    let a = n / 2;
    if i > a {
        lemma_shifts_add_up_from_the_anchor(steps, n, i - 1);
        lemma_shift_follows(placed(steps, n, i - 1), steps[i - a - 1]);
    } else if i < a {
        lemma_shifts_add_up_from_the_anchor(steps, n, i + 1);
        lemma_shift_follows(placed(steps, n, i + 1), steps[n - 2 - i]);
    }
}

proof fn lemma_shift_follows(first: Transform<Fixed>, next: Transform<Fixed>)
    requires
        first.scale.raw == 65536,
        next.scale.raw == 65536,
    ensures
        followed_by(first, next).scale.raw == 65536,
        followed_by(first, next).dx == first.dx.spec_plus(next.dx),
        followed_by(first, next).dy == first.dy.spec_plus(next.dy),
{
    assert((65536int * 65536) / 65536 == 65536);
    assert((65536 * first.dx.raw) / 65536 == first.dx.raw);
    assert((65536 * first.dy.raw) / 65536 == first.dy.raw);
    assert(next.scale.spec_times(first.dx) == first.dx);
    assert(next.scale.spec_times(first.dy) == first.dy);
}

/// A number of steps over another, rounded down, and nothing over nothing.
pub open spec fn portion(v: int, d: int) -> i64 {
    if d == 0 {
        0
    } else {
        wrap((v * 65536) / d)
    }
}

/// Does a bin turn by as much as the second of two bins is ahead of the first? Its parts are
/// in the proportion of the two bins' inner product to the area that they span, each of which
/// is off by less than two steps.
pub open spec fn turns_by(a: Phasor<Fixed>, b: Phasor<Fixed>, bin: Phasor<Fixed>) -> bool {
    exists|re: int, im: int, d: int|
        {
            &&& 0 <= d
            &&& -131072 < 65536 * re - (a.re.raw * b.re.raw + a.im.raw * b.im.raw) < 131072
            &&& -131072 < 65536 * im - (a.re.raw * b.im.raw - a.im.raw * b.re.raw) < 131072
            &&& bin.re.raw == #[trigger] portion(re, d)
            &&& bin.im.raw == #[trigger] portion(im, d)
        }
}

/// Does every bin turn by as much as the second spectrum is ahead of the first?
pub open spec fn all_turn_by(
    a: Seq<Phasor<Fixed>>,
    b: Seq<Phasor<Fixed>>,
    bins: Seq<Phasor<Fixed>>,
) -> bool {
    &&& bins.len() == a.len()
    &&& forall|i: int| 0 <= i < bins.len() ==> turns_by(a[i], b[i], #[trigger] bins[i])
}

/// A Fourier transform and magnitudes that stay in range, and peak at a place wherever the
/// target's spectrum is ahead of the reference's as it is here.
pub open spec fn shows_the_lead<
    T: Fn(Vec<Phasor<Fixed>>, bool) -> Vec<Phasor<Fixed>>,
    N: Fn(Phasor<Fixed>) -> Fixed,
>(
    reference: Sheet<Fixed>,
    target: Sheet<Fixed>,
    fourier: &T,
    norm: &N,
    fw: int,
    fh: int,
    px: int,
    py: int,
) -> bool {
    &&& forall|p: Phasor<Fixed>, v: Fixed| #[trigger]
        call_ensures(*norm, (p,), v) ==> 0 <= v.raw <= 0x100_0000_0000_0000
    &&& forall|bins: Seq<Phasor<Fixed>>, out: Seq<Phasor<Fixed>>, i: int|
        #![trigger transforms(fourier, bins, false, out), out[i]]
        transforms(fourier, bins, false, out) && 0 <= i < out.len() ==> bounded(
            out[i].re,
            0x20_0000_0000,
        ) && bounded(out[i].im, 0x20_0000_0000)
    &&& forall|
        across: Seq<Fixed>,
        down: Seq<Fixed>,
        sa: Seq<Phasor<Fixed>>,
        sb: Seq<Phasor<Fixed>>,
        bins: Seq<Phasor<Fixed>>,
        impulse: Seq<Phasor<Fixed>>,
        mags: Seq<Fixed>,
    |
        #![trigger
            transforms(fourier, plain_bins(prepared(reference, across, down, fw, fh)), false, sa),
            transforms(fourier, plain_bins(prepared(target, across, down, fw, fh)), false, sb),
            transforms(fourier, bins, true, impulse),
            measures(norm, impulse, mags)]
        transforms(fourier, plain_bins(prepared(reference, across, down, fw, fh)), false, sa)
            && transforms(fourier, plain_bins(prepared(target, across, down, fw, fh)), false, sb)
            && all_turn_by(sa, sb, bins) && transforms(fourier, bins, true, impulse) && measures(
            norm,
            impulse,
            mags,
        ) ==> peaks_at(mags, fw, fh, px, py) && level_sides(mags, fw, fh, px, py)
}

/// The whitening adds no less than nothing.
proof fn lemma_whitening(mags: Seq<Fixed>)
    requires
        forall|i: int| 0 <= i < mags.len() ==> 0 <= (#[trigger] mags[i]).raw <= 0x100_0000_0000_0000,
    ensures
        0 <= whitening(mags).raw <= 0x100_0000_0000_0000,
{
    lemma_strongest(mags, mags.len());
    lemma_whole(1);
    lemma_whole(1000);
    assert((65536int * 65536) / 65_536_000 == 65);
    let part = Fixed::spec_whole(1).spec_over(Fixed::spec_whole(WHITENING_PARTS));
    assert(part.raw == 65);
    let v = strongest(mags, mags.len());
    lemma_part(v, part, 0x100_0000_0000_0000);
    assert(0 <= v.raw * part.raw);
}

proof fn lemma_strongest(mags: Seq<Fixed>, n: nat)
    requires
        n <= mags.len(),
        forall|i: int| 0 <= i < mags.len() ==> 0 <= (#[trigger] mags[i]).raw <= 0x100_0000_0000_0000,
    ensures
        0 <= strongest(mags, n).raw <= 0x100_0000_0000_0000,
    decreases n,
{
    lemma_whole(0);
    if n > 0 {
        lemma_strongest(mags, (n - 1) as nat);
        assert(0 <= mags[n - 1].raw);
    }
}

/// The whitened cross-power spectrum turns by as much as the second spectrum is ahead of the
/// first.
#[verifier::spinoff_prover]
proof fn lemma_whitened_bins_turn(
    sa: Seq<Phasor<Fixed>>,
    sb: Seq<Phasor<Fixed>>,
    mags: Seq<Fixed>,
)
    requires
        sb.len() == sa.len(),
        mags.len() == sa.len(),
        forall|i: int| 0 <= i < mags.len() ==> 0 <= (#[trigger] mags[i]).raw <= 0x100_0000_0000_0000,
        forall|i: int|
            0 <= i < sa.len() ==> bounded((#[trigger] sa[i]).re, 0x20_0000_0000) && bounded(
                sa[i].im,
                0x20_0000_0000,
            ),
        forall|i: int|
            0 <= i < sb.len() ==> bounded((#[trigger] sb[i]).re, 0x20_0000_0000) && bounded(
                sb[i].im,
                0x20_0000_0000,
            ),
    ensures
        all_turn_by(sa, sb, whitened(cross_spectrum(sa, sb), mags)),
{
    let bins = whitened(cross_spectrum(sa, sb), mags);
    lemma_whitening(mags);
    assert forall|i: int| 0 <= i < bins.len() implies turns_by(sa[i], sb[i], #[trigger] bins[i]) by {
        let (a, b) = (sa[i], sb[i]);
        lemma_bins_turn_from_the_first_to_the_second(a, b);
        let c = crossed(a, b);
        let by = mags[i].spec_plus(whitening(mags));
        lemma_sum(mags[i], whitening(mags));
        let d = by.raw as int;
        lemma_portion(c.re, by);
        lemma_portion(c.im, by);
        assert(bins[i].re == c.re.spec_over(by));
        assert(bins[i].im == c.im.spec_over(by));
        assert(bins[i].re.raw == portion(c.re.raw as int, d));
        assert(bins[i].im.raw == portion(c.im.raw as int, d));
    }
}

proof fn lemma_portion(v: Fixed, by: Fixed)
    requires
        0 <= by.raw,
    ensures
        v.spec_over(by).raw == portion(v.raw as int, by.raw as int),
{
}

/// An alignment follows the content: it is the displacement by which the target's spectrum is
/// ahead of the reference's, times two to the level, along each axis with its sign. Frames
/// taken in the other order are displaced the other way.
#[verifier::spinoff_prover]
pub proof fn lemma_an_alignment_follows_the_target<
    W: Fn(u32) -> Vec<Fixed>,
    T: Fn(Vec<Phasor<Fixed>>, bool) -> Vec<Phasor<Fixed>>,
    N: Fn(Phasor<Fixed>) -> Fixed,
>(
    reference: Sheet<Fixed>,
    target: Sheet<Fixed>,
    level: nat,
    window: &W,
    fourier: &T,
    norm: &N,
    t: Transform<Fixed>,
    fw: int,
    fh: int,
    px: int,
    py: int,
)
    requires
        aligned(reference, target, level, window, fourier, norm, t),
        fourier_fits(fourier),
        level < 32,
        power_for(reference.w + reference.w / 2, fw),
        power_for(reference.h + reference.h / 2, fh),
        0 < fw <= 0x4000_0000,
        0 < fh <= 0x4000_0000,
        fw * two_to(level) <= 0x100_0000_0000,
        fh * two_to(level) <= 0x100_0000_0000,
        shows_the_lead(reference, target, fourier, norm, fw, fh, px, py),
    ensures
        t.scale.raw == 65536,
        t.dx.raw == ahead_or_behind(px, fw) * two_to(level) * 65536,
        t.dy.raw == ahead_or_behind(py, fh) * two_to(level) * 65536,
{
    let (across, down, fw2, fh2, d) = choose|
        across: Vec<Fixed>,
        down: Vec<Fixed>,
        fw: int,
        fh: int,
        d: (Fixed, Fixed),
    |
        {
            &&& call_ensures(*window, (reference.w as u32,), across)
            &&& call_ensures(*window, (reference.h as u32,), down)
            &&& power_for(reference.w + reference.w / 2, fw)
            &&& power_for(reference.h + reference.h / 2, fh)
            &&& #[trigger] correlated(
                reference,
                target,
                across@,
                down@,
                fw,
                fh,
                fourier,
                norm,
                d,
            )
            &&& t == (Transform {
                scale: Fixed::spec_whole(1),
                dx: d.0.spec_times(Fixed::spec_whole(two_to(level) as i64)),
                dy: d.1.spec_times(Fixed::spec_whole(two_to(level) as i64)),
            })
        };
    lemma_one_power(reference.w + reference.w / 2, fw, fw2);
    lemma_one_power(reference.h + reference.h / 2, fh, fh2);
    lemma_correlation_follows(reference, target, across@, down@, fw, fh, fourier, norm, d, px, py);
    lemma_side_of(level);
    lemma_whole(1);
    lemma_scaled_up(d.0, px, fw, two_to(level));
    lemma_scaled_up(d.1, py, fh, two_to(level));
}

#[verifier::spinoff_prover]
proof fn lemma_correlation_follows<
    T: Fn(Vec<Phasor<Fixed>>, bool) -> Vec<Phasor<Fixed>>,
    N: Fn(Phasor<Fixed>) -> Fixed,
>(
    a: Sheet<Fixed>,
    b: Sheet<Fixed>,
    across: Seq<Fixed>,
    down: Seq<Fixed>,
    fw: int,
    fh: int,
    fourier: &T,
    norm: &N,
    d: (Fixed, Fixed),
    px: int,
    py: int,
)
    requires
        correlated(a, b, across, down, fw, fh, fourier, norm, d),
        fourier_fits(fourier),
        0 < fw <= 0x4000_0000,
        0 < fh <= 0x4000_0000,
        shows_the_lead(a, b, fourier, norm, fw, fh, px, py),
    ensures
        0 <= px < fw,
        0 <= py < fh,
        d.0.raw == ahead_or_behind(px, fw) * 65536,
        d.1.raw == ahead_or_behind(py, fh) * 65536,
{
    let (sa, sb, mags, impulse, peaks) = choose|
        sa: Seq<Phasor<Fixed>>,
        sb: Seq<Phasor<Fixed>>,
        mags: Seq<Fixed>,
        impulse: Seq<Phasor<Fixed>>,
        peaks: Seq<Fixed>,
    |
        {
            &&& #[trigger] transforms(
                fourier,
                plain_bins(prepared(a, across, down, fw, fh)),
                false,
                sa,
            )
            &&& #[trigger] transforms(
                fourier,
                plain_bins(prepared(b, across, down, fw, fh)),
                false,
                sb,
            )
            &&& #[trigger] measures(norm, cross_spectrum(sa, sb), mags)
            &&& #[trigger] transforms(
                fourier,
                whitened(cross_spectrum(sa, sb), mags),
                true,
                impulse,
            )
            &&& #[trigger] measures(norm, impulse, peaks)
            &&& d == displacement_of(peaks, fw, fh)
        };
    lemma_transform_length(fourier, plain_bins(prepared(a, across, down, fw, fh)), sa);
    lemma_transform_length(fourier, plain_bins(prepared(b, across, down, fw, fh)), sb);
    assert(prepared(a, across, down, fw, fh).len() == prepared(b, across, down, fw, fh).len());
    assert forall|i: int| 0 <= i < mags.len() implies 0 <= (#[trigger] mags[i]).raw
        <= 0x100_0000_0000_0000 by {
        assert(call_ensures(*norm, (cross_spectrum(sa, sb)[i],), mags[i]));
    }
    lemma_whitened_bins_turn(sa, sb, mags);
    assert(peaks_at(peaks, fw, fh, px, py) && level_sides(peaks, fw, fh, px, py));
    lemma_the_peak_is_the_displacement(peaks, fw, fh, px, py);
}

proof fn lemma_transform_length<T: Fn(Vec<Phasor<Fixed>>, bool) -> Vec<Phasor<Fixed>>>(
    fourier: &T,
    bins: Seq<Phasor<Fixed>>,
    out: Seq<Phasor<Fixed>>,
)
    requires
        fourier_fits(fourier),
        transforms(fourier, bins, false, out),
    ensures
        out.len() == bins.len(),
{
}

} // verus!
