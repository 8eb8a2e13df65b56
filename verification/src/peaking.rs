//! How a correlation is brought to a peak: every bin of the spectrum to about the same
//! magnitude, in its own direction, and the peak to the top of the parabola through it.

use vstd::prelude::*;
use crate::registration::{
    lemma_vanishing_is_nothing, peak_offset, strongest, whitened, whitening, Phasor,
};
use crate::rounding::{bounded, lemma_difference, lemma_product_of, lemma_sum, lemma_whole};
use crate::sample::{Fixed, Sample};

verus! {

proof fn lemma_strongest(mags: Seq<Fixed>, top: int, n: nat)
    requires
        n <= mags.len(),
        0 <= top < mags.len(),
        forall|i: int| 0 <= i < mags.len() ==> 0 <= (#[trigger] mags[i]).raw <= mags[top].raw,
    ensures
        0 <= strongest(mags, n).raw <= mags[top].raw,
        top < n ==> strongest(mags, n).raw == mags[top].raw,
    decreases n,
{
    lemma_whole(0);
    if n > 0 {
        lemma_strongest(mags, top, (n - 1) as nat);
    }
}

/// A quotient by something positive, rounded down to a step.
proof fn lemma_shared_by(v: Fixed, d: Fixed)
    requires
        bounded(v, 0x100_0000_0000),
        d.raw > 0,
    ensures
        d.raw * v.spec_over(d).raw <= v.raw * 65536 < d.raw * v.spec_over(d).raw + d.raw,
{
    let (n, m) = (v.raw * 65536, d.raw as int);
    let q = n / m;
    assert(m * q <= n < m * q + m && -0x200_0000_0000_0000 <= q <= 0x200_0000_0000_0000)
        by (nonlinear_arith)
        requires
            q == n / m,
            m > 0,
            -0x100_0000_0000_0000 <= n <= 0x100_0000_0000_0000,
    ;
}

proof fn lemma_small_part(part: Fixed, v: Fixed)
    requires
        part.raw == 65,
        0 <= v.raw <= 0x100_0000_0000,
    ensures
        part.spec_times(v).raw == v.raw * 65 / 65536,
        0 <= 1000 * (v.raw * 65 / 65536) <= v.raw,
{
    let both = part.raw * v.raw;
    assert(both == v.raw * 65) by (nonlinear_arith)
        requires
            part.raw == 65,
            both == part.raw * v.raw,
    ;
    lemma_product_of(part, v);
}

/// Whitening shares out both parts of a bin by the same: its magnitude, and at most a
/// thousandth of that of the strongest. A bin keeps its direction, and the stronger it is the
/// closer it comes to unit magnitude.
#[verifier::spinoff_prover]
pub proof fn lemma_whitening_keeps_directions(
    bins: Seq<Phasor<Fixed>>,
    mags: Seq<Fixed>,
    top: int,
    i: int,
)
    requires
        mags.len() == bins.len(),
        0 <= top < mags.len(),
        0 <= i < bins.len(),
        forall|k: int| 0 <= k < mags.len() ==> 0 <= (#[trigger] mags[k]).raw <= mags[top].raw,
        mags[top].raw <= 0x100_0000_0000,
        mags[i].raw > 0,
        bounded(bins[i].re, 0x100_0000_0000),
        bounded(bins[i].im, 0x100_0000_0000),
    ensures
        ({
            let (was, is) = (bins[i], whitened(bins, mags)[i]);
            let add = mags[top].raw * 65 / 65536;
            let by = mags[i].raw + add;
            &&& whitened(bins, mags).len() == bins.len()
            &&& 0 <= 1000 * add <= mags[top].raw
            &&& by * is.re.raw <= was.re.raw * 65536 < by * is.re.raw + by
            &&& by * is.im.raw <= was.im.raw * 65536 < by * is.im.raw + by
        }),
{
    lemma_strongest(mags, top, mags.len());
    lemma_whole(1);
    lemma_whole(1000);
    let part = Fixed::spec_whole(1).spec_over(Fixed::spec_whole(1000));
    assert(0x1_0000_0000int / 65_536_000 == 65);
    assert(part.raw == 65);
    let most = strongest(mags, mags.len());
    assert(most.raw == mags[top].raw);
    lemma_small_part(part, most);
    let add = whitening(mags);
    assert(add.raw == mags[top].raw * 65 / 65536);
    lemma_sum(mags[i], add);
    let d = mags[i].spec_plus(add);
    lemma_shared_by(bins[i].re, d);
    lemma_shared_by(bins[i].im, d);
}

/// A peak is refined to the top of the parabola through it and its neighbours: as far towards
/// the higher one as half the difference of the two falls takes of their sum, up to rounding.
#[verifier::spinoff_prover]
pub proof fn lemma_peaks_are_refined_to_the_top_of_a_parabola(mid: Fixed, left: Fixed, right: Fixed)
    requires
        -0x100_0000_0000 <= left.raw <= mid.raw <= 0x100_0000_0000,
        -0x100_0000_0000 <= right.raw <= mid.raw,
        left.raw + right.raw < 2 * mid.raw,
    ensures
        ({
            let (a, b) = (mid.raw - left.raw, mid.raw - right.raw);
            let at = peak_offset(mid, left, right).raw;
            (a - b) * 65536 - 2 * (a + b) < 2 * ((a + b) * at) <= (a - b + 1) * 65536
        }),
{
    let (a, b) = (mid.raw - left.raw, mid.raw - right.raw);
    let two = Fixed::spec_whole(2);
    lemma_whole(2);
    lemma_whole(1);
    lemma_whole(0);
    assert((131072 * mid.raw) / 65536 == 2 * mid.raw);
    lemma_product_of(two, mid);
    lemma_difference(left, two.spec_times(mid));
    lemma_sum(left.spec_minus(two.spec_times(mid)), right);
    let curve = left.spec_minus(two.spec_times(mid)).spec_plus(right);
    assert(curve.raw == -(a + b));
    assert(0x1_0000_0000int / 131072 == 32768);
    let half = Fixed::spec_whole(1).spec_over(two);
    assert(half.raw == 32768);
    lemma_difference(left, right);
    let d = left.spec_minus(right);
    let h = (b - a) / 2;
    assert((32768 * d.raw) / 65536 == h);
    lemma_product_of(half, d);
    let n = -h * 65536;
    let m = a + b;
    let q = n / m;
    assert(m * q <= n < m * q + m && -65536 <= q <= 65536) by (nonlinear_arith)
        requires
            q == n / m,
            m > 0,
            -65536 * m <= n <= 65536 * m,
    ;
    lemma_vanishing_is_nothing();
    assert(half.spec_times(d).raw == h);
    assert(half.spec_times(d).spec_over(curve).raw == q);
    assert(peak_offset(mid, left, right).raw == q);
}

} // verus!
