//! How much each scale counts in the multi-scale measure: the coarser, the less, by the decay
//! for each scale.

use vstd::arithmetic::power::{lemma_pow0, lemma_pow_positive, pow};
use vstd::prelude::*;
use crate::focus::{energy_through, scale_energy, scale_weight, sharpness};
use crate::rounding::{lemma_part, lemma_sum, lemma_whole};
use crate::sample::{Fixed, Sample};

verus! {

/// A scale counts as the decay to the power of the scale, rounded down by less than a step for
/// each scale: the finest fully.
pub proof fn lemma_scales_count_by_powers_of_the_decay(decay: Fixed, scale: nat)
    requires
        0 <= decay.raw <= 65536,
    ensures
        0 <= scale_weight(decay, scale).raw <= 65536,
        pow(65536, scale) * scale_weight(decay, scale).raw <= 65536 * pow(decay.raw as int, scale),
        65536 * pow(decay.raw as int, scale) <= pow(65536, scale) * (scale_weight(decay, scale).raw
            + scale),
    decreases scale,
{
    let d = decay.raw as int;
    if scale == 0 {
        lemma_whole(1);
        lemma_pow0(65536);
        lemma_pow0(d);
    } else {
        let n = (scale - 1) as nat;
        lemma_scales_count_by_powers_of_the_decay(decay, n);
        let before = scale_weight(decay, n);
        lemma_part(before, decay, 65536);
        let (w, is) = (before.raw as int, scale_weight(decay, scale).raw as int);
        let (p, e) = (pow(65536, n), pow(d, n));
        lemma_pow_positive(65536, n);
        vstd::arithmetic::power::lemma_pow_adds(65536, 1, n);
        vstd::arithmetic::power::lemma_pow_adds(d, 1, n);
        vstd::arithmetic::power::lemma_pow1(65536);
        vstd::arithmetic::power::lemma_pow1(d);
        assert(0 <= w * d) by (nonlinear_arith)
            requires
                0 <= w,
                0 <= d,
        ;
        assert((65536 * p) * is <= 65536 * (d * e)) by (nonlinear_arith)
            requires
                65536 * is <= w * d,
                p * w <= 65536 * e,
                p > 0,
                0 <= d,
        ;
        let k = n as int;
        assert(65536 * (d * e) <= (65536 * p) * (is + k + 1)) by (nonlinear_arith)
            requires
                w * d < 65536 * is + 65536,
                65536 * e <= p * (w + k),
                0 <= d <= 65536,
                p > 0,
                k >= 0,
        ;
    }
}

/// The measure over one more scale adds that scale's energy, at full size, as much of it as
/// the scale counts, and takes nothing of the finer ones away.
pub proof fn lemma_a_scale_adds_its_share(
    luma: Seq<Fixed>,
    w: int,
    h: int,
    r: int,
    decay: Fixed,
    last: nat,
    i: int,
)
    requires
        last >= 1,
        0 <= decay.raw <= 65536,
        0 <= i < sharpness(luma, w, h, r).len(),
        0 <= scale_energy(luma, w, h, r, last)[i].raw <= 0x1000_0000_0000_0000,
        0 <= energy_through(luma, w, h, r, decay, (last - 1) as nat)[i].raw
            <= 0x1000_0000_0000_0000,
    ensures
        ({
            let finer = energy_through(luma, w, h, r, decay, (last - 1) as nat)[i].raw;
            let all = energy_through(luma, w, h, r, decay, last)[i].raw;
            let share = scale_weight(decay, last).raw * scale_energy(luma, w, h, r, last)[i].raw;
            &&& finer <= all
            &&& share - 65536 < 65536 * (all - finer) <= share
        }),
{
    lemma_energy_size(luma, w, h, r, decay, (last - 1) as nat);
    lemma_scales_count_by_powers_of_the_decay(decay, last);
    let added = scale_energy(luma, w, h, r, last)[i];
    let weight = scale_weight(decay, last);
    lemma_part(added, weight, 0x1000_0000_0000_0000);
    assert(0 <= added.raw * weight.raw && added.raw * weight.raw == weight.raw * added.raw)
        by (nonlinear_arith)
        requires
            0 <= added.raw,
            0 <= weight.raw,
    ;
    let finer = energy_through(luma, w, h, r, decay, (last - 1) as nat)[i];
    lemma_sum(finer, weight.spec_times(added));
}

proof fn lemma_energy_size(
    luma: Seq<Fixed>,
    w: int,
    h: int,
    r: int,
    decay: Fixed,
    last: nat,
)
    ensures
        energy_through(luma, w, h, r, decay, last).len() == sharpness(luma, w, h, r).len(),
    decreases last,
{
    if last > 0 {
        lemma_energy_size(luma, w, h, r, decay, (last - 1) as nat);
    }
}

} // verus!
