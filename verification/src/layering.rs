//! What the bands of a Laplacian pyramid hold, and what they do when it is collapsed: a band
//! is positive where a level stands out above what the next one tells of it, and what is
//! added to the finest band is added to the picture.

use vstd::prelude::*;
use crate::halving::{
    all_bounded, lemma_expanded_samples_stand_at_half_pixels,
    lemma_reduced_samples_stand_at_every_other_pixel, row_between, row_of_five, steps_at,
};
use crate::image::half_up;
use crate::layout::{channel, column, lemma_place_of, lemma_sample, row};
use crate::pyramid::{
    collapsed, expanded, gaussian, laplacian, lemma_gaussian_size, shrunk, summed, whole_picture,
    Picture,
};
use crate::rounding::{bounded, lemma_difference};
use crate::sample::{lemma_wrapped_sum, wrap, Fixed, Sample};

verus! {

/// Does a channel of a picture stay between two heights?
pub open spec fn channel_between(p: Picture<Fixed>, ch: int, lo: int, hi: int) -> bool {
    forall|u: int, v: int| lo <= #[trigger] steps_at(p, u, v, ch) <= hi
}

proof fn lemma_row_of_five_between(p: Picture<Fixed>, x: int, y: int, ch: int, lo: int, hi: int)
    requires
        channel_between(p, ch, lo, hi),
    ensures
        16 * lo <= row_of_five(p, x, y, ch) <= 16 * hi,
{
}

proof fn lemma_row_between_between(p: Picture<Fixed>, x: int, y: int, ch: int, lo: int, hi: int)
    requires
        channel_between(p, ch, lo, hi),
    ensures
        8 * lo <= row_between(p, x, y, ch) <= 8 * hi,
{
}

/// A reduced picture stays between the heights of the picture, up to rounding.
proof fn lemma_reduced_between(p: Picture<Fixed>, ch: int, lo: int, hi: int)
    requires
        whole_picture(p),
        p.w >= 1,
        p.h >= 1,
        0 <= ch < p.c,
        all_bounded(p, 0x1_0000_0000_0000),
        channel_between(p, ch, lo, hi),
    ensures
        channel_between(shrunk(p), ch, lo - 9, hi),
{
    assert forall|u: int, v: int| lo - 9 <= #[trigger] steps_at(shrunk(p), u, v, ch) <= hi by {
        let (w, h) = (half_up(p.w), half_up(p.h));
        let x = crate::image::clamped(u, 0, w - 1);
        let y = crate::image::clamped(v, 0, h - 1);
        lemma_reduced_samples_stand_at_every_other_pixel(p, x, y, ch);
        lemma_row_of_five_between(p, 2 * x, 2 * y - 2, ch, lo, hi);
        lemma_row_of_five_between(p, 2 * x, 2 * y - 1, ch, lo, hi);
        lemma_row_of_five_between(p, 2 * x, 2 * y, ch, lo, hi);
        lemma_row_of_five_between(p, 2 * x, 2 * y + 1, ch, lo, hi);
        lemma_row_of_five_between(p, 2 * x, 2 * y + 2, ch, lo, hi);
        assert(steps_at(shrunk(p), u, v, ch) == steps_at(shrunk(p), x, y, ch));
    }
}

proof fn lemma_bounded_channels(p: Picture<Fixed>, m: int)
    requires
        whole_picture(p),
        p.w >= 1,
        p.h >= 1,
        p.c >= 0,
        forall|ch: int| 0 <= ch < p.c ==> #[trigger] channel_between(p, ch, -m, m),
    ensures
        all_bounded(p, m),
{
    assert forall|i: int| 0 <= i < p.data.len() implies bounded(#[trigger] p.data[i], m) by {
        lemma_place_of(i, p.w, p.h, p.c);
        let (x, y, ch) = (column(i, p.w, p.c), row(i, p.w, p.c), channel(i, p.c));
        assert(channel_between(p, ch, -m, m));
        assert(-m <= steps_at(p, x, y, ch) <= m);
    }
}

proof fn lemma_bounded_between(p: Picture<Fixed>, ch: int, m: int)
    requires
        whole_picture(p),
        p.w >= 1,
        p.h >= 1,
        0 <= ch < p.c,
        all_bounded(p, m),
    ensures
        channel_between(p, ch, -m, m),
{
    assert forall|u: int, v: int| -m <= #[trigger] steps_at(p, u, v, ch) <= m by {
        let x = crate::image::clamped(u, 0, p.w - 1);
        let y = crate::image::clamped(v, 0, p.h - 1);
        lemma_sample(x, y, ch, p.w, p.h, p.c);
    }
}

/// A band holds by how much a level stands out: where no sample of the level is above `hi` or
/// below `lo`, what the next level tells of a pixel is not either, up to rounding, and the band
/// is the pixel less that. It is not negative where the level is brightest, and not positive,
/// up to rounding, where it is darkest.
#[verifier::spinoff_prover]
pub proof fn lemma_bands_hold_what_stands_out(
    p: Picture<Fixed>,
    levels: nat,
    i: nat,
    x: int,
    y: int,
    ch: int,
    lo: int,
    hi: int,
)
    requires
        whole_picture(p),
        p.w >= 1,
        p.h >= 1,
        0 <= ch < p.c,
        i + 1 < levels,
        0 <= x < gaussian(p, i).w,
        0 <= y < gaussian(p, i).h,
        all_bounded(gaussian(p, i), 0xffff_0000_0000),
        channel_between(gaussian(p, i), ch, lo, hi),
    ensures
        ({
            let at = steps_at(gaussian(p, i), x, y, ch);
            at - hi <= steps_at(laplacian(p, levels, i), x, y, ch) <= at - lo + 11
        }),
        steps_at(gaussian(p, i), x, y, ch) == hi ==> steps_at(laplacian(p, levels, i), x, y, ch)
            >= 0,
        steps_at(gaussian(p, i), x, y, ch) == lo ==> steps_at(laplacian(p, levels, i), x, y, ch)
            <= 11,
{
    let g = gaussian(p, i);
    let next = gaussian(p, i + 1);
    assert(next == shrunk(g));
    lemma_gaussian_size(p, i);
    lemma_gaussian_size(p, i + 1);
    lemma_reduced_between(g, ch, lo, hi);
    assert forall|k: int| 0 <= k < next.c implies #[trigger] channel_between(
        next,
        k,
        -0x1_0000_0000_0000,
        0x1_0000_0000_0000,
    ) by {
        lemma_bounded_between(g, k, 0xffff_0000_0000);
        lemma_reduced_between(g, k, -0xffff_0000_0000, 0xffff_0000_0000);
    }
    lemma_bounded_channels(next, 0x1_0000_0000_0000);
    lemma_expanded_samples_stand_at_half_pixels(next, g.w, g.h, x, y, ch);
    let (a, b) = (lo - 9, hi);
    lemma_row_between_between(next, x, y / 2 - 1, ch, a, b);
    lemma_row_between_between(next, x, y / 2, ch, a, b);
    lemma_row_between_between(next, x, y / 2 + 1, ch, a, b);
    let e = expanded(next, g.w, g.h);
    lemma_sample(x, y, ch, g.w, g.h, g.c);
    let k = (y * g.w + x) * g.c + ch;
    assert(bounded(g.data[k], 0xffff_0000_0000));
    assert(steps_at(e, x, y, ch) == e.data[k].raw);
    assert(lo <= steps_at(g, x, y, ch) <= hi);
    lemma_bounded_between(g, ch, 0xffff_0000_0000);
    lemma_bounded_between(next, ch, 0x1_0000_0000_0000);
    lemma_row_between_between(next, x, y / 2 - 1, ch, -0x1_0000_0000_0000, 0x1_0000_0000_0000);
    lemma_row_between_between(next, x, y / 2, ch, -0x1_0000_0000_0000, 0x1_0000_0000_0000);
    lemma_row_between_between(next, x, y / 2 + 1, ch, -0x1_0000_0000_0000, 0x1_0000_0000_0000);
    lemma_difference(g.data[k], e.data[k]);
}

/// What is added to a sample of the finest band is added to that sample of the picture, as
/// much and with the same sign, whatever stands above it.
pub proof fn lemma_what_is_added_to_the_finest_band_is_added_to_the_picture(
    a: Seq<Picture<Fixed>>,
    b: Seq<Picture<Fixed>>,
    top: Picture<Fixed>,
    i: int,
    d: int,
)
    requires
        a.len() == b.len(),
        a.len() >= 1,
        forall|k: int| 1 <= k < a.len() ==> #[trigger] a[k] == b[k],
        a[0].w == b[0].w,
        a[0].h == b[0].h,
        0 <= i < collapsed(a, top).data.len(),
        a[0].data[i].raw == b[0].data[i].raw + d,
    ensures
        collapsed(a, top).data.len() == collapsed(b, top).data.len(),
        collapsed(a, top).data[i].raw == wrap(collapsed(b, top).data[i].raw + d),
    decreases a.len(),
{
    reveal_with_fuel(collapsed, 2);
    let last = a.last();
    if a.len() == 1 {
        let e = expanded(top, last.w, last.h);
        assert(a.drop_last() =~= Seq::<Picture<Fixed>>::empty());
        assert(b.drop_last() =~= Seq::<Picture<Fixed>>::empty());
        assert(collapsed(a, top) == summed(e, a[0]));
        assert(collapsed(b, top) == summed(e, b[0]));
        let (was, more) = (e.data[i].raw + b[0].data[i].raw, d);
        lemma_wrapped_sum(was, more);
    } else {
        let below = summed(expanded(top, last.w, last.h), last);
        assert(b.last() == last);
        lemma_what_is_added_to_the_finest_band_is_added_to_the_picture(
            a.drop_last(),
            b.drop_last(),
            below,
            i,
            d,
        );
    }
}

} // verus!
