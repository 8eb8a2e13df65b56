//! What the choice between frames goes by: the structure around a position, on every side of it
//! and in every channel or orientation.

use vstd::prelude::*;
use crate::fusion::{energies, salience};
use crate::image::{clamped, smaller};
use crate::labels::{
    leading, lemma_leading_is_most_frequent, lemma_tallied_label_stands, neighbours, settled,
    settled_map, tally,
};
use crate::layout::{image_of, lemma_place, lemma_sample};
use crate::luma::luminance;
use crate::plane::Sheet;
use crate::pyramid::{whole_picture, Picture};
use crate::rounding::{bounded, lemma_product_of, lemma_sum};
use crate::sample::{wrap, Fixed, Sample};
use crate::stacking::{activity_of, position_energy, Channels};
use crate::wavelet::Bands;
use crate::windows::{around, lemma_a_box_sum_is_its_window, lemma_blocks_agree, levels_in};

verus! {

/// One where the label of a position is this one, and otherwise zero. The border is repeated
/// outside the map.
pub open spec fn holds(labels: Seq<u16>, w: int, h: int, x: int, y: int, label: u16) -> int {
    if labels[clamped(y, 0, h - 1) * w + clamped(x, 0, w - 1)] == label {
        1
    } else {
        0
    }
}

/// How many of the eight positions around one hold a label: three in the row above, the two
/// beside it, and three in the row below.
pub open spec fn agreeing(labels: Seq<u16>, w: int, h: int, x: int, y: int, label: u16) -> int {
    holds(labels, w, h, x - 1, y - 1, label) + holds(labels, w, h, x, y - 1, label) + holds(
        labels,
        w,
        h,
        x + 1,
        y - 1,
        label,
    ) + holds(labels, w, h, x - 1, y, label) + holds(labels, w, h, x + 1, y, label) + holds(
        labels,
        w,
        h,
        x - 1,
        y + 1,
        label,
    ) + holds(labels, w, h, x, y + 1, label) + holds(labels, w, h, x + 1, y + 1, label)
}

proof fn lemma_all_around(labels: Seq<u16>, w: int, h: int, x: int, y: int, label: u16)
    ensures
        tally(neighbours(labels, w, h, x, y), label, 8) == agreeing(labels, w, h, x, y, label),
{
    reveal_with_fuel(tally, 9);
}

/// A position settles on what most of the eight around it hold: where no label is held by as
/// many as the threshold it keeps its own, and otherwise no label is held by more than the one
/// it settles on.
pub proof fn lemma_positions_settle_on_what_is_around_them(
    labels: Seq<u16>,
    w: int,
    h: int,
    threshold: int,
    x: int,
    y: int,
    label: u16,
)
    requires
        0 < threshold,
        labels.len() == w * h,
        0 <= x < w,
        0 <= y < h,
    ensures
        ({
            let s = settled_map(labels, w, h, threshold)[y * w + x];
            &&& s != labels[y * w + x] ==> agreeing(labels, w, h, x, y, s) >= threshold
            &&& agreeing(labels, w, h, x, y, label) >= threshold ==> agreeing(
                labels,
                w,
                h,
                x,
                y,
                s,
            ) >= agreeing(labels, w, h, x, y, label)
        }),
{
    lemma_place(x, y, w, h);
    let ns = neighbours(labels, w, h, x, y);
    let s = settled(labels, w, h, threshold, x, y);
    lemma_all_around(labels, w, h, x, y, label);
    lemma_all_around(labels, w, h, x, y, s);
    let top = ns[leading(ns, 8)];
    lemma_all_around(labels, w, h, x, y, top);
    if tally(ns, label, 8) >= threshold {
        let i = lemma_tallied_label_stands(ns, label, 8);
        lemma_leading_is_most_frequent(ns, 8, i);
    }
}

/// The square of a number of steps, in steps.
pub open spec fn squared(v: int) -> int {
    (v * v) / 65536
}

#[verifier::spinoff_prover]
proof fn lemma_square(v: Fixed)
    requires
        bounded(v, 0x1000_0000),
    ensures
        v.spec_times(v).raw == squared(v.raw as int),
        0 <= squared(v.raw as int) <= 0x100_0000_0000,
{
    let a = v.raw as int;
    let p = a * a;
    assert(0 <= p <= 0x100_0000_0000_0000) by (nonlinear_arith)
        requires
            p == a * a,
            -0x1000_0000 <= a <= 0x1000_0000,
    ;
    lemma_product_of(v, v);
}

/// What a pixel of a band-pass level carries, in all three channels. The border is repeated
/// outside the level.
pub open spec fn carried(p: Picture<Fixed>) -> spec_fn(int, int) -> int {
    |x: int, y: int|
        {
            let i = (clamped(y, 0, p.h - 1) * p.w + clamped(x, 0, p.w - 1)) * 3;
            squared(p.data[i].raw as int) + squared(p.data[i + 1].raw as int) + squared(
                p.data[i + 2].raw as int,
            )
        }
}

/// The salience at a pixel is what all pixels of its window carry, in all three channels. It
/// wraps around where that leaves the number range.
#[verifier::spinoff_prover]
pub proof fn lemma_salience_is_what_the_window_carries(p: Picture<Fixed>, r: int, x: int, y: int)
    requires
        whole_picture(p),
        p.c == 3,
        0 <= x < p.w,
        0 <= y < p.h,
        0 <= r,
        forall|i: int| 0 <= i < p.data.len() ==> bounded(#[trigger] p.data[i], 0x1000_0000),
    ensures
        salience(p, r)[y * p.w + x].raw == wrap(around(carried(p), x, y, r)),
{
    let e = energies(p);
    assert(0 <= p.w * p.h) by (nonlinear_arith)
        requires
            0 <= p.w,
            0 <= p.h,
    ;
    lemma_a_box_sum_is_its_window(e, p.w, p.h, r, x, y);
    let (f, g) = (levels_in(e, p.w, p.h), carried(p));
    assert forall|u: int, v: int| #[trigger] f(u, v) == g(u, v) by {
        let (a, b) = (clamped(u, 0, p.w - 1), clamped(v, 0, p.h - 1));
        lemma_place(a, b, p.w, p.h);
        let i = b * p.w + a;
        assert(0 <= 3 * i && 3 * i + 2 < p.data.len());
        lemma_square(p.data[3 * i]);
        lemma_square(p.data[3 * i + 1]);
        lemma_square(p.data[3 * i + 2]);
        let (q, s, t) = (p.data[3 * i], p.data[3 * i + 1], p.data[3 * i + 2]);
        lemma_sum(q.spec_times(q), s.spec_times(s));
        lemma_sum(q.spec_times(q).spec_plus(s.spec_times(s)), t.spec_times(t));
        assert(i * 3 == 3 * i);
    }
    let n = (2 * r + 1) as nat;
    lemma_blocks_agree(f, g, x - r, y - r, n, n);
}

/// A coefficient of a band, at a position of the level. A band that is a row or a column short
/// shares its last one.
pub open spec fn coefficient_at(
    b: Sheet<Fixed>,
    x: int,
    y: int,
) -> Fixed {
    b.data[smaller(y, b.h - 1) * b.w + smaller(x, b.w - 1)]
}

/// The luminance of three channels' coefficients, squared.
pub open spec fn light_squared(
    r: Sheet<Fixed>,
    g: Sheet<Fixed>,
    b: Sheet<Fixed>,
    x: int,
    y: int,
) -> int {
    squared(
        luminance(coefficient_at(r, x, y), coefficient_at(g, x, y), coefficient_at(b, x, y)).raw
            as int,
    )
}

/// How active a position of a level is: its coefficients in all three orientations. The border
/// is repeated outside the level.
pub open spec fn active(c: Channels<Bands<Fixed>>, gw: int, gh: int) -> spec_fn(int, int) -> int {
    |x: int, y: int|
        {
            let (u, v) = (clamped(x, 0, gw - 1), clamped(y, 0, gh - 1));
            light_squared(c.red.hl, c.green.hl, c.blue.hl, u, v) + light_squared(
                c.red.lh,
                c.green.lh,
                c.blue.lh,
                u,
                v,
            ) + light_squared(c.red.hh, c.green.hh, c.blue.hh, u, v)
        }
}

/// Are the luminances of a level's coefficients moderate, wherever they are read?
pub open spec fn moderate_bands(c: Channels<Bands<Fixed>>, gw: int, gh: int) -> bool {
    forall|x: int, y: int|
        0 <= x < gw && 0 <= y < gh ==> bounded(
            #[trigger] luminance(
                coefficient_at(c.red.hl, x, y),
                coefficient_at(c.green.hl, x, y),
                coefficient_at(c.blue.hl, x, y),
            ),
            0x1000_0000,
        ) && bounded(
            luminance(
                coefficient_at(c.red.lh, x, y),
                coefficient_at(c.green.lh, x, y),
                coefficient_at(c.blue.lh, x, y),
            ),
            0x1000_0000,
        ) && bounded(
            luminance(
                coefficient_at(c.red.hh, x, y),
                coefficient_at(c.green.hh, x, y),
                coefficient_at(c.blue.hh, x, y),
            ),
            0x1000_0000,
        )
}

/// The activity at a position is how active it and the eight around it are, in all three
/// orientations. It wraps around where that leaves the number range.
#[verifier::spinoff_prover]
pub proof fn lemma_activity_is_in_every_orientation(
    c: Channels<Bands<Fixed>>,
    gw: int,
    gh: int,
    x: int,
    y: int,
)
    requires
        0 <= x < gw,
        0 <= y < gh,
        moderate_bands(c, gw, gh),
    ensures
        activity_of(c, gw, gh)[y * gw + x].raw == wrap(around(active(c, gw, gh), x, y, 1)),
{
    let e = image_of(gw, gh, 1, |x: int, y: int, ch: int| position_energy(c, x, y));
    assert(gw * gh * 1 == gw * gh && 0 <= gw * gh) by (nonlinear_arith)
        requires
            0 < gw,
            0 < gh,
    ;
    lemma_a_box_sum_is_its_window(e, gw, gh, 1, x, y);
    let (f, g) = (levels_in(e, gw, gh), active(c, gw, gh));
    assert forall|u: int, v: int| #[trigger] f(u, v) == g(u, v) by {
        let (a, b) = (clamped(u, 0, gw - 1), clamped(v, 0, gh - 1));
        lemma_sample(a, b, 0, gw, gh, 1);
        lemma_position(c, gw, gh, a, b);
    }
    lemma_blocks_agree(f, g, x - 1, y - 1, 3, 3);
}

#[verifier::spinoff_prover]
proof fn lemma_position(c: Channels<Bands<Fixed>>, gw: int, gh: int, x: int, y: int)
    requires
        0 <= x < gw,
        0 <= y < gh,
        moderate_bands(c, gw, gh),
    ensures
        position_energy(c, x, y).raw == light_squared(c.red.hl, c.green.hl, c.blue.hl, x, y)
            + light_squared(c.red.lh, c.green.lh, c.blue.lh, x, y) + light_squared(
            c.red.hh,
            c.green.hh,
            c.blue.hh,
            x,
            y,
        ),
{
    let p = luminance(
        coefficient_at(c.red.hl, x, y),
        coefficient_at(c.green.hl, x, y),
        coefficient_at(c.blue.hl, x, y),
    );
    let q = luminance(
        coefficient_at(c.red.lh, x, y),
        coefficient_at(c.green.lh, x, y),
        coefficient_at(c.blue.lh, x, y),
    );
    let r = luminance(
        coefficient_at(c.red.hh, x, y),
        coefficient_at(c.green.hh, x, y),
        coefficient_at(c.blue.hh, x, y),
    );
    lemma_square(p);
    lemma_square(q);
    lemma_square(r);
    lemma_sum(p.spec_times(p), q.spec_times(q));
    lemma_sum(p.spec_times(p).spec_plus(q.spec_times(q)), r.spec_times(r));
}

} // verus!
