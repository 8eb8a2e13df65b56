//! What the focus measure sees: any change between neighbours, across columns and across rows
//! alike, and nothing where brightness is even or rises evenly.

use vstd::prelude::*;
use crate::filter::bordered;
use crate::focus::{contrast, contrasts, sharpness};
use crate::image::clamped;
use crate::layout::{lemma_place, lemma_sample};
use crate::rounding::{bounded, lemma_difference, lemma_product_of, lemma_sum, lemma_whole};
use crate::sample::{wrap, Exact, Fixed, Sample};
use crate::windows::{
    around, exchanged, lemma_a_box_sum_is_its_window, lemma_block_bounds, lemma_block_of_levels,
    lemma_box_sums_prefer_no_axis, lemma_exchanged_levels, level_at, levels_in,
};

verus! {

/// Are all samples of a plane at most `m` steps from zero?
pub open spec fn evenly_bounded(data: Seq<Fixed>, m: int) -> bool {
    forall|i: int| 0 <= i < data.len() ==> bounded(#[trigger] data[i], m)
}

/// How much a pixel's four neighbours differ from it, all together, in steps.
pub open spec fn stands_out(luma: Seq<Fixed>, w: int, h: int, x: int, y: int) -> int {
    let here = level_at(luma, w, h, x, y);
    (level_at(luma, w, h, x - 1, y) - here) + (level_at(luma, w, h, x + 1, y) - here) + (level_at(
        luma,
        w,
        h,
        x,
        y - 1,
    ) - here) + (level_at(luma, w, h, x, y + 1) - here)
}

/// The contrast at a pixel is the square of how much its four neighbours differ from it,
/// rounded down to a step.
#[verifier::spinoff_prover]
pub proof fn lemma_contrast_is_what_stands_out(luma: Seq<Fixed>, w: int, h: int, x: int, y: int)
    requires
        luma.len() == w * h,
        evenly_bounded(luma, 0x10_0000_0000),
        0 <= x < w,
        0 <= y < h,
    ensures
        contrasts(luma, w, h)[y * w + x].raw == (stands_out(luma, w, h, x, y) * stands_out(
            luma,
            w,
            h,
            x,
            y,
        )) / 65536,
        0 <= contrasts(luma, w, h)[y * w + x].raw,
{
    lemma_sample(x, y, 0, w, h, 1);
    let m = 0x10_0000_0000int;
    lemma_level(luma, w, h, x - 1, y, m);
    lemma_level(luma, w, h, x + 1, y, m);
    lemma_level(luma, w, h, x, y - 1, m);
    lemma_level(luma, w, h, x, y + 1, m);
    lemma_level(luma, w, h, x, y, m);
    let (l, r) = (bordered(luma, w, h, x - 1, y), bordered(luma, w, h, x + 1, y));
    let (a, b) = (bordered(luma, w, h, x, y - 1), bordered(luma, w, h, x, y + 1));
    let c = bordered(luma, w, h, x, y);
    lemma_whole(4);
    let four = Fixed::spec_whole(4).spec_times(c);
    assert((262144 * c.raw) / 65536 == 4 * c.raw);
    lemma_product_of(Fixed::spec_whole(4), c);
    lemma_sum(l, r);
    lemma_sum(l.spec_plus(r), a);
    lemma_sum(l.spec_plus(r).spec_plus(a), b);
    let all = l.spec_plus(r).spec_plus(a).spec_plus(b);
    lemma_difference(all, four);
    let lap = all.spec_minus(four);
    let s = stands_out(luma, w, h, x, y);
    assert(lap.raw == s);
    let square = s * s;
    assert(0 <= square <= 0x80_0000_0000 * 0x80_0000_0000) by (nonlinear_arith)
        requires
            square == s * s,
            -0x80_0000_0000 <= s <= 0x80_0000_0000,
    ;
    lemma_product_of(lap, lap);
    assert(contrast(luma, w, h, x, y) == lap.spec_times(lap));
}

proof fn lemma_level(luma: Seq<Fixed>, w: int, h: int, x: int, y: int, m: int)
    requires
        luma.len() == w * h,
        evenly_bounded(luma, m),
        0 < w,
        0 < h,
    ensures
        -m <= level_at(luma, w, h, x, y) <= m,
        bordered(luma, w, h, x, y).raw == level_at(luma, w, h, x, y),
{
    lemma_place(clamped(x, 0, w - 1), clamped(y, 0, h - 1), w, h);
}

/// The measure prefers no axis: with rows and columns exchanged, contrast and sharpness have
/// theirs exchanged, to the last step.
pub proof fn lemma_the_measure_prefers_no_axis(
    a: Seq<Fixed>,
    b: Seq<Fixed>,
    w: int,
    h: int,
    r: int,
)
    requires
        exchanged(a, b, w, h),
        0 < w,
        0 < h,
        0 <= r,
    ensures
        exchanged(contrasts(a, w, h), contrasts(b, h, w), w, h),
        forall|x: int, y: int|
            0 <= x < w && 0 <= y < h ==> #[trigger] sharpness(b, h, w, r)[x * h + y] == sharpness(
                a,
                w,
                h,
                r,
            )[y * w + x],
{
    let (p, q) = (contrasts(a, w, h), contrasts(b, h, w));
    assert(w * h * 1 == w * h && h * w * 1 == w * h && 0 <= w * h) by (nonlinear_arith)
        requires
            0 < w,
            0 < h,
    ;
    assert forall|x: int, y: int| 0 <= x < w && 0 <= y < h implies #[trigger] q[x * h + y] == p[y
        * w + x] by {
        lemma_sample(x, y, 0, w, h, 1);
        lemma_sample(y, x, 0, h, w, 1);
        lemma_exchanged_levels(a, b, w, h, x - 1, y);
        lemma_exchanged_levels(a, b, w, h, x + 1, y);
        lemma_exchanged_levels(a, b, w, h, x, y - 1);
        lemma_exchanged_levels(a, b, w, h, x, y + 1);
        lemma_exchanged_levels(a, b, w, h, x, y);
        lemma_sums_commute(
            bordered(a, w, h, x - 1, y),
            bordered(a, w, h, x + 1, y),
            bordered(a, w, h, x, y - 1),
            bordered(a, w, h, x, y + 1),
        );
    }
    assert forall|x: int, y: int| 0 <= x < w && 0 <= y < h implies #[trigger] sharpness(
        b,
        h,
        w,
        r,
    )[x * h + y] == sharpness(a, w, h, r)[y * w + x] by {
        lemma_box_sums_prefer_no_axis(p, q, w, h, r, x, y);
    }
}

proof fn lemma_sums_commute(l: Fixed, r: Fixed, a: Fixed, b: Fixed)
    ensures
        a.spec_plus(b).spec_plus(l).spec_plus(r) == l.spec_plus(r).spec_plus(a).spec_plus(b),
{
    Fixed::lemma_plus_associates(a.spec_plus(b), l, r);
    Fixed::lemma_plus_commutes(a.spec_plus(b), l.spec_plus(r));
    Fixed::lemma_plus_associates(l.spec_plus(r), a, b);
}

/// A plane that is even but for one pixel, which rises by `d` steps, has contrast there and at
/// its four neighbours and nowhere else: sixteen times as much there as at a neighbour.
pub proof fn lemma_one_pixel_is_seen_all_around(
    luma: Seq<Fixed>,
    w: int,
    h: int,
    u: int,
    v: int,
    ground: int,
    d: int,
    x: int,
    y: int,
)
    requires
        luma.len() == w * h,
        evenly_bounded(luma, 0x10_0000_0000),
        1 <= u < w - 1,
        1 <= v < h - 1,
        0 <= x < w,
        0 <= y < h,
        forall|i: int, j: int|
            0 <= i < w && 0 <= j < h ==> (#[trigger] luma[j * w + i]).raw == (if i == u && j == v {
                ground + d
            } else {
                ground
            }),
    ensures
        contrasts(luma, w, h)[y * w + x].raw == (if x == u && y == v {
            (16 * (d * d)) / 65536
        } else if (x == u && (y == v - 1 || y == v + 1)) || (y == v && (x == u - 1 || x == u + 1)) {
            (d * d) / 65536
        } else {
            0
        }),
{
    lemma_contrast_is_what_stands_out(luma, w, h, x, y);
    lemma_bump(luma, w, h, u, v, ground, d, x - 1, y);
    lemma_bump(luma, w, h, u, v, ground, d, x + 1, y);
    lemma_bump(luma, w, h, u, v, ground, d, x, y - 1);
    lemma_bump(luma, w, h, u, v, ground, d, x, y + 1);
    lemma_bump(luma, w, h, u, v, ground, d, x, y);
    let s = stands_out(luma, w, h, x, y);
    let square = s * s;
    if x == u && y == v {
        assert(square == 16 * (d * d)) by (nonlinear_arith)
            requires
                square == s * s,
                s == -4 * d,
        ;
    } else if s == d {
        assert(square == d * d);
    } else {
        assert(s == 0);
    }
}

proof fn lemma_bump(
    luma: Seq<Fixed>,
    w: int,
    h: int,
    u: int,
    v: int,
    ground: int,
    d: int,
    x: int,
    y: int,
)
    requires
        1 <= u < w - 1,
        1 <= v < h - 1,
        -1 <= x <= w,
        -1 <= y <= h,
        forall|i: int, j: int|
            0 <= i < w && 0 <= j < h ==> (#[trigger] luma[j * w + i]).raw == (if i == u && j == v {
                ground + d
            } else {
                ground
            }),
    ensures
        level_at(luma, w, h, x, y) == (if x == u && y == v {
            ground + d
        } else {
            ground
        }),
{
    let (i, j) = (clamped(x, 0, w - 1), clamped(y, 0, h - 1));
    assert(luma[j * w + i].raw == (if i == u && j == v {
        ground + d
    } else {
        ground
    }));
}

/// The sharpness at a pixel is the sum of the contrasts in its window.
#[verifier::spinoff_prover]
pub proof fn lemma_sharpness_adds_up_contrast(
    luma: Seq<Fixed>,
    w: int,
    h: int,
    r: int,
    x: int,
    y: int,
)
    requires
        luma.len() == w * h,
        evenly_bounded(luma, 0x10_0000),
        0 <= r <= 0x7fff,
        0 <= x < w,
        0 <= y < h,
    ensures
        sharpness(luma, w, h, r)[y * w + x].raw == around(
            levels_in(contrasts(luma, w, h), w, h),
            x,
            y,
            r,
        ),
{
    let energy = contrasts(luma, w, h);
    assert(w * h * 1 == w * h && 0 <= w * h) by (nonlinear_arith)
        requires
            0 < w,
            0 < h,
    ;
    let f = levels_in(energy, w, h);
    let most = 0x4000_0000int;
    assert forall|u: int, v: int| 0 <= #[trigger] f(u, v) <= most by {
        lemma_contrast_is_small(luma, w, h, clamped(u, 0, w - 1), clamped(v, 0, h - 1));
    }
    lemma_a_box_sum_is_its_window(energy, w, h, r, x, y);
    let n = (2 * r + 1) as nat;
    lemma_block_bounds(f, x - r, y - r, n, n, most);
    assert(n * (n * most) <= 0x4000_0000_0000_0000) by (nonlinear_arith)
        requires
            0 <= n <= 0xffff,
            most == 0x4000_0000,
    ;
    assert(wrap(around(f, x, y, r)) == around(f, x, y, r));
}

proof fn lemma_contrast_is_small(luma: Seq<Fixed>, w: int, h: int, x: int, y: int)
    requires
        luma.len() == w * h,
        evenly_bounded(luma, 0x10_0000),
        0 <= x < w,
        0 <= y < h,
    ensures
        0 <= contrasts(luma, w, h)[y * w + x].raw <= 0x4000_0000,
{
    let m = 0x10_0000int;
    assert(evenly_bounded(luma, 0x10_0000_0000));
    lemma_contrast_is_what_stands_out(luma, w, h, x, y);
    lemma_level(luma, w, h, x - 1, y, m);
    lemma_level(luma, w, h, x + 1, y, m);
    lemma_level(luma, w, h, x, y - 1, m);
    lemma_level(luma, w, h, x, y + 1, m);
    lemma_level(luma, w, h, x, y, m);
    let s = stands_out(luma, w, h, x, y);
    assert(0 <= s * s <= 0x80_0000 * 0x80_0000) by (nonlinear_arith)
        requires
            -0x80_0000 <= s <= 0x80_0000,
    ;
}

/// Whatever stands out is seen from every pixel whose window reaches it, along rows and
/// columns alike.
pub proof fn lemma_what_stands_out_is_seen(
    luma: Seq<Fixed>,
    w: int,
    h: int,
    r: int,
    x: int,
    y: int,
    u: int,
    v: int,
)
    requires
        luma.len() == w * h,
        evenly_bounded(luma, 0x10_0000),
        0 <= r <= 0x7fff,
        0 <= x < w,
        0 <= y < h,
        0 <= u < w,
        0 <= v < h,
        x - r <= u <= x + r,
        y - r <= v <= y + r,
        stands_out(luma, w, h, u, v) >= 256 || stands_out(luma, w, h, u, v) <= -256,
    ensures
        sharpness(luma, w, h, r)[y * w + x].raw >= 1,
{
    let energy = contrasts(luma, w, h);
    let f = levels_in(energy, w, h);
    lemma_sharpness_adds_up_contrast(luma, w, h, r, x, y);
    assert forall|i: int, j: int| 0 <= #[trigger] f(i, j) <= 0x4000_0000 by {
        lemma_contrast_is_small(luma, w, h, clamped(i, 0, w - 1), clamped(j, 0, h - 1));
    }
    let n = (2 * r + 1) as nat;
    lemma_block_of_levels(f, x - r, y - r, n, n, u, v, 0x4000_0000);
    assert(evenly_bounded(luma, 0x10_0000_0000));
    lemma_contrast_is_what_stands_out(luma, w, h, u, v);
    let s = stands_out(luma, w, h, u, v);
    assert(s * s >= 65536) by (nonlinear_arith)
        requires
            s >= 256 || s <= -256,
    ;
    assert(f(u, v) == energy[v * w + u].raw);
}

/// A step between two rows is in focus: a plane that is even above a row and even from it on,
/// with a step of at least 256 between, has sharpness at every pixel whose window reaches the
/// row.
pub proof fn lemma_steps_between_rows_are_seen(
    luma: Seq<Fixed>,
    w: int,
    h: int,
    r: int,
    edge: int,
    above: int,
    below: int,
    x: int,
    y: int,
)
    requires
        luma.len() == w * h,
        evenly_bounded(luma, 0x10_0000),
        0 <= r <= 0x7fff,
        0 <= x < w,
        0 <= y < h,
        1 <= edge < h,
        forall|i: int, j: int|
            0 <= i < w && 0 <= j < h ==> (#[trigger] luma[j * w + i]).raw == (if j < edge {
                above
            } else {
                below
            }),
        below - above >= 256 || above - below >= 256,
        y - r <= edge <= y + r,
    ensures
        sharpness(luma, w, h, r)[y * w + x].raw >= 1,
{
    assert forall|i: int, j: int| #[trigger] level_at(luma, w, h, i, j) == (if clamped(
        j,
        0,
        h - 1,
    ) < edge {
        above
    } else {
        below
    }) by {
        assert(luma[clamped(j, 0, h - 1) * w + clamped(i, 0, w - 1)].raw == (if clamped(
            j,
            0,
            h - 1,
        ) < edge {
            above
        } else {
            below
        }));
    }
    assert(stands_out(luma, w, h, x, edge) == above - below);
    lemma_what_stands_out_is_seen(luma, w, h, r, x, y, x, edge);
}

/// An even slope is out of focus: away from the border, where brightness rises by the same
/// amount from column to column and from row to row, there is no contrast.
pub proof fn lemma_slopes_have_no_contrast(
    luma: Seq<Fixed>,
    w: int,
    h: int,
    a: int,
    b: int,
    c: int,
    x: int,
    y: int,
)
    requires
        luma.len() == w * h,
        evenly_bounded(luma, 0x10_0000_0000),
        1 <= x < w - 1,
        1 <= y < h - 1,
        forall|i: int, j: int|
            0 <= i < w && 0 <= j < h ==> (#[trigger] luma[j * w + i]).raw == a * i + b * j + c,
    ensures
        contrasts(luma, w, h)[y * w + x].raw == 0,
{
    lemma_contrast_is_what_stands_out(luma, w, h, x, y);
    assert(luma[y * w + (x - 1)].raw == a * (x - 1) + b * y + c);
    assert(luma[y * w + (x + 1)].raw == a * (x + 1) + b * y + c);
    assert(luma[(y - 1) * w + x].raw == a * x + b * (y - 1) + c);
    assert(luma[(y + 1) * w + x].raw == a * x + b * (y + 1) + c);
    assert(luma[y * w + x].raw == a * x + b * y + c);
    assert(a * (x - 1) == a * x - a && a * (x + 1) == a * x + a) by (nonlinear_arith);
    assert(b * (y - 1) == b * y - b && b * (y + 1) == b * y + b) by (nonlinear_arith);
    assert(stands_out(luma, w, h, x, y) == 0);
}

} // verus!
