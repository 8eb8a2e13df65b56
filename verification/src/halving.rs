//! Where the samples of a reduced and of an expanded picture come from, on both axes.
//!
//! A reduced sample stands at every other pixel, and is the mean of the five by five around
//! it under the binomial weights 1, 4, 6, 4, 1. An expanded one stands at half pixels.

use vstd::prelude::*;
use crate::image::{clamped, half_up};
use crate::layout::lemma_sample;
use crate::pyramid::{
    blurred, expanded, kernel, narrowed, phase, picture, shrunk, texel, whole_picture, widened,
    Picture,
};
use crate::rounding::{bounded, lemma_part, lemma_sum, lemma_whole};
use crate::sample::{Fixed, Sample};

verus! {

/// A sample of a picture in steps, with the border repeated outside it.
pub open spec fn steps_at(p: Picture<Fixed>, x: int, y: int, ch: int) -> int {
    p.data[(clamped(y, 0, p.h - 1) * p.w + clamped(x, 0, p.w - 1)) * p.c + ch].raw as int
}

/// Are all samples of a picture at most `m` steps from zero?
pub open spec fn all_bounded(p: Picture<Fixed>, m: int) -> bool {
    forall|i: int| 0 <= i < p.data.len() ==> bounded(#[trigger] p.data[i], m)
}

/// Five samples along a row under the binomial weights, which sum to sixteen.
pub open spec fn row_of_five(p: Picture<Fixed>, x: int, y: int, ch: int) -> int {
    steps_at(p, x - 2, y, ch) + 4 * steps_at(p, x - 1, y, ch) + 6 * steps_at(p, x, y, ch) + 4
        * steps_at(p, x + 1, y, ch) + steps_at(p, x + 2, y, ch)
}

/// The five by five samples around a pixel under the binomial weights, which sum to 256.
pub open spec fn five_by_five(p: Picture<Fixed>, x: int, y: int, ch: int) -> int {
    row_of_five(p, x, y - 2, ch) + 4 * row_of_five(p, x, y - 1, ch) + 6 * row_of_five(p, x, y, ch)
        + 4 * row_of_five(p, x, y + 1, ch) + row_of_five(p, x, y + 2, ch)
}

proof fn lemma_kernel()
    ensures
        kernel::<Fixed>(0).raw == 4096,
        kernel::<Fixed>(1).raw == 16384,
        kernel::<Fixed>(2).raw == 24576,
        kernel::<Fixed>(3).raw == 16384,
        kernel::<Fixed>(4).raw == 4096,
{
    lemma_whole(1);
    lemma_whole(4);
    lemma_whole(6);
    lemma_whole(16);
    assert((65536int * 65536) / 1048576 == 4096);
    assert((262144int * 65536) / 1048576 == 16384);
    assert((393216int * 65536) / 1048576 == 24576);
}

/// One more tap of a blur.
#[verifier::spinoff_prover]
proof fn lemma_tap_added(tap: spec_fn(int) -> Fixed, at: int, n: int, k: int, m: int)
    requires
        0 <= k < 5,
        0 <= m <= 0x40_0000_0000_0000,
        bounded(tap(clamped(at + k - 2, 0, n - 1)), m),
        bounded(blurred(tap, at, n, k as nat), 0x400_0000_0000_0000),
    ensures
        ({
            let v = tap(clamped(at + k - 2, 0, n - 1)).raw as int;
            let was = blurred(tap, at, n, k as nat).raw as int;
            let is = blurred(tap, at, n, (k + 1) as nat).raw as int;
            let weight: int = if k == 0 || k == 4 {
                1
            } else if k == 1 || k == 3 {
                4
            } else {
                6
            };
            &&& weight * v - 16 < 16 * (is - was) <= weight * v
            &&& -m <= is - was <= m
        }),
{
    lemma_kernel();
    let v = tap(clamped(at + k - 2, 0, n - 1));
    let part = kernel::<Fixed>(k).spec_times(v);
    lemma_part(v, kernel::<Fixed>(k), m);
    lemma_sum(blurred(tap, at, n, k as nat), part);
    assert(blurred(tap, at, n, (k + 1) as nat) == blurred(tap, at, n, k as nat).spec_plus(part));
}

/// A blur is the mean of its five taps under the binomial weights, rounded down by less than
/// five steps.
#[verifier::spinoff_prover]
proof fn lemma_blur(tap: spec_fn(int) -> Fixed, at: int, n: int, m: int)
    requires
        n > 0,
        0 <= m <= 0x40_0000_0000_0000,
        forall|i: int| 0 <= i < n ==> bounded(#[trigger] tap(i), m),
    ensures
        ({
            let five = tap(clamped(at - 2, 0, n - 1)).raw + 4 * tap(clamped(at - 1, 0, n - 1)).raw
                + 6 * tap(clamped(at, 0, n - 1)).raw + 4 * tap(clamped(at + 1, 0, n - 1)).raw + tap(
                clamped(at + 2, 0, n - 1),
            ).raw;
            &&& five - 80 < 16 * blurred(tap, at, n, 5).raw <= five
            &&& bounded(blurred(tap, at, n, 5), 5 * m)
        }),
{
    lemma_whole(0);
    assert(blurred(tap, at, n, 0).raw == 0);
    lemma_tap_added(tap, at, n, 0, m);
    lemma_tap_added(tap, at, n, 1, m);
    lemma_tap_added(tap, at, n, 2, m);
    lemma_tap_added(tap, at, n, 3, m);
    lemma_tap_added(tap, at, n, 4, m);
}

/// A sample of a picture that a function gives.
proof fn lemma_given(w: int, h: int, c: int, f: spec_fn(int, int, int) -> Fixed, x: int, y: int, ch: int)
    requires
        0 <= x < w,
        0 <= y < h,
        0 <= ch < c,
    ensures
        texel(picture(w, h, c, f), x, y, ch) == f(x, y, ch),
{
    lemma_sample(x, y, ch, w, h, c);
}

/// A sample along a row, blurred.
#[verifier::spinoff_prover]
proof fn lemma_narrowed(p: Picture<Fixed>, x: int, y: int, ch: int, m: int)
    requires
        whole_picture(p),
        all_bounded(p, m),
        0 <= m <= 0x40_0000_0000_0000,
        0 <= x < half_up(p.w),
        0 <= y < p.h,
        0 <= ch < p.c,
    ensures
        row_of_five(p, 2 * x, y, ch) - 80 < 16 * texel(narrowed(p), x, y, ch).raw <= row_of_five(
            p,
            2 * x,
            y,
            ch,
        ),
        bounded(texel(narrowed(p), x, y, ch), 5 * m),
{
    let tap = |i: int| texel(p, i, y, ch);
    assert forall|i: int| 0 <= i < p.w implies bounded(#[trigger] tap(i), m) by {
        lemma_sample(i, y, ch, p.w, p.h, p.c);
    }
    lemma_blur(tap, 2 * x, p.w, m);
    lemma_given(
        half_up(p.w),
        p.h,
        p.c,
        |x: int, y: int, ch: int| blurred(|i: int| texel(p, i, y, ch), 2 * x, p.w, 5),
        x,
        y,
        ch,
    );
    assert(clamped(y, 0, p.h - 1) == y);
}

/// A reduced sample stands at every other pixel of every other row: it is the mean of the five
/// by five samples around that pixel under the binomial weights, rounded down by less than
/// ten steps.
#[verifier::spinoff_prover]
pub proof fn lemma_reduced_samples_stand_at_every_other_pixel(
    p: Picture<Fixed>,
    x: int,
    y: int,
    ch: int,
)
    requires
        whole_picture(p),
        all_bounded(p, 0x1_0000_0000_0000),
        0 <= x < half_up(p.w),
        0 <= y < half_up(p.h),
        0 <= ch < p.c,
    ensures
        shrunk(p).w == (p.w + 1) / 2,
        shrunk(p).h == (p.h + 1) / 2,
        shrunk(p).c == p.c,
        five_by_five(p, 2 * x, 2 * y, ch) - 2560 < 256 * steps_at(shrunk(p), x, y, ch)
            <= five_by_five(p, 2 * x, 2 * y, ch),
{
    let m = 0x1_0000_0000_0000int;
    let q = narrowed(p);
    let down = |j: int| texel(q, x, j, ch);
    assert forall|j: int| 0 <= j < p.h implies bounded(#[trigger] down(j), 5 * m) by {
        lemma_narrowed(p, x, j, ch, m);
    }
    lemma_blur(down, 2 * y, p.h, 5 * m);
    lemma_given(
        half_up(p.w),
        half_up(p.h),
        p.c,
        |x: int, y: int, ch: int| blurred(|j: int| texel(q, x, j, ch), 2 * y, p.h, 5),
        x,
        y,
        ch,
    );
    let r = blurred(down, 2 * y, p.h, 5);
    assert(texel(shrunk(p), x, y, ch) == r);
    assert(steps_at(shrunk(p), x, y, ch) == r.raw);
    lemma_row_at(p, x, 2 * y - 2, ch, m);
    lemma_row_at(p, x, 2 * y - 1, ch, m);
    lemma_row_at(p, x, 2 * y, ch, m);
    lemma_row_at(p, x, 2 * y + 1, ch, m);
    lemma_row_at(p, x, 2 * y + 2, ch, m);
}

/// A row of the blur, or the border's.
proof fn lemma_row_at(p: Picture<Fixed>, x: int, j: int, ch: int, m: int)
    requires
        whole_picture(p),
        all_bounded(p, m),
        0 <= m <= 0x40_0000_0000_0000,
        0 <= x < half_up(p.w),
        0 < p.h,
        0 <= ch < p.c,
    ensures
        row_of_five(p, 2 * x, j, ch) - 80 < 16 * texel(
            narrowed(p),
            x,
            clamped(j, 0, p.h - 1),
            ch,
        ).raw <= row_of_five(p, 2 * x, j, ch),
{
    let k = clamped(j, 0, p.h - 1);
    lemma_narrowed(p, x, k, ch, m);
    assert(clamped(k, 0, p.h - 1) == k);
    assert(row_of_five(p, 2 * x, k, ch) == row_of_five(p, 2 * x, j, ch));
}

/// Is a picture a plane that rises by `a` steps a column and `b` steps a row from `d`?
pub open spec fn sloping(p: Picture<Fixed>, a: int, b: int, d: int, ch: int) -> bool {
    forall|x: int, y: int|
        0 <= x < p.w && 0 <= y < p.h ==> #[trigger] steps_at(p, x, y, ch) == a * x + b * y + d
}

/// A slope keeps its heights when it is reduced: away from the border, the sample at `(x, y)`
/// has the height of the pixel at `(2x, 2y)`, rounded down by less than ten steps.
pub proof fn lemma_reducing_keeps_heights(
    p: Picture<Fixed>,
    a: int,
    b: int,
    d: int,
    x: int,
    y: int,
    ch: int,
)
    requires
        whole_picture(p),
        all_bounded(p, 0x1_0000_0000_0000),
        sloping(p, a, b, d, ch),
        2 <= 2 * x <= p.w - 3,
        2 <= 2 * y <= p.h - 3,
        0 <= ch < p.c,
    ensures
        a * (2 * x) + b * (2 * y) + d - 10 < steps_at(shrunk(p), x, y, ch) <= a * (2 * x) + b * (2
            * y) + d,
{
    lemma_reduced_samples_stand_at_every_other_pixel(p, x, y, ch);
    lemma_slope_row(p, a, b, d, 2 * x, 2 * y - 2, ch);
    lemma_slope_row(p, a, b, d, 2 * x, 2 * y - 1, ch);
    lemma_slope_row(p, a, b, d, 2 * x, 2 * y, ch);
    lemma_slope_row(p, a, b, d, 2 * x, 2 * y + 1, ch);
    lemma_slope_row(p, a, b, d, 2 * x, 2 * y + 2, ch);
    let v = 2 * y;
    assert(b * (v - 2) == b * v - 2 * b) by (nonlinear_arith);
    assert(b * (v - 1) == b * v - b) by (nonlinear_arith);
    assert(b * (v + 1) == b * v + b) by (nonlinear_arith);
    assert(b * (v + 2) == b * v + 2 * b) by (nonlinear_arith);
}

proof fn lemma_slope_row(p: Picture<Fixed>, a: int, b: int, d: int, x: int, y: int, ch: int)
    requires
        sloping(p, a, b, d, ch),
        2 <= x <= p.w - 3,
        0 <= y < p.h,
    ensures
        row_of_five(p, x, y, ch) == 16 * (a * x + b * y + d),
{
    assert(a * (x - 2) == a * x - 2 * a) by (nonlinear_arith);
    assert(a * (x - 1) == a * x - a) by (nonlinear_arith);
    assert(a * (x + 1) == a * x + a) by (nonlinear_arith);
    assert(a * (x + 2) == a * x + 2 * a) by (nonlinear_arith);
    assert(steps_at(p, x - 2, y, ch) == a * (x - 2) + b * y + d);
    assert(steps_at(p, x - 1, y, ch) == a * (x - 1) + b * y + d);
    assert(steps_at(p, x, y, ch) == a * x + b * y + d);
    assert(steps_at(p, x + 1, y, ch) == a * (x + 1) + b * y + d);
    assert(steps_at(p, x + 2, y, ch) == a * (x + 2) + b * y + d);
}

/// Is a picture another with its rows and columns exchanged?
pub open spec fn turned(p: Picture<Fixed>, q: Picture<Fixed>) -> bool {
    &&& q.w == p.h
    &&& q.h == p.w
    &&& q.c == p.c
    &&& forall|x: int, y: int, ch: int|
        0 <= x < p.w && 0 <= y < p.h && 0 <= ch < p.c ==> #[trigger] steps_at(q, y, x, ch)
            == steps_at(p, x, y, ch)
}

/// Reducing prefers no axis: with rows and columns exchanged, the reduced picture has its rows
/// and columns exchanged, but for less than ten steps of rounding.
pub proof fn lemma_reducing_prefers_no_axis(
    p: Picture<Fixed>,
    q: Picture<Fixed>,
    x: int,
    y: int,
    ch: int,
)
    requires
        whole_picture(p),
        whole_picture(q),
        all_bounded(p, 0x1_0000_0000_0000),
        all_bounded(q, 0x1_0000_0000_0000),
        turned(p, q),
        0 <= x < half_up(p.w),
        0 <= y < half_up(p.h),
        0 <= ch < p.c,
    ensures
        shrunk(q).w == shrunk(p).h,
        shrunk(q).h == shrunk(p).w,
        -10 < steps_at(shrunk(q), y, x, ch) - steps_at(shrunk(p), x, y, ch) < 10,
{
    lemma_reduced_samples_stand_at_every_other_pixel(p, x, y, ch);
    lemma_reduced_samples_stand_at_every_other_pixel(q, y, x, ch);
    lemma_turned_five(p, q, 2 * x, 2 * y, ch);
}

proof fn lemma_turned_pixel(p: Picture<Fixed>, q: Picture<Fixed>, x: int, y: int, ch: int)
    requires
        turned(p, q),
        0 < p.w,
        0 < p.h,
        0 <= ch < p.c,
    ensures
        steps_at(q, y, x, ch) == steps_at(p, x, y, ch),
{
    let (a, b) = (clamped(x, 0, p.w - 1), clamped(y, 0, p.h - 1));
    assert(steps_at(q, b, a, ch) == steps_at(p, a, b, ch));
    assert(clamped(a, 0, p.w - 1) == a && clamped(b, 0, p.h - 1) == b);
}

proof fn lemma_turned_row(p: Picture<Fixed>, q: Picture<Fixed>, x: int, y: int, ch: int)
    requires
        turned(p, q),
        0 < p.w,
        0 < p.h,
        0 <= ch < p.c,
    ensures
        row_of_five(q, y, x, ch) == steps_at(p, x, y - 2, ch) + 4 * steps_at(p, x, y - 1, ch) + 6
            * steps_at(p, x, y, ch) + 4 * steps_at(p, x, y + 1, ch) + steps_at(p, x, y + 2, ch),
{
    lemma_turned_pixel(p, q, x, y - 2, ch);
    lemma_turned_pixel(p, q, x, y - 1, ch);
    lemma_turned_pixel(p, q, x, y, ch);
    lemma_turned_pixel(p, q, x, y + 1, ch);
    lemma_turned_pixel(p, q, x, y + 2, ch);
}

proof fn lemma_turned_five(p: Picture<Fixed>, q: Picture<Fixed>, x: int, y: int, ch: int)
    requires
        turned(p, q),
        0 < p.w,
        0 < p.h,
        0 <= ch < p.c,
    ensures
        five_by_five(q, y, x, ch) == five_by_five(p, x, y, ch),
{
    lemma_turned_row(p, q, x - 2, y, ch);
    lemma_turned_row(p, q, x - 1, y, ch);
    lemma_turned_row(p, q, x, y, ch);
    lemma_turned_row(p, q, x + 1, y, ch);
    lemma_turned_row(p, q, x + 2, y, ch);
}

/// A reduced sample depends on the pixels within two of its own, and on its own: pictures that
/// agree but for a pixel that rises at `(2x, 2y)` differ at `(x, y)`, and ones that agree on
/// the five by five around it are less than ten steps apart there.
pub proof fn lemma_reduced_samples_follow_their_pixel(
    p: Picture<Fixed>,
    q: Picture<Fixed>,
    x: int,
    y: int,
    ch: int,
)
    requires
        whole_picture(p),
        whole_picture(q),
        all_bounded(p, 0x1_0000_0000_0000),
        all_bounded(q, 0x1_0000_0000_0000),
        q.w == p.w,
        q.h == p.h,
        q.c == p.c,
        0 <= x < half_up(p.w),
        0 <= y < half_up(p.h),
        0 <= ch < p.c,
        forall|i: int, j: int|
            2 * x - 2 <= i <= 2 * x + 2 && 2 * y - 2 <= j <= 2 * y + 2 && (clamped(i, 0, p.w - 1)
                != 2 * x || clamped(j, 0, p.h - 1) != 2 * y) ==> #[trigger] steps_at(q, i, j, ch)
                == steps_at(p, i, j, ch),
    ensures
        steps_at(q, 2 * x, 2 * y, ch) == steps_at(p, 2 * x, 2 * y, ch) ==> -10 < steps_at(
            shrunk(q),
            x,
            y,
            ch,
        ) - steps_at(shrunk(p), x, y, ch) < 10,
        steps_at(q, 2 * x, 2 * y, ch) >= steps_at(p, 2 * x, 2 * y, ch) + 72 ==> steps_at(
            shrunk(q),
            x,
            y,
            ch,
        ) > steps_at(shrunk(p), x, y, ch),
{
    lemma_reduced_samples_stand_at_every_other_pixel(p, x, y, ch);
    lemma_reduced_samples_stand_at_every_other_pixel(q, x, y, ch);
    let d = steps_at(q, 2 * x, 2 * y, ch) - steps_at(p, 2 * x, 2 * y, ch);
    if d >= 0 {
        lemma_row_follows(p, q, 2 * x, 2 * y, 2 * y - 2, ch, d);
        lemma_row_follows(p, q, 2 * x, 2 * y, 2 * y - 1, ch, d);
        lemma_row_follows(p, q, 2 * x, 2 * y, 2 * y, ch, d);
        lemma_row_follows(p, q, 2 * x, 2 * y, 2 * y + 1, ch, d);
        lemma_row_follows(p, q, 2 * x, 2 * y, 2 * y + 2, ch, d);
    }
}

proof fn lemma_row_follows(
    p: Picture<Fixed>,
    q: Picture<Fixed>,
    x: int,
    y: int,
    j: int,
    ch: int,
    d: int,
)
    requires
        q.w == p.w,
        q.h == p.h,
        q.c == p.c,
        0 <= x < p.w,
        0 <= y < p.h,
        y - 2 <= j <= y + 2,
        0 <= d,
        d == steps_at(q, x, y, ch) - steps_at(p, x, y, ch),
        forall|i: int, j: int|
            x - 2 <= i <= x + 2 && y - 2 <= j <= y + 2 && (clamped(i, 0, p.w - 1) != x || clamped(
                j,
                0,
                p.h - 1,
            ) != y) ==> #[trigger] steps_at(q, i, j, ch) == steps_at(p, i, j, ch),
    ensures
        row_of_five(q, x, j, ch) >= row_of_five(p, x, j, ch),
        d == 0 ==> row_of_five(q, x, j, ch) == row_of_five(p, x, j, ch),
        j == y ==> row_of_five(q, x, j, ch) >= row_of_five(p, x, j, ch) + 6 * d,
{
    lemma_pixel_follows(p, q, x, y, x - 2, j, ch, d);
    lemma_pixel_follows(p, q, x, y, x - 1, j, ch, d);
    lemma_pixel_follows(p, q, x, y, x, j, ch, d);
    lemma_pixel_follows(p, q, x, y, x + 1, j, ch, d);
    lemma_pixel_follows(p, q, x, y, x + 2, j, ch, d);
}

proof fn lemma_pixel_follows(
    p: Picture<Fixed>,
    q: Picture<Fixed>,
    x: int,
    y: int,
    i: int,
    j: int,
    ch: int,
    d: int,
)
    requires
        q.w == p.w,
        q.h == p.h,
        q.c == p.c,
        0 <= x < p.w,
        0 <= y < p.h,
        x - 2 <= i <= x + 2,
        y - 2 <= j <= y + 2,
        d == steps_at(q, x, y, ch) - steps_at(p, x, y, ch),
        forall|i: int, j: int|
            x - 2 <= i <= x + 2 && y - 2 <= j <= y + 2 && (clamped(i, 0, p.w - 1) != x || clamped(
                j,
                0,
                p.h - 1,
            ) != y) ==> #[trigger] steps_at(q, i, j, ch) == steps_at(p, i, j, ch),
    ensures
        steps_at(q, i, j, ch) == steps_at(p, i, j, ch) || steps_at(q, i, j, ch) == steps_at(
            p,
            i,
            j,
            ch,
        ) + d,
        i == x && j == y ==> steps_at(q, i, j, ch) == steps_at(p, i, j, ch) + d,
{
    let (a, b) = (clamped(i, 0, p.w - 1), clamped(j, 0, p.h - 1));
    if a == x && b == y {
        assert(clamped(x, 0, p.w - 1) == x && clamped(y, 0, p.h - 1) == y);
        assert(steps_at(q, i, j, ch) == steps_at(q, x, y, ch));
        assert(steps_at(p, i, j, ch) == steps_at(p, x, y, ch));
    }
}

/// Eight times what stands at a half pixel of a row: on a pixel, a blend of it with its
/// neighbours, and between two their mean.
pub open spec fn row_between(p: Picture<Fixed>, x: int, y: int, ch: int) -> int {
    if x % 2 == 0 {
        steps_at(p, x / 2 - 1, y, ch) + 6 * steps_at(p, x / 2, y, ch) + steps_at(
            p,
            x / 2 + 1,
            y,
            ch,
        )
    } else {
        4 * steps_at(p, x / 2, y, ch) + 4 * steps_at(p, x / 2 + 1, y, ch)
    }
}

/// Sixty-four times what stands at a half pixel, in the same way along both axes.
pub open spec fn all_between(p: Picture<Fixed>, x: int, y: int, ch: int) -> int {
    if y % 2 == 0 {
        row_between(p, x, y / 2 - 1, ch) + 6 * row_between(p, x, y / 2, ch) + row_between(
            p,
            x,
            y / 2 + 1,
            ch,
        )
    } else {
        4 * row_between(p, x, y / 2, ch) + 4 * row_between(p, x, y / 2 + 1, ch)
    }
}

#[verifier::spinoff_prover]
proof fn lemma_phase(tap: spec_fn(int) -> Fixed, at: int, n: int, m: int)
    requires
        n > 0,
        0 <= m <= 0x40_0000_0000_0000,
        forall|i: int| 0 <= i < n ==> bounded(#[trigger] tap(i), m),
    ensures
        ({
            let (l, h, r) = (
                tap(clamped(at / 2 - 1, 0, n - 1)).raw,
                tap(clamped(at / 2, 0, n - 1)).raw,
                tap(clamped(at / 2 + 1, 0, n - 1)).raw,
            );
            let eight = if at % 2 == 0 {
                l + 6 * h + r
            } else {
                4 * h + 4 * r
            };
            &&& eight - 8 < 8 * phase(tap, at, n).raw <= eight
            &&& bounded(phase(tap, at, n), m)
        }),
{
    lemma_whole(2);
    lemma_whole(6);
    lemma_whole(8);
    let (l, h, r) = (
        tap(clamped(at / 2 - 1, 0, n - 1)),
        tap(clamped(at / 2, 0, n - 1)),
        tap(clamped(at / 2 + 1, 0, n - 1)),
    );
    assert(bounded(l, m) && bounded(h, m) && bounded(r, m));
    let six = Fixed::spec_whole(6).spec_times(h);
    assert((393216 * h.raw) / 65536 == 6 * h.raw);
    assert(six.raw == 6 * h.raw);
    lemma_sum(l, six);
    lemma_sum(l.spec_plus(six), r);
    let a = l.spec_plus(six).spec_plus(r).raw as int;
    assert((a * 65536) / 524288 == a / 8);
    lemma_sum(h, r);
    let b = h.spec_plus(r).raw as int;
    assert((b * 65536) / 131072 == b / 2);
}

#[verifier::spinoff_prover]
proof fn lemma_widened(p: Picture<Fixed>, w: int, x: int, y: int, ch: int, m: int)
    requires
        whole_picture(p),
        0 < p.w,
        all_bounded(p, m),
        0 <= m <= 0x40_0000_0000_0000,
        0 <= x < w,
        0 <= y < p.h,
        0 <= ch < p.c,
    ensures
        row_between(p, x, y, ch) - 8 < 8 * texel(widened(p, w), x, y, ch).raw <= row_between(
            p,
            x,
            y,
            ch,
        ),
        bounded(texel(widened(p, w), x, y, ch), m),
{
    let tap = |i: int| texel(p, i, y, ch);
    assert forall|i: int| 0 <= i < p.w implies bounded(#[trigger] tap(i), m) by {
        lemma_sample(i, y, ch, p.w, p.h, p.c);
    }
    lemma_phase(tap, x, p.w, m);
    lemma_given(
        w,
        p.h,
        p.c,
        |x: int, y: int, ch: int| phase(|i: int| texel(p, i, y, ch), x, p.w),
        x,
        y,
        ch,
    );
    assert(clamped(y, 0, p.h - 1) == y);
}

proof fn lemma_widened_at(p: Picture<Fixed>, w: int, x: int, j: int, ch: int, m: int)
    requires
        whole_picture(p),
        0 < p.w,
        0 < p.h,
        all_bounded(p, m),
        0 <= m <= 0x40_0000_0000_0000,
        0 <= x < w,
        0 <= ch < p.c,
    ensures
        row_between(p, x, j, ch) - 8 < 8 * texel(
            widened(p, w),
            x,
            clamped(j, 0, p.h - 1),
            ch,
        ).raw <= row_between(p, x, j, ch),
{
    let k = clamped(j, 0, p.h - 1);
    lemma_widened(p, w, x, k, ch, m);
    assert(clamped(k, 0, p.h - 1) == k);
    assert(row_between(p, x, k, ch) == row_between(p, x, j, ch));
}

/// An expanded sample stands at a half pixel of the source, along both axes, and is blended
/// from the pixels it stands on or between, rounded down by less than two steps.
#[verifier::spinoff_prover]
pub proof fn lemma_expanded_samples_stand_at_half_pixels(
    p: Picture<Fixed>,
    w: int,
    h: int,
    x: int,
    y: int,
    ch: int,
)
    requires
        whole_picture(p),
        0 < p.w,
        0 < p.h,
        all_bounded(p, 0x1_0000_0000_0000),
        0 <= x < w,
        0 <= y < h,
        0 <= ch < p.c,
    ensures
        all_between(p, x, y, ch) - 128 < 64 * steps_at(expanded(p, w, h), x, y, ch) <= all_between(
            p,
            x,
            y,
            ch,
        ),
{
    let m = 0x1_0000_0000_0000int;
    let q = widened(p, w);
    let down = |j: int| texel(q, x, j, ch);
    assert forall|j: int| 0 <= j < p.h implies bounded(#[trigger] down(j), m) by {
        lemma_widened(p, w, x, j, ch, m);
    }
    lemma_phase(down, y, p.h, m);
    lemma_given(
        w,
        h,
        p.c,
        |x: int, y: int, ch: int| phase(|j: int| texel(q, x, j, ch), y, p.h),
        x,
        y,
        ch,
    );
    let r = phase(down, y, p.h);
    assert(texel(expanded(p, w, h), x, y, ch) == r);
    assert(steps_at(expanded(p, w, h), x, y, ch) == r.raw);
    lemma_widened_at(p, w, x, y / 2 - 1, ch, m);
    lemma_widened_at(p, w, x, y / 2, ch, m);
    lemma_widened_at(p, w, x, y / 2 + 1, ch, m);
}

/// A slope keeps its heights when it is expanded: away from the border, the sample at `(x, y)`
/// has the height of the point at `(x / 2, y / 2)`, rounded down by less than two steps.
pub proof fn lemma_expanding_keeps_heights(
    p: Picture<Fixed>,
    w: int,
    h: int,
    a: int,
    b: int,
    d: int,
    x: int,
    y: int,
    ch: int,
)
    requires
        whole_picture(p),
        all_bounded(p, 0x1_0000_0000_0000),
        sloping(p, a, b, d, ch),
        0 <= x < w,
        0 <= y < h,
        1 <= x / 2 <= p.w - 2,
        1 <= y / 2 <= p.h - 2,
        0 <= ch < p.c,
    ensures
        a * x + b * y + 2 * d - 4 < 2 * steps_at(expanded(p, w, h), x, y, ch) <= a * x + b * y + 2
            * d,
{
    lemma_expanded_samples_stand_at_half_pixels(p, w, h, x, y, ch);
    let j = y / 2;
    lemma_slope_between(p, a, b, d, x, j - 1, ch);
    lemma_slope_between(p, a, b, d, x, j, ch);
    lemma_slope_between(p, a, b, d, x, j + 1, ch);
    assert(b * (j - 1) == b * j - b) by (nonlinear_arith);
    assert(b * (j + 1) == b * j + b) by (nonlinear_arith);
    let t = b * j;
    if y % 2 == 0 {
        assert(b * y == 2 * t) by (nonlinear_arith)
            requires
                y == 2 * j,
                t == b * j,
        ;
    } else {
        assert(b * y == 2 * t + b) by (nonlinear_arith)
            requires
                y == 2 * j + 1,
                t == b * j,
        ;
    }
}

proof fn lemma_slope_between(p: Picture<Fixed>, a: int, b: int, d: int, x: int, y: int, ch: int)
    requires
        sloping(p, a, b, d, ch),
        1 <= x / 2 <= p.w - 2,
        0 <= x,
        0 <= y < p.h,
    ensures
        row_between(p, x, y, ch) == 4 * (a * x) + 8 * (b * y) + 8 * d,
{
    let i = x / 2;
    assert(a * (i - 1) == a * i - a) by (nonlinear_arith);
    assert(a * (i + 1) == a * i + a) by (nonlinear_arith);
    assert(steps_at(p, i - 1, y, ch) == a * (i - 1) + b * y + d);
    assert(steps_at(p, i, y, ch) == a * i + b * y + d);
    assert(steps_at(p, i + 1, y, ch) == a * (i + 1) + b * y + d);
    let t = a * i;
    if x % 2 == 0 {
        assert(a * x == 2 * t) by (nonlinear_arith)
            requires
                x == 2 * i,
                t == a * i,
        ;
    } else {
        assert(a * x == 2 * t + a) by (nonlinear_arith)
            requires
                x == 2 * i + 1,
                t == a * i,
        ;
    }
}

} // verus!
