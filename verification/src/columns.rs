//! Frames that are the same on every row, measured across several scales.
//!
//! A band's pyramid starts at the band's own rows, so whether its neighbours' pyramids agree
//! with it shows on frames whose rows are all alike: a seam would be the only thing that
//! sets one of their rows apart.

use vstd::prelude::*;
use crate::filter::{
    bordered, box_sums, lemma_run_agrees, lemma_slid_is_the_window, lemma_slid_over_a_constant,
    row_sums, run_sum, slid,
};
use crate::focus::{
    band_of, contrast, contrasts, energy_through, kept, last_scale, lumas, luma_picture,
    multi_measured_pieces, multi_scale_halo, raised, scale_energy, scale_step, sharpness,
    MultiScaleLaplacian,
};
use crate::image::{clamped, half_up, lemma_two_to_grows, two_to, BAND_ROWS};
use crate::layout::{lemma_place, lemma_sample};
use crate::pyramid::{
    blurred, expanded, gaussian, kernel, lemma_phase_of_a_constant, lemma_side, narrowed, phase,
    shrunk, side, texel, widened,
};
use crate::reading::{band_slice, lemma_band, made_of, rows_at, rows_of};
use crate::sample::{Fixed, Sample};

verus! {

/// Is every one of `h` rows this line?
pub open spec fn rows_alike<S>(data: Seq<S>, w: int, h: int, line: Seq<S>) -> bool {
    &&& w > 0
    &&& h > 0
    &&& line.len() == w
    &&& data.len() == w * h
    &&& forall|x: int, y: int| 0 <= x < w && 0 <= y < h ==> #[trigger] data[y * w + x] == line[x]
}

/// Does every sample lie between zero and a bound?
pub open spec fn within(line: Seq<Fixed>, most: int) -> bool {
    forall|i: int| 0 <= i < line.len() ==> 0 <= (#[trigger] line[i]).raw <= most
}

proof fn lemma_line_is_alike<S>(line: Seq<S>)
    requires
        line.len() > 0,
    ensures
        rows_alike(line, line.len() as int, 1, line),
{
    let w = line.len() as int;
    assert forall|x: int, y: int| 0 <= x < w && 0 <= y < 1 implies #[trigger] line[y * w + x]
        == line[x] by {
        assert(0 * w == 0) by (nonlinear_arith);
    }
}

/// Rows that are alike give one value for each column, at the border too.
proof fn lemma_bordered_alike<S>(data: Seq<S>, w: int, h: int, line: Seq<S>, x: int, y: int)
    requires
        rows_alike(data, w, h, line),
    ensures
        bordered(data, w, h, x, y) == line[clamped(x, 0, w - 1)],
{
    let (cx, cy) = (clamped(x, 0, w - 1), clamped(y, 0, h - 1));
    assert(data[cy * w + cx] == line[cx]);
}

/// An image that is filled alike on every row.
proof fn lemma_filled_alike<S>(w: int, h: int, f: spec_fn(int, int, int) -> S, line: Seq<S>)
    requires
        w > 0,
        h > 0,
        line.len() == w,
        forall|x: int, y: int| 0 <= x < w && 0 <= y < h ==> #[trigger] f(x, y, 0) == line[x],
    ensures
        rows_alike(crate::layout::image_of(w, h, 1, f), w, h, line),
{
    let data = crate::layout::image_of(w, h, 1, f);
    assert(w * h * 1 == w * h && w * h >= 0) by (nonlinear_arith)
        requires
            w > 0,
            h > 0,
    ;
    assert forall|x: int, y: int| 0 <= x < w && 0 <= y < h implies #[trigger] data[y * w + x]
        == line[x] by {
        lemma_sample(x, y, 0, w, h, 1);
        assert(f(x, y, 0) == line[x]);
    }
}

proof fn lemma_contrasts_alike(data: Seq<Fixed>, w: int, h: int, line: Seq<Fixed>)
    requires
        rows_alike(data, w, h, line),
    ensures
        rows_alike(contrasts(data, w, h), w, h, contrasts(line, w, 1)),
{
    let one = contrasts(line, w, 1);
    lemma_line_is_alike(line);
    let f = |x: int, y: int, ch: int| contrast(data, w, h, x, y);
    let g = |x: int, y: int, ch: int| contrast(line, w, 1, x, y);
    assert(w * 1 * 1 == w) by (nonlinear_arith);
    assert forall|x: int, y: int| 0 <= x < w && 0 <= y < h implies #[trigger] f(x, y, 0) == one[x] by {
        lemma_bordered_alike(data, w, h, line, x - 1, y);
        lemma_bordered_alike(data, w, h, line, x + 1, y);
        lemma_bordered_alike(data, w, h, line, x, y - 1);
        lemma_bordered_alike(data, w, h, line, x, y + 1);
        lemma_bordered_alike(data, w, h, line, x, y);
        lemma_bordered_alike(line, w, 1, line, x - 1, 0);
        lemma_bordered_alike(line, w, 1, line, x + 1, 0);
        lemma_bordered_alike(line, w, 1, line, x, -1);
        lemma_bordered_alike(line, w, 1, line, x, 1);
        lemma_bordered_alike(line, w, 1, line, x, 0);
        lemma_sample(x, 0, 0, w, 1, 1);
        assert(0 * (w * 1) == 0) by (nonlinear_arith);
        assert(one[x] == g(x, 0, 0));
    }
    lemma_filled_alike(w, h, f, one);
}

/// Sliding sums over taps that agree are the same.
proof fn lemma_slid_agrees(f: spec_fn(int) -> Fixed, g: spec_fn(int) -> Fixed, r: int, i: nat)
    requires
        r >= 0,
        forall|k: int| #[trigger] f(k) == g(k),
    ensures
        slid(f, r, i) == slid(g, r, i),
{
    lemma_slid_is_the_window(f, r, i);
    lemma_slid_is_the_window(g, r, i);
    lemma_run_agrees(f, g, i - r, (2 * r + 1) as nat);
}

proof fn lemma_row_sums_alike(data: Seq<Fixed>, w: int, h: int, line: Seq<Fixed>, r: int)
    requires
        rows_alike(data, w, h, line),
        r >= 0,
    ensures
        rows_alike(row_sums(data, w, h, r), w, h, row_sums(line, w, 1, r)),
{
    let one = row_sums(line, w, 1, r);
    lemma_line_is_alike(line);
    let f = |x: int, y: int, ch: int| slid(|k: int| bordered(data, w, h, k, y), r, x as nat);
    assert(w * 1 * 1 == w) by (nonlinear_arith);
    assert forall|x: int, y: int| 0 <= x < w && 0 <= y < h implies #[trigger] f(x, y, 0) == one[x] by {
        let p = |k: int| bordered(data, w, h, k, y);
        let q = |k: int| bordered(line, w, 1, k, 0);
        assert forall|k: int| #[trigger] p(k) == q(k) by {
            lemma_bordered_alike(data, w, h, line, k, y);
            lemma_bordered_alike(line, w, 1, line, k, 0);
        }
        lemma_slid_agrees(p, q, r, x as nat);
        lemma_sample(x, 0, 0, w, 1, 1);
        assert(0 * (w * 1) == 0) by (nonlinear_arith);
        assert(one[x] == slid(q, r, x as nat));
    }
    lemma_filled_alike(w, h, f, one);
}

proof fn lemma_box_sums_alike(data: Seq<Fixed>, w: int, h: int, line: Seq<Fixed>, r: int)
    requires
        rows_alike(data, w, h, line),
        r >= 0,
    ensures
        rows_alike(box_sums(data, w, h, r), w, h, box_sums(line, w, 1, r)),
{
    let (rows, mid) = (row_sums(data, w, h, r), row_sums(line, w, 1, r));
    let one = box_sums(line, w, 1, r);
    lemma_row_sums_alike(data, w, h, line, r);
    lemma_line_is_alike(mid);
    let f = |x: int, y: int, ch: int| slid(|k: int| bordered(rows, w, h, x, k), r, y as nat);
    assert(w * 1 * 1 == w) by (nonlinear_arith);
    assert forall|x: int, y: int| 0 <= x < w && 0 <= y < h implies #[trigger] f(x, y, 0) == one[x] by {
        let p = |k: int| bordered(rows, w, h, x, k);
        let q = |k: int| bordered(mid, w, 1, x, k);
        assert forall|k: int| #[trigger] p(k) == mid[x] by {
            lemma_bordered_alike(rows, w, h, mid, x, k);
        }
        assert forall|k: int| #[trigger] q(k) == mid[x] by {
            lemma_bordered_alike(mid, w, 1, mid, x, k);
        }
        lemma_slid_over_a_constant(p, mid[x], r, y as nat);
        lemma_slid_over_a_constant(q, mid[x], r, 0);
        lemma_sample(x, 0, 0, w, 1, 1);
        assert(0 * (w * 1) == 0) by (nonlinear_arith);
        assert(one[x] == slid(q, r, 0));
    }
    lemma_filled_alike(w, h, f, one);
}

proof fn lemma_sharpness_alike(data: Seq<Fixed>, w: int, h: int, line: Seq<Fixed>, r: int)
    requires
        rows_alike(data, w, h, line),
        r >= 0,
    ensures
        rows_alike(sharpness(data, w, h, r), w, h, sharpness(line, w, 1, r)),
{
    lemma_contrasts_alike(data, w, h, line);
    lemma_box_sums_alike(contrasts(data, w, h), w, h, contrasts(line, w, 1), r);
}

/// Blurs over taps that agree inside the signal are the same.
proof fn lemma_blur_agrees(
    f: spec_fn(int) -> Fixed,
    g: spec_fn(int) -> Fixed,
    at: int,
    n: int,
    count: nat,
)
    requires
        n > 0,
        forall|k: int| 0 <= k < n ==> #[trigger] f(k) == g(k),
    ensures
        blurred(f, at, n, count) == blurred(g, at, n, count),
    decreases count,
{
    if count > 0 {
        lemma_blur_agrees(f, g, at, n, (count - 1) as nat);
        let k = clamped(at + count - 1 - 2, 0, n - 1);
        assert(f(k) == g(k));
    }
}

/// A blur over equals depends on nothing but them.
proof fn lemma_blur_of_equals(
    f: spec_fn(int) -> Fixed,
    at: int,
    n: int,
    g: spec_fn(int) -> Fixed,
    bt: int,
    m: int,
    v: Fixed,
    count: nat,
)
    requires
        n > 0,
        m > 0,
        forall|k: int| 0 <= k < n ==> #[trigger] f(k) == v,
        forall|k: int| 0 <= k < m ==> #[trigger] g(k) == v,
    ensures
        blurred(f, at, n, count) == blurred(g, bt, m, count),
    decreases count,
{
    if count > 0 {
        lemma_blur_of_equals(f, at, n, g, bt, m, v, (count - 1) as nat);
        assert(f(clamped(at + count - 1 - 2, 0, n - 1)) == v);
        assert(g(clamped(bt + count - 1 - 2, 0, m - 1)) == v);
    }
}

/// The samples of a single-channel picture, by place.
proof fn lemma_texel_alike<S>(data: Seq<S>, w: int, h: int, line: Seq<S>, x: int, y: int)
    requires
        rows_alike(data, w, h, line),
        0 <= x < w,
        0 <= y < h,
    ensures
        texel(luma_picture(data, w, h), x, y, 0) == line[x],
{
    assert(data[y * w + x] == line[x]);
    assert((y * w + x) * 1 + 0 == y * w + x);
}

proof fn lemma_narrowed_alike(data: Seq<Fixed>, w: int, h: int, line: Seq<Fixed>)
    requires
        rows_alike(data, w, h, line),
    ensures
        rows_alike(
            narrowed(luma_picture(data, w, h)).data,
            half_up(w),
            h,
            narrowed(luma_picture(line, w, 1)).data,
        ),
{
    let (p, q) = (luma_picture(data, w, h), luma_picture(line, w, 1));
    let one = narrowed(q).data;
    let v = half_up(w);
    lemma_line_is_alike(line);
    let f = |x: int, y: int, ch: int| blurred(|i: int| texel(p, i, y, ch), 2 * x, w, 5);
    assert(v * 1 * 1 == v) by (nonlinear_arith);
    assert forall|x: int, y: int| 0 <= x < v && 0 <= y < h implies #[trigger] f(x, y, 0) == one[x] by {
        let s = |i: int| texel(p, i, y, 0);
        let t = |i: int| texel(q, i, 0, 0);
        assert forall|k: int| 0 <= k < w implies #[trigger] s(k) == t(k) by {
            lemma_texel_alike(data, w, h, line, k, y);
            lemma_texel_alike(line, w, 1, line, k, 0);
        }
        lemma_blur_agrees(s, t, 2 * x, w, 5);
        lemma_sample(x, 0, 0, v, 1, 1);
        assert(0 * (v * 1) == 0) by (nonlinear_arith);
        assert(one[x] == blurred(t, 2 * x, w, 5));
    }
    lemma_filled_alike(v, h, f, one);
}

proof fn lemma_shrunk_alike(data: Seq<Fixed>, w: int, h: int, line: Seq<Fixed>)
    requires
        rows_alike(data, w, h, line),
    ensures
        rows_alike(
            shrunk(luma_picture(data, w, h)).data,
            half_up(w),
            half_up(h),
            shrunk(luma_picture(line, w, 1)).data,
        ),
        shrunk(luma_picture(data, w, h)) == luma_picture(
            shrunk(luma_picture(data, w, h)).data,
            half_up(w),
            half_up(h),
        ),
{
    let (p, q) = (luma_picture(data, w, h), luma_picture(line, w, 1));
    let (a, b) = (narrowed(p), narrowed(q));
    let one = shrunk(q).data;
    let (v, u) = (half_up(w), half_up(h));
    lemma_narrowed_alike(data, w, h, line);
    lemma_line_is_alike(line);
    lemma_narrowed_alike(line, w, 1, line);
    let f = |x: int, y: int, ch: int| blurred(|j: int| texel(a, x, j, ch), 2 * y, h, 5);
    assert(v * 1 * 1 == v) by (nonlinear_arith);
    assert forall|x: int, y: int| 0 <= x < v && 0 <= y < u implies #[trigger] f(x, y, 0) == one[x] by {
        let s = |j: int| texel(a, x, j, 0);
        let t = |j: int| texel(b, x, j, 0);
        assert forall|k: int| 0 <= k < h implies #[trigger] s(k) == b.data[x] by {
            lemma_texel_alike(a.data, v, h, b.data, x, k);
        }
        assert forall|k: int| 0 <= k < 1 implies #[trigger] t(k) == b.data[x] by {
            lemma_texel_alike(b.data, v, 1, b.data, x, k);
        }
        lemma_blur_of_equals(s, 2 * y, h, t, 0, 1, b.data[x], 5);
        lemma_sample(x, 0, 0, v, 1, 1);
        assert(0 * (v * 1) == 0) by (nonlinear_arith);
        assert(one[x] == blurred(t, 0, 1, 5));
    }
    lemma_filled_alike(v, u, f, one);
}

proof fn lemma_single_row(i: nat)
    ensures
        side(1, i) == 1,
    decreases i,
{
    if i > 0 {
        lemma_single_row((i - 1) as nat);
    }
}

proof fn lemma_gaussian_alike(data: Seq<Fixed>, w: int, h: int, line: Seq<Fixed>, i: nat)
    requires
        rows_alike(data, w, h, line),
    ensures
        ({
            let (p, q) = (
                gaussian(luma_picture(data, w, h), i),
                gaussian(luma_picture(line, w, 1), i),
            );
            &&& rows_alike(p.data, side(w, i), side(h, i), q.data)
            &&& p == luma_picture(p.data, side(w, i), side(h, i))
            &&& q == luma_picture(q.data, side(w, i), 1)
        }),
    decreases i,
{
    if i > 0 {
        let m = (i - 1) as nat;
        lemma_gaussian_alike(data, w, h, line, m);
        lemma_single_row(m);
        let (p, q) = (
            gaussian(luma_picture(data, w, h), m),
            gaussian(luma_picture(line, w, 1), m),
        );
        lemma_shrunk_alike(p.data, side(w, m), side(h, m), q.data);
        lemma_line_is_alike(q.data);
        lemma_shrunk_alike(q.data, side(w, m), 1, q.data);
    }
}

/// Interpolations over taps that agree inside the signal are the same.
proof fn lemma_phase_agrees(f: spec_fn(int) -> Fixed, g: spec_fn(int) -> Fixed, at: int, n: int)
    requires
        n > 0,
        forall|k: int| 0 <= k < n ==> #[trigger] f(k) == g(k),
    ensures
        phase(f, at, n) == phase(g, at, n),
{
    let i = at / 2;
    assert(f(clamped(i, 0, n - 1)) == g(clamped(i, 0, n - 1)));
    assert(f(clamped(i + 1, 0, n - 1)) == g(clamped(i + 1, 0, n - 1)));
    assert(f(clamped(i - 1, 0, n - 1)) == g(clamped(i - 1, 0, n - 1)));
}

/// Interpolating stays between zero and the bound of the samples.
#[verifier::spinoff_prover]
proof fn lemma_phase_within(f: spec_fn(int) -> Fixed, at: int, n: int, most: int)
    requires
        n > 0,
        0 <= most < 0x1000_0000_0000_0000,
        forall|k: int| 0 <= k < n ==> 0 <= (#[trigger] f(k)).raw <= most,
    ensures
        0 <= phase(f, at, n).raw <= most,
{
    let i = at / 2;
    let (a, b, c) = (
        f(clamped(i - 1, 0, n - 1)),
        f(clamped(i, 0, n - 1)),
        f(clamped(i + 1, 0, n - 1)),
    );
    assert(0 <= a.raw <= most && 0 <= b.raw <= most && 0 <= c.raw <= most);
    let six = Fixed::spec_whole(6);
    assert(six.raw == 393216);
    assert(Fixed::spec_whole(8).raw == 524288);
    assert(Fixed::spec_whole(2).raw == 131072);
    assert((393216 * b.raw) / 65536 == 6 * b.raw);
    assert(six.spec_times(b).raw == 6 * b.raw);
    let sum = a.spec_plus(six.spec_times(b)).spec_plus(c);
    assert(sum.raw == a.raw + 6 * b.raw + c.raw);
    assert(0 <= (sum.raw * 65536) / 524288 <= most);
    let two = b.spec_plus(c);
    assert(two.raw == b.raw + c.raw);
    assert(0 <= (two.raw * 65536) / 131072 <= most);
}

proof fn lemma_widened_alike(data: Seq<Fixed>, w: int, h: int, line: Seq<Fixed>, v: int)
    requires
        rows_alike(data, w, h, line),
        v > 0,
    ensures
        rows_alike(
            widened(luma_picture(data, w, h), v).data,
            v,
            h,
            widened(luma_picture(line, w, 1), v).data,
        ),
{
    let (p, q) = (luma_picture(data, w, h), luma_picture(line, w, 1));
    let one = widened(q, v).data;
    lemma_line_is_alike(line);
    let f = |x: int, y: int, ch: int| phase(|i: int| texel(p, i, y, ch), x, w);
    assert(v * 1 * 1 == v) by (nonlinear_arith);
    assert forall|x: int, y: int| 0 <= x < v && 0 <= y < h implies #[trigger] f(x, y, 0) == one[x] by {
        let s = |i: int| texel(p, i, y, 0);
        let t = |i: int| texel(q, i, 0, 0);
        assert forall|k: int| 0 <= k < w implies #[trigger] s(k) == t(k) by {
            lemma_texel_alike(data, w, h, line, k, y);
            lemma_texel_alike(line, w, 1, line, k, 0);
        }
        lemma_phase_agrees(s, t, x, w);
        lemma_sample(x, 0, 0, v, 1, 1);
        assert(0 * (v * 1) == 0) by (nonlinear_arith);
        assert(one[x] == phase(t, x, w));
    }
    lemma_filled_alike(v, h, f, one);
}

proof fn lemma_widened_within(line: Seq<Fixed>, w: int, v: int, most: int)
    requires
        w > 0,
        v > 0,
        line.len() == w,
        within(line, most),
        0 <= most < 0x1000_0000_0000_0000,
    ensures
        widened(luma_picture(line, w, 1), v).data.len() == v,
        within(widened(luma_picture(line, w, 1), v).data, most),
{
    let q = luma_picture(line, w, 1);
    let one = widened(q, v).data;
    lemma_line_is_alike(line);
    assert(v * 1 * 1 == v) by (nonlinear_arith);
    assert forall|x: int| 0 <= x < one.len() implies 0 <= (#[trigger] one[x]).raw <= most by {
        let t = |i: int| texel(q, i, 0, 0);
        assert forall|k: int| 0 <= k < w implies 0 <= (#[trigger] t(k)).raw <= most by {
            lemma_texel_alike(line, w, 1, line, k, 0);
            assert(0 <= line[k].raw <= most);
        }
        lemma_phase_within(t, x, w, most);
        lemma_sample(x, 0, 0, v, 1, 1);
        assert(0 * (v * 1) == 0) by (nonlinear_arith);
        assert(one[x] == phase(t, x, w));
    }
}

proof fn lemma_expanded_alike(
    data: Seq<Fixed>,
    w: int,
    h: int,
    line: Seq<Fixed>,
    v: int,
    u: int,
    most: int,
)
    requires
        rows_alike(data, w, h, line),
        v > 0,
        u > 0,
        within(line, most),
        0 <= most < 0x1000_0000_0000_0000,
    ensures
        rows_alike(
            expanded(luma_picture(data, w, h), v, u).data,
            v,
            u,
            expanded(luma_picture(line, w, 1), v, 1).data,
        ),
        within(expanded(luma_picture(line, w, 1), v, 1).data, most),
{
    let (p, q) = (luma_picture(data, w, h), luma_picture(line, w, 1));
    let (a, b) = (widened(p, v), widened(q, v));
    let one = expanded(q, v, 1).data;
    lemma_line_is_alike(line);
    lemma_widened_alike(data, w, h, line, v);
    lemma_widened_alike(line, w, 1, line, v);
    lemma_widened_within(line, w, v, most);
    let f = |x: int, y: int, ch: int| phase(|j: int| texel(a, x, j, ch), y, h);
    assert(v * 1 * 1 == v) by (nonlinear_arith);
    assert forall|x: int| 0 <= x < v implies #[trigger] one[x] == b.data[x] by {
        let t = |j: int| texel(b, x, j, 0);
        assert forall|k: int| 0 <= k < 1 implies #[trigger] t(k) == b.data[x] by {
            lemma_texel_alike(b.data, v, 1, b.data, x, k);
        }
        assert(0 <= b.data[x].raw <= most);
        lemma_phase_of_a_constant(t, b.data[x], 0, 1);
        lemma_sample(x, 0, 0, v, 1, 1);
        assert(0 * (v * 1) == 0) by (nonlinear_arith);
        assert(one[x] == phase(t, 0, 1));
    }
    assert forall|x: int, y: int| 0 <= x < v && 0 <= y < u implies #[trigger] f(x, y, 0) == one[x] by {
        let s = |j: int| texel(a, x, j, 0);
        assert forall|k: int| 0 <= k < h implies #[trigger] s(k) == b.data[x] by {
            lemma_texel_alike(a.data, v, h, b.data, x, k);
        }
        assert(0 <= b.data[x].raw <= most);
        lemma_phase_of_a_constant(s, b.data[x], y, h);
    }
    lemma_filled_alike(v, u, f, one);
    assert forall|x: int| 0 <= x < one.len() implies 0 <= (#[trigger] one[x]).raw <= most by {
        assert(one[x] == b.data[x]);
        assert(0 <= b.data[x].raw <= most);
    }
}

proof fn lemma_raised_alike(
    data: Seq<Fixed>,
    w: int,
    h: int,
    line: Seq<Fixed>,
    scale: nat,
    most: int,
)
    requires
        w > 0,
        h > 0,
        rows_alike(data, side(w, scale), side(h, scale), line),
        within(line, most),
        0 <= most < 0x1000_0000_0000_0000,
    ensures
        rows_alike(
            raised(luma_picture(data, side(w, scale), side(h, scale)), w, h, scale).data,
            w,
            h,
            raised(luma_picture(line, side(w, scale), 1), w, 1, scale).data,
        ),
    decreases scale,
{
    if scale > 0 {
        let below = (scale - 1) as nat;
        let (sw, sh) = (side(w, scale), side(h, scale));
        let (v, u) = (side(w, below), side(h, below));
        lemma_side(w, below);
        lemma_side(h, below);
        lemma_single_row(below);
        lemma_expanded_alike(data, sw, sh, line, v, u, most);
        let (p, q) = (
            expanded(luma_picture(data, sw, sh), v, u),
            expanded(luma_picture(line, sw, 1), v, 1),
        );
        lemma_raised_alike(p.data, w, h, q.data, below, most);
        assert(p == luma_picture(p.data, v, u));
        assert(q == luma_picture(q.data, v, 1));
    }
}

/// One more tap of a blur adds no more than its weight.
#[verifier::spinoff_prover]
proof fn lemma_blur_step(f: spec_fn(int) -> Fixed, at: int, n: int, k: nat, weight: int, most: int)
    requires
        n > 0,
        forall|k: int| 0 <= k < n ==> 0 <= (#[trigger] f(k)).raw <= 65536,
        kernel::<Fixed>(k as int).raw == weight,
        0 <= weight <= 65536,
        0 <= blurred(f, at, n, k).raw <= most <= 65536,
    ensures
        0 <= blurred(f, at, n, k + 1).raw <= most + weight,
{
    let v = f(clamped(at + k - 2, 0, n - 1));
    assert(0 <= v.raw <= 65536);
    let part = weight * v.raw;
    assert(0 <= part <= weight * 65536) by (nonlinear_arith)
        requires
            part == weight * v.raw,
            0 <= v.raw <= 65536,
            0 <= weight,
    ;
    assert(0 <= part / 65536 <= weight);
    let tap = kernel::<Fixed>(k as int).spec_times(v);
    assert(tap.raw == part / 65536);
    assert(blurred(f, at, n, k + 1) == blurred(f, at, n, k).spec_plus(tap));
}

/// The kernel's weights.
#[verifier::spinoff_prover]
proof fn lemma_kernel()
    ensures
        kernel::<Fixed>(0).raw == 4096,
        kernel::<Fixed>(1).raw == 16384,
        kernel::<Fixed>(2).raw == 24576,
        kernel::<Fixed>(3).raw == 16384,
        kernel::<Fixed>(4).raw == 4096,
{
    assert(Fixed::spec_whole(16).raw == 1048576);
    assert(Fixed::spec_whole(1).raw == 65536);
    assert(Fixed::spec_whole(4).raw == 262144);
    assert(Fixed::spec_whole(6).raw == 393216);
    assert((65536int * 65536) / 1048576 == 4096);
    assert((262144int * 65536) / 1048576 == 16384);
    assert((393216int * 65536) / 1048576 == 24576);
}

/// Blurring samples of the unit range gives samples of it.
proof fn lemma_blur_within(f: spec_fn(int) -> Fixed, at: int, n: int)
    requires
        n > 0,
        forall|k: int| 0 <= k < n ==> 0 <= (#[trigger] f(k)).raw <= 65536,
    ensures
        0 <= blurred(f, at, n, 5).raw <= 65536,
{
    lemma_kernel();
    assert(blurred(f, at, n, 0).raw == 0);
    lemma_blur_step(f, at, n, 0, 4096, 0);
    lemma_blur_step(f, at, n, 1, 16384, 4096);
    lemma_blur_step(f, at, n, 2, 24576, 20480);
    lemma_blur_step(f, at, n, 3, 16384, 45056);
    lemma_blur_step(f, at, n, 4, 4096, 61440);
}

proof fn lemma_narrowed_within(line: Seq<Fixed>, w: int)
    requires
        w > 0,
        line.len() == w,
        within(line, 65536),
    ensures
        narrowed(luma_picture(line, w, 1)).data.len() == half_up(w),
        within(narrowed(luma_picture(line, w, 1)).data, 65536),
{
    let q = luma_picture(line, w, 1);
    let one = narrowed(q).data;
    let v = half_up(w);
    lemma_line_is_alike(line);
    assert(v * 1 * 1 == v) by (nonlinear_arith);
    assert forall|x: int| 0 <= x < one.len() implies 0 <= (#[trigger] one[x]).raw <= 65536 by {
        let t = |i: int| texel(q, i, 0, 0);
        assert forall|k: int| 0 <= k < w implies 0 <= (#[trigger] t(k)).raw <= 65536 by {
            lemma_texel_alike(line, w, 1, line, k, 0);
            assert(0 <= line[k].raw <= 65536);
        }
        lemma_blur_within(t, 2 * x, w);
        lemma_sample(x, 0, 0, v, 1, 1);
        assert(0 * (v * 1) == 0) by (nonlinear_arith);
        assert(one[x] == blurred(t, 2 * x, w, 5));
    }
}

proof fn lemma_shrunk_within(line: Seq<Fixed>, w: int)
    requires
        w > 0,
        line.len() == w,
        within(line, 65536),
    ensures
        shrunk(luma_picture(line, w, 1)).data.len() == half_up(w),
        within(shrunk(luma_picture(line, w, 1)).data, 65536),
{
    let q = luma_picture(line, w, 1);
    let (b, one) = (narrowed(q), shrunk(q).data);
    let v = half_up(w);
    lemma_line_is_alike(line);
    lemma_narrowed_within(line, w);
    lemma_line_is_alike(b.data);
    assert(v * 1 * 1 == v) by (nonlinear_arith);
    assert(half_up(1) == 1);
    assert forall|x: int| 0 <= x < one.len() implies 0 <= (#[trigger] one[x]).raw <= 65536 by {
        let t = |j: int| texel(b, x, j, 0);
        assert forall|k: int| 0 <= k < 1 implies 0 <= (#[trigger] t(k)).raw <= 65536 by {
            lemma_texel_alike(b.data, v, 1, b.data, x, k);
            assert(0 <= b.data[x].raw <= 65536);
        }
        lemma_blur_within(t, 0, 1);
        lemma_sample(x, 0, 0, v, 1, 1);
        assert(0 * (v * 1) == 0) by (nonlinear_arith);
        assert(one[x] == blurred(t, 0, 1, 5));
    }
}

proof fn lemma_gaussian_within(line: Seq<Fixed>, w: int, i: nat)
    requires
        w > 0,
        line.len() == w,
        within(line, 65536),
    ensures
        within(gaussian(luma_picture(line, w, 1), i).data, 65536),
    decreases i,
{
    if i > 0 {
        let m = (i - 1) as nat;
        lemma_gaussian_within(line, w, m);
        lemma_line_is_alike(line);
        lemma_gaussian_alike(line, w, 1, line, m);
        lemma_single_row(m);
        lemma_side(w, m);
        let q = gaussian(luma_picture(line, w, 1), m);
        lemma_shrunk_within(q.data, side(w, m));
    }
}

/// The contrast of samples of the unit range is at most sixteen.
#[verifier::spinoff_prover]
proof fn lemma_contrast_within(a: Fixed, b: Fixed, v: Fixed)
    requires
        0 <= a.raw <= 65536,
        0 <= b.raw <= 65536,
        0 <= v.raw <= 65536,
    ensures
        ({
            let lap = a.spec_plus(b).spec_plus(v).spec_plus(v).spec_minus(
                Fixed::spec_whole(4).spec_times(v),
            );
            0 <= lap.spec_times(lap).raw <= 0x10_0000
        }),
{
    let sum = a.spec_plus(b).spec_plus(v).spec_plus(v);
    assert(sum.raw == a.raw + b.raw + 2 * v.raw);
    assert(Fixed::spec_whole(4).raw == 262144);
    assert((262144 * v.raw) / 65536 == 4 * v.raw);
    let lap = sum.spec_minus(Fixed::spec_whole(4).spec_times(v));
    let n = a.raw + b.raw - 2 * v.raw;
    assert(lap.raw == n);
    assert(0 <= n * n <= 0x4_0000 * 0x4_0000) by (nonlinear_arith)
        requires
            -0x4_0000 <= n <= 0x4_0000,
    ;
}

/// A run of samples between zero and a bound sums to no more than as many bounds.
proof fn lemma_run_within(f: spec_fn(int) -> Fixed, from: int, n: nat, most: int)
    requires
        0 <= most,
        n * most <= i64::MAX,
        forall|k: int| 0 <= (#[trigger] f(k)).raw <= most,
    ensures
        0 <= run_sum(f, from, n).raw <= n * most,
    decreases n,
{
    assert(Fixed::spec_whole(0).raw == 0);
    if n == 0 {
        assert(0 * most == 0) by (nonlinear_arith);
    } else {
        let m = (n - 1) as nat;
        assert(n * most == m * most + most) by (nonlinear_arith)
            requires
                n == m + 1,
        ;
        lemma_run_within(f, from, m, most);
        assert(0 <= f(from + n - 1).raw <= most);
    }
}

/// The bound of a single row's sharpness, in the unit range.
pub open spec fn sharpness_bound(r: int) -> int {
    (2 * r + 1) * ((2 * r + 1) * 0x10_0000)
}

proof fn lemma_sharpness_within(line: Seq<Fixed>, w: int, r: int)
    requires
        w > 0,
        line.len() == w,
        within(line, 65536),
        0 <= r < 0x4_0000,
    ensures
        sharpness(line, w, 1, r).len() == w,
        within(sharpness(line, w, 1, r), sharpness_bound(r)),
        sharpness_bound(r) < 0x1000_0000_0000_0000,
{
    let e = contrasts(line, w, 1);
    let m = 2 * r + 1;
    lemma_line_is_alike(line);
    assert(w * 1 * 1 == w) by (nonlinear_arith);
    assert(m * (m * 0x10_0000) < 0x1000_0000_0000_0000 && m * 0x10_0000 <= m * (m * 0x10_0000))
        by (nonlinear_arith)
        requires
            1 <= m < 0x8_0000,
    ;
    assert forall|x: int| 0 <= x < e.len() implies 0 <= (#[trigger] e[x]).raw <= 0x10_0000 by {
        lemma_bordered_alike(line, w, 1, line, x - 1, 0);
        lemma_bordered_alike(line, w, 1, line, x + 1, 0);
        lemma_bordered_alike(line, w, 1, line, x, -1);
        lemma_bordered_alike(line, w, 1, line, x, 1);
        lemma_bordered_alike(line, w, 1, line, x, 0);
        let (a, b) = (line[clamped(x - 1, 0, w - 1)], line[clamped(x + 1, 0, w - 1)]);
        lemma_contrast_within(a, b, line[x]);
        lemma_sample(x, 0, 0, w, 1, 1);
        assert(0 * (w * 1) == 0) by (nonlinear_arith);
        assert(e[x] == contrast(line, w, 1, x, 0));
    }
    lemma_contrasts_alike(line, w, 1, line);
    let rows = row_sums(e, w, 1, r);
    assert forall|x: int| 0 <= x < rows.len() implies 0 <= (#[trigger] rows[x]).raw <= m
        * 0x10_0000 by {
        let q = |k: int| bordered(e, w, 1, k, 0);
        assert forall|k: int| 0 <= (#[trigger] q(k)).raw <= 0x10_0000 by {
            lemma_bordered_alike(e, w, 1, e, k, 0);
            assert(0 <= e[clamped(k, 0, w - 1)].raw <= 0x10_0000);
        }
        lemma_slid_is_the_window(q, r, x as nat);
        lemma_run_within(q, x - r, m as nat, 0x10_0000);
        lemma_sample(x, 0, 0, w, 1, 1);
        assert(0 * (w * 1) == 0) by (nonlinear_arith);
        assert(rows[x] == slid(q, r, x as nat));
    }
    lemma_row_sums_alike(e, w, 1, e, r);
    let out = sharpness(line, w, 1, r);
    assert forall|x: int| 0 <= x < out.len() implies 0 <= (#[trigger] out[x]).raw
        <= sharpness_bound(r) by {
        let q = |k: int| bordered(rows, w, 1, x, k);
        assert forall|k: int| 0 <= (#[trigger] q(k)).raw <= m * 0x10_0000 by {
            lemma_bordered_alike(rows, w, 1, rows, x, k);
            assert(0 <= rows[x].raw <= m * 0x10_0000);
        }
        lemma_slid_is_the_window(q, r, 0);
        lemma_run_within(q, -r, m as nat, m * 0x10_0000);
        lemma_sample(x, 0, 0, w, 1, 1);
        assert(0 * (w * 1) == 0) by (nonlinear_arith);
        assert(out[x] == slid(q, r, 0));
    }
}

proof fn lemma_scale_energy_alike(
    data: Seq<Fixed>,
    w: int,
    h: int,
    line: Seq<Fixed>,
    r: int,
    scale: nat,
)
    requires
        rows_alike(data, w, h, line),
        within(line, 65536),
        0 <= r < 0x4_0000,
    ensures
        rows_alike(
            scale_energy(data, w, h, r, scale),
            w,
            h,
            scale_energy(line, w, 1, r, scale),
        ),
{
    lemma_gaussian_alike(data, w, h, line, scale);
    lemma_gaussian_within(line, w, scale);
    lemma_single_row(scale);
    lemma_side(w, scale);
    lemma_side(h, scale);
    let (sw, sh) = (side(w, scale), side(h, scale));
    let (p, q) = (
        gaussian(luma_picture(data, w, h), scale),
        gaussian(luma_picture(line, w, 1), scale),
    );
    lemma_sharpness_alike(p.data, sw, sh, q.data, r);
    lemma_sharpness_within(q.data, sw, r);
    lemma_raised_alike(
        sharpness(p.data, sw, sh, r),
        w,
        h,
        sharpness(q.data, sw, 1, r),
        scale,
        sharpness_bound(r),
    );
}

/// The energy through some scales of a frame whose rows are alike is that of one of its
/// rows, on every row.
proof fn lemma_energy_alike(
    data: Seq<Fixed>,
    w: int,
    h: int,
    line: Seq<Fixed>,
    r: int,
    decay: Fixed,
    last: nat,
)
    requires
        rows_alike(data, w, h, line),
        within(line, 65536),
        0 <= r < 0x4_0000,
    ensures
        rows_alike(
            energy_through(data, w, h, r, decay, last),
            w,
            h,
            energy_through(line, w, 1, r, decay, last),
        ),
    decreases last,
{
    if last == 0 {
        lemma_sharpness_alike(data, w, h, line, r);
    } else {
        lemma_energy_alike(data, w, h, line, r, decay, (last - 1) as nat);
        lemma_scale_energy_alike(data, w, h, line, r, last);
        let (all, one) = (
            energy_through(data, w, h, r, decay, last),
            energy_through(line, w, 1, r, decay, last),
        );
        let finer = energy_through(data, w, h, r, decay, (last - 1) as nat);
        let added = scale_energy(data, w, h, r, last);
        assert forall|x: int, y: int| 0 <= x < w && 0 <= y < h implies #[trigger] all[y * w + x]
            == one[x] by {
            lemma_place(x, y, w, h);
            assert(finer[y * w + x] == energy_through(
                line,
                w,
                1,
                r,
                decay,
                (last - 1) as nat,
            )[x]);
            assert(added[y * w + x] == scale_energy(line, w, 1, r, last)[x]);
        }
    }
}

/// The luminance of rows that are alike is alike.
proof fn lemma_lumas_alike(frame: Seq<Fixed>, line: Seq<Fixed>, w: int, h: int, from: int, n: int)
    requires
        w > 0,
        0 <= from,
        0 < n,
        from + n <= h,
        rows_alike(frame, w * 3, h, line),
    ensures
        rows_alike(lumas(rows_of(frame, w * 3, from, n)), w, n, lumas(line)),
{
    let band = rows_of(frame, w * 3, from, n);
    let all = lumas(band);
    assert(0 <= from * (w * 3) && (from + n) * (w * 3) <= (w * 3) * h && (from + n) * (w * 3) - from
        * (w * 3) == 3 * (w * n)) by (nonlinear_arith)
        requires
            w > 0,
            0 <= from,
            0 < n,
            from + n <= h,
    ;
    assert(0 <= w * n) by (nonlinear_arith)
        requires
            w > 0,
            n > 0,
    ;
    assert(band.len() == 3 * (w * n));
    assert forall|x: int, y: int| 0 <= x < w && 0 <= y < n implies #[trigger] all[y * w + x]
        == lumas(line)[x] by {
        lemma_place(x, y, w, n);
        let i = y * w + x;
        assert((from + y) * (w * 3) == from * (w * 3) + 3 * (y * w)) by (nonlinear_arith);
        assert(frame[(from + y) * (w * 3) + 3 * x] == line[3 * x]);
        assert(frame[(from + y) * (w * 3) + (3 * x + 1)] == line[3 * x + 1]);
        assert(frame[(from + y) * (w * 3) + (3 * x + 2)] == line[3 * x + 2]);
        assert(band[3 * i] == line[3 * x]);
        assert(band[3 * i + 1] == line[3 * x + 1]);
        assert(band[3 * i + 2] == line[3 * x + 2]);
    }
}

/// The rows that the band at `y0` reads.
pub open spec fn rows_read(h: int, m: MultiScaleLaplacian<Fixed>, y0: int) -> int {
    let b = band_of(
        h,
        y0,
        multi_scale_halo(m.radius as int, m.scales as int),
        scale_step(m.scales as int),
    );
    b.to - b.from
}

/// Every row that a band of such a frame measures is what a single row of it measures.
proof fn lemma_piece_alike(
    frame: Seq<Fixed>,
    line: Seq<Fixed>,
    w: int,
    h: int,
    m: MultiScaleLaplacian<Fixed>,
    y0: int,
    last: nat,
    x: int,
    y: int,
)
    requires
        w > 0,
        0 <= y0 < h <= u32::MAX,
        m.scales >= 1,
        m.radius < 0x4_0000,
        rows_alike(frame, w * 3, h, line),
        within(lumas(line), 65536),
        last_scale(w, rows_read(h, m, y0), 0, m.scales as nat) == last,
        0 <= x < w,
        0 <= y < rows_at(h, y0),
    ensures
        multi_measured_pieces(w, h, m)(frame, y0).len() == rows_at(h, y0) * w,
        multi_measured_pieces(w, h, m)(frame, y0)[y * w + x] == energy_through(
            lumas(line),
            w,
            1,
            m.radius as int,
            m.decay,
            last,
        )[x],
{
    let (halo, step) = (
        multi_scale_halo(m.radius as int, m.scales as int),
        scale_step(m.scales as int),
    );
    lemma_two_to_grows(0, (m.scales - 1) as nat);
    assert(step >= 1);
    assert(halo >= 0) by (nonlinear_arith)
        requires
            halo == (m.radius + 1) * step + 2 * (step - 1),
            step >= 1,
    ;
    let b = band_of(h, y0, halo, step);
    let start = crate::image::larger(y0 - halo, 0);
    vstd::arithmetic::div_mod::lemma_fundamental_div_mod(start, step);
    assert(0 <= (start / step) * step <= start) by (nonlinear_arith)
        requires
            start == step * (start / step) + start % step,
            0 <= start % step,
            0 <= start / step,
            step >= 1,
    ;
    let (from, n) = (b.from as int, b.to - b.from);
    assert(0 <= from <= y0 && from + n <= h && y0 + rows_at(h, y0) <= from + n);
    lemma_lumas_alike(frame, line, w, h, from, n);
    let luma = lumas(rows_of(frame, w * 3, from, n));
    let r = m.radius as int;
    lemma_energy_alike(luma, w, n, lumas(line), r, m.decay, last);
    let all = energy_through(luma, w, n, r, m.decay, last);
    let rows = rows_at(h, y0);
    let (lo, hi) = ((y0 - from) * w, (y0 - from + rows) * w);
    assert(0 <= lo <= hi <= w * n && hi - lo == rows * w) by (nonlinear_arith)
        requires
            lo == (y0 - from) * w,
            hi == (y0 - from + rows) * w,
            0 <= y0 - from,
            0 < rows,
            y0 - from + rows <= n,
            w > 0,
    ;
    let piece = multi_measured_pieces(w, h, m)(frame, y0);
    assert(piece == kept(all, w, b));
    assert(piece == all.subrange(lo, hi));
    lemma_place(x, y, w, rows);
    assert((y0 - from + y) * w == lo + y * w) by (nonlinear_arith)
        requires
            lo == (y0 - from) * w,
    ;
    assert(w * rows == rows * w) by (nonlinear_arith);
    assert(piece[y * w + x] == all[(y0 - from + y) * w + x]);
}

/// A side that was halved is no less than its share.
proof fn lemma_side_keeps_its_share(n: int, i: nat)
    requires
        n >= 1,
    ensures
        side(n, i) * two_to(i) >= n,
        two_to(i) >= 1,
    decreases i,
{
    if i == 0 {
        assert(n * 1 == n);
    } else {
        let m = (i - 1) as nat;
        lemma_side_keeps_its_share(n, m);
        let (a, b, t) = (side(n, m), side(n, i), two_to(m) as int);
        assert(two_to(i) == 2 * t);
        assert(2 * b >= a);
        assert(b * (2 * t) >= a * t) by (nonlinear_arith)
            requires
                2 * b >= a,
                t >= 1,
        ;
    }
}

/// Bands with a whole halo are measured through as many scales as their width has.
proof fn lemma_enough_rows(w: int, n: int, o: int, at: nat, scales: nat)
    requires
        at < scales,
        n >= 3 * two_to((scales - 1) as nat) - 1,
        o >= 3 * two_to((scales - 1) as nat) - 1,
    ensures
        last_scale(w, n, at, scales) == last_scale(w, o, at, scales),
    decreases scales - at,
{
    lemma_two_to_grows(0, (scales - 1) as nat);
    if at + 1 < scales {
        let t = two_to(at) as int;
        lemma_side_keeps_its_share(n, at);
        lemma_side_keeps_its_share(o, at);
        lemma_two_to_grows(at + 1, (scales - 1) as nat);
        assert(two_to(at + 1) == 2 * t);
        let (p, q) = (side(n, at), side(o, at));
        assert(p > 4 && q > 4) by (nonlinear_arith)
            requires
                p * t >= 6 * t - 1,
                q * t >= 6 * t - 1,
                t >= 1,
        ;
        lemma_enough_rows(w, n, o, at + 1, scales);
    }
}

/// Every band of a frame that is taller than the halo reads more rows than it.
proof fn lemma_whole_halo(h: int, m: MultiScaleLaplacian<Fixed>, y0: int)
    requires
        m.scales >= 1,
        0 <= y0 < h <= u32::MAX,
        h > multi_scale_halo(m.radius as int, m.scales as int),
    ensures
        rows_read(h, m, y0) > multi_scale_halo(m.radius as int, m.scales as int),
        multi_scale_halo(m.radius as int, m.scales as int) >= 3 * two_to((m.scales - 1) as nat) - 2,
{
    let (halo, step) = (
        multi_scale_halo(m.radius as int, m.scales as int),
        scale_step(m.scales as int),
    );
    lemma_two_to_grows(0, (m.scales - 1) as nat);
    assert(halo >= 3 * step - 2) by (nonlinear_arith)
        requires
            halo == (m.radius + 1) * step + 2 * (step - 1),
            step >= 1,
    ;
    let start = crate::image::larger(y0 - halo, 0);
    vstd::arithmetic::div_mod::lemma_fundamental_div_mod(start, step);
    assert(0 <= (start / step) * step <= start) by (nonlinear_arith)
        requires
            start == step * (start / step) + start % step,
            0 <= start % step,
            0 <= start / step,
            step >= 1,
    ;
}

/// Bands leave no seam across several scales: a frame whose rows are all alike, of the unit
/// range, measures the same on every row of every band, where all of its bands are measured
/// through the same scales.
pub proof fn lemma_bands_of_columns_leave_no_seam(
    data: Seq<Fixed>,
    frame: Seq<Fixed>,
    line: Seq<Fixed>,
    w: int,
    h: int,
    m: MultiScaleLaplacian<Fixed>,
    last: nat,
    x: int,
    y: int,
)
    requires
        w > 0,
        0 < h <= u32::MAX,
        m.scales >= 1,
        m.radius < 0x4_0000,
        rows_alike(frame, w * 3, h, line),
        within(lumas(line), 65536),
        made_of(data, h, w, multi_measured_pieces(w, h, m), frame),
        forall|k: int|
            0 <= k && #[trigger] (k * BAND_ROWS) < h ==> last_scale(
                w,
                rows_read(h, m, k * BAND_ROWS),
                0,
                m.scales as nat,
            ) == last,
        0 <= x < w,
        0 <= y < h,
    ensures
        data[y * w + x] == energy_through(
            lumas(line),
            w,
            1,
            m.radius as int,
            m.decay,
            last,
        )[x],
{
    let k = y / 256;
    let y0 = k * BAND_ROWS;
    assert(0 <= y0 <= y < y0 + 256);
    lemma_band(h, w, k);
    let rows = rows_at(h, y0);
    let piece = multi_measured_pieces(w, h, m)(frame, y0);
    assert(band_slice(data, h, w, k) == piece);
    lemma_piece_alike(frame, line, w, h, m, y0, last, x, y - y0);
    lemma_place(x, y - y0, w, rows);
    assert(y0 * w + (y - y0) * w == y * w) by (nonlinear_arith);
    assert((y0 + rows) * w == y0 * w + w * rows) by (nonlinear_arith);
    assert(data[y * w + x] == band_slice(data, h, w, k)[(y - y0) * w + x]);
}

/// Where the frame is taller than a band's halo, its bands are all measured through the same
/// scales, so that it has no seam whatever its size.
pub proof fn lemma_tall_frames_of_columns_leave_no_seam(
    data: Seq<Fixed>,
    frame: Seq<Fixed>,
    line: Seq<Fixed>,
    w: int,
    h: int,
    m: MultiScaleLaplacian<Fixed>,
    x: int,
    y: int,
    z: int,
)
    requires
        w > 0,
        m.scales >= 1,
        m.radius < 0x4_0000,
        multi_scale_halo(m.radius as int, m.scales as int) < h <= u32::MAX,
        rows_alike(frame, w * 3, h, line),
        within(lumas(line), 65536),
        made_of(data, h, w, multi_measured_pieces(w, h, m), frame),
        0 <= x < w,
        0 <= y < h,
        0 <= z < h,
    ensures
        data[y * w + x] == data[z * w + x],
{
    let last = last_scale(w, h, 0, m.scales as nat);
    lemma_whole_halo(h, m, 0);
    assert forall|k: int| 0 <= k && #[trigger] (k * BAND_ROWS) < h implies last_scale(
        w,
        rows_read(h, m, k * BAND_ROWS),
        0,
        m.scales as nat,
    ) == last by {
        lemma_whole_halo(h, m, k * BAND_ROWS);
        lemma_enough_rows(w, rows_read(h, m, k * BAND_ROWS), h, 0, m.scales as nat);
    }
    lemma_bands_of_columns_leave_no_seam(data, frame, line, w, h, m, last, x, y);
    lemma_bands_of_columns_leave_no_seam(data, frame, line, w, h, m, last, x, z);
}

} // verus!
