//! Wavelet-domain focus stacking: the lifted 5/3 transform.

use vstd::prelude::*;
use vstd::slice::slice_subrange;
use vstd::arithmetic::div_mod::{lemma_fundamental_div_mod, lemma_fundamental_div_mod_converse};
use crate::image::{clamped, half_up, halved};
use crate::layout::{in_parallel, lemma_place};
use crate::plane::{
    cell, lemma_cell, lemma_same_sheet, lemma_sheet_size, plane_of, sheet, whole_sheet, Plane,
    Sheet,
};
use crate::sample::{rem, Exact, Fixed, Sample};

verus! {

/// The index that a signal of `n` samples is read at for position `i`: inside the signal
/// itself, and outside it mirrored about its first and last samples.
pub open spec fn mirrored(i: int, n: int) -> int {
    if n == 1 {
        0
    } else {
        let j = i % (2 * (n - 1));
        if j > n - 1 {
            2 * (n - 1) - j
        } else {
            j
        }
    }
}

/// Mirror `i` back into `0..n` by whole-point symmetric extension.
///
/// Repeating the edge sample instead would inject a step that the transform reads as an
/// edge, and put a rim of detail around every frame.
pub fn mirror(i: i64, n: i64) -> (r: usize)
    requires
        0 < n <= usize::MAX,
    ensures
        r == mirrored(i as int, n as int),
        r < n,
{
    if n == 1 {
        return 0;
    }
    let period: i128 = 2 * (n as i128 - 1);
    let j: i128 = rem(i as i128, period);
    if j > n as i128 - 1 {
        (period - j) as usize
    } else {
        j as usize
    }
}

/// Negating an index turns its remainder around.
proof fn lemma_negated_remainder(i: int, p: int)
    requires
        p > 0,
    ensures
        (-i) % p == (if i % p == 0 {
            0
        } else {
            p - i % p
        }),
{
    let (q, r) = (i / p, i % p);
    lemma_fundamental_div_mod(i, p);
    assert((-q) * p == -(p * q) && (-q - 1) * p == -(p * q) - p) by (nonlinear_arith);
    if r == 0 {
        lemma_fundamental_div_mod_converse(-i, p, -q, 0);
    } else {
        lemma_fundamental_div_mod_converse(-i, p, -q - 1, p - r);
    }
}

/// The mirror keeps what is inside, and reflects whole-point symmetrically about both ends,
/// for every index: about the first sample, about the last, and over and over beyond them.
pub proof fn lemma_mirror_is_whole_point_symmetric(i: int, n: int)
    requires
        n > 0,
    ensures
        0 <= mirrored(i, n) < n,
        0 <= i < n ==> mirrored(i, n) == i,
        mirrored(-i, n) == mirrored(i, n),
        mirrored(n - 1 + i, n) == mirrored(n - 1 - i, n),
        mirrored(i + 2 * (n - 1), n) == mirrored(i, n),
{
    if n > 1 {
        let p = 2 * (n - 1);
        lemma_fundamental_div_mod(i, p);
        if 0 <= i < n {
            lemma_fundamental_div_mod_converse(i, p, 0, i);
        }
        lemma_negated_remainder(i, p);
        lemma_negated_remainder(n - 1 + i, p);
        vstd::arithmetic::div_mod::lemma_mod_multiples_vanish(1, i, p);
        vstd::arithmetic::div_mod::lemma_mod_multiples_vanish(1, -(n - 1 + i), p);
        assert(p * 1 + -(n - 1 + i) == n - 1 - i);
    }
}

/// One half.
pub open spec fn half<S: Sample>() -> S {
    S::spec_whole(1).spec_over(S::spec_whole(2))
}

/// One quarter.
pub open spec fn quarter<S: Sample>() -> S {
    S::spec_whole(1).spec_over(S::spec_whole(4))
}

/// What a sample is predicted to be: the average of its two neighbours.
pub open spec fn prediction<S: Sample>(x: Seq<S>, i: int) -> S {
    let n = x.len() as int;
    half::<S>().spec_times(
        x[mirrored(2 * i, n)].spec_plus(x[mirrored(2 * i + 2, n)]),
    )
}

/// The high-pass coefficients: each odd sample against its prediction.
pub open spec fn details_of<S: Sample>(x: Seq<S>) -> Seq<S> {
    Seq::new((x.len() / 2) as nat, |i: int| x[2 * i + 1].spec_minus(prediction(x, i)))
}

/// What an even sample is lifted by: a quarter of the detail on either side.
pub open spec fn lift<S: Sample>(detail: Seq<S>, i: int) -> S {
    quarter::<S>().spec_times(
        detail[clamped(i - 1, 0, detail.len() - 1)].spec_plus(
            detail[clamped(i, 0, detail.len() - 1)],
        ),
    )
}

/// One level of the transform of a signal: its low-pass half, then its high-pass half.
pub open spec fn analyzed<S: Sample>(x: Seq<S>) -> Seq<S> {
    if x.len() < 2 {
        x
    } else {
        let detail = details_of(x);
        Seq::new(
            half_up(x.len() as int) as nat,
            |i: int| x[2 * i].spec_plus(lift(detail, i)),
        ) + detail
    }
}

/// The even samples of a signal, from its coefficients.
pub open spec fn evens_of<S: Sample>(c: Seq<S>) -> Seq<S> {
    let na = half_up(c.len() as int);
    let detail = c.skip(na);
    Seq::new(na as nat, |i: int| c[i].spec_minus(lift(detail, i)))
}

/// The signal that coefficients came from: the update step undone, and then the predict
/// step.
pub open spec fn synthesized<S: Sample>(c: Seq<S>) -> Seq<S> {
    if c.len() < 2 {
        c
    } else {
        let n = c.len() as int;
        let evens = evens_of(c);
        Seq::new(
            c.len(),
            |p: int|
                if p % 2 == 0 {
                    evens[p / 2]
                } else {
                    c[half_up(n) + p / 2].spec_plus(
                        half::<S>().spec_times(
                            evens[mirrored(p - 1, n) / 2].spec_plus(evens[mirrored(p + 1, n) / 2]),
                        ),
                    )
                },
        )
    }
}

/// The neighbours of an odd position are even positions.
pub(crate) proof fn lemma_odd_neighbours(p: int, n: int)
    requires
        n >= 2,
        0 <= p < n,
        p % 2 == 1,
    ensures
        mirrored(p - 1, n) == p - 1,
        mirrored(p + 1, n) == (if p + 1 < n {
            p + 1
        } else {
            p - 1
        }),
{
    lemma_mirror_is_whole_point_symmetric(p - 1, n);
    if p + 1 < n {
        lemma_mirror_is_whole_point_symmetric(p + 1, n);
    } else {
        lemma_mirror_is_whole_point_symmetric(1, n);
    }
}

/// The high-pass half of a transformed signal.
pub(crate) proof fn lemma_halves<S: Sample>(x: Seq<S>)
    requires
        x.len() >= 2,
    ensures
        analyzed(x).len() == x.len(),
        analyzed(x).skip(half_up(x.len() as int)) == details_of(x),
{
    assert(analyzed(x).skip(half_up(x.len() as int)) =~= details_of(x));
}

/// Undoing the update gives the even samples back.
proof fn lemma_even_comes_back<S: Exact>(x: Seq<S>, i: int)
    requires
        x.len() >= 2,
        0 <= i < half_up(x.len() as int),
    ensures
        evens_of(analyzed(x))[i] == x[2 * i],
{
    lemma_halves(x);
    let up = lift(details_of(x), i);
    assert(analyzed(x)[i] == x[2 * i].spec_plus(up));
    S::lemma_plus_minus(x[2 * i], up);
}

/// Undoing the prediction gives the odd samples back.
proof fn lemma_odd_comes_back<S: Exact>(x: Seq<S>, p: int)
    requires
        x.len() >= 2,
        0 <= p < x.len(),
        p % 2 == 1,
    ensures
        synthesized(analyzed(x))[p] == x[p],
{
    let n = x.len() as int;
    let c = analyzed(x);
    let (i, na) = (p / 2, half_up(n));
    let left = p - 1;
    let right = if p + 1 < n {
        p + 1
    } else {
        p - 1
    };
    let guess = half::<S>().spec_times(x[left].spec_plus(x[right]));
    assert(c.len() == n && c[na + i] == details_of(x)[i]) by {
        lemma_halves(x);
        assert(c.skip(na)[i] == c[na + i]);
    }
    assert(mirrored(p - 1, n) == left && mirrored(p + 1, n) == right) by {
        lemma_odd_neighbours(p, n);
    }
    assert(evens_of(c)[left / 2] == x[left]) by {
        lemma_even_comes_back(x, left / 2);
        assert(2 * (left / 2) == left);
    }
    assert(evens_of(c)[right / 2] == x[right]) by {
        lemma_even_comes_back(x, right / 2);
        assert(2 * (right / 2) == right);
    }
    assert(2 * i + 1 == p);
    assert(prediction(x, i) == guess);
    assert(details_of(x)[i] == x[p].spec_minus(guess));
    S::lemma_minus_plus(x[p], guess);
}

/// For exact samples, synthesis undoes analysis.
pub proof fn lemma_synthesis_undoes_analysis<S: Exact>(x: Seq<S>)
    ensures
        synthesized(analyzed(x)) == x,
{
    if x.len() >= 2 {
        lemma_halves(x);
        assert forall|p: int| 0 <= p < x.len() implies #[trigger] synthesized(analyzed(x))[p]
            == x[p] by {
            if p % 2 == 0 {
                lemma_even_comes_back(x, p / 2);
            } else {
                lemma_odd_comes_back(x, p);
            }
        }
        assert(synthesized(analyzed(x)) =~= x);
    }
}

fn lift_of<S: Sample>(detail: &[S], from: usize, i: usize) -> (r: S)
    requires
        from < detail@.len(),
    ensures
        r == lift(detail@.skip(from as int), i as int),
{
    let last = detail.len() - 1 - from;
    let left = if i == 0 {
        0
    } else if i - 1 <= last {
        i - 1
    } else {
        last
    };
    let right = if i <= last {
        i
    } else {
        last
    };
    S::whole(1).over(S::whole(4)).times(detail[from + left].plus(detail[from + right]))
}

/// One level of the forward transform along a single signal: `[approx | detail]`.
pub fn analyze_1d<S: Sample>(x: &[S]) -> (out: Vec<S>)
    requires
        x@.len() <= 0xffff_ffff,
    ensures
        out@ == analyzed(x@),
{
    let n = x.len();
    let mut out: Vec<S> = Vec::with_capacity(n);
    if n < 2 {
        if n == 1 {
            out.push(x[0]);
        }
        assert(out@ =~= x@);
        return out;
    }
    let na: usize = n / 2 + n % 2;
    let nd: usize = n / 2;
    // Predict: each odd sample against the average of its two even neighbours.
    let mut detail: Vec<S> = Vec::with_capacity(nd);
    let mut i: usize = 0;
    while i < nd
        invariant
            i <= nd,
            nd == n / 2,
            n == x@.len(),
            2 <= n <= 0xffff_ffff,
            detail@.len() == i,
            forall|k: int| 0 <= k < i ==> #[trigger] detail@[k] == details_of(x@)[k],
        decreases nd - i,
    {
        let c: i64 = 2 * i as i64 + 1;
        let left = x[mirror(c - 1, n as i64)];
        let right = x[mirror(c + 1, n as i64)];
        let predicted = S::whole(1).over(S::whole(2)).times(left.plus(right));
        detail.push(x[2 * i + 1].minus(predicted));
        i += 1;
    }
    assert(detail@ =~= details_of(x@));
    // Update: lift the even samples by the detail either side.
    let mut i: usize = 0;
    while i < na
        invariant
            i <= na,
            na == half_up(n as int),
            nd == n / 2,
            n == x@.len(),
            2 <= n <= 0xffff_ffff,
            detail@ == details_of(x@),
            out@.len() == i,
            forall|k: int|
                0 <= k < i ==> #[trigger] out@[k] == x@[2 * k].spec_plus(lift(detail@, k)),
        decreases na - i,
    {
        assert(detail@.skip(0) =~= detail@);
        let up = lift_of(detail.as_slice(), 0, i);
        out.push(x[2 * i].plus(up));
        i += 1;
    }
    let ghost low = out@;
    out.append(&mut detail);
    assert(out@ =~= analyzed(x@));
    out
}

/// Invert [`analyze_1d`].
pub fn synthesize_1d<S: Sample>(coeffs: &[S]) -> (out: Vec<S>)
    requires
        coeffs@.len() <= 0xffff_ffff,
    ensures
        out@ == synthesized(coeffs@),
{
    let n = coeffs.len();
    let mut out: Vec<S> = Vec::with_capacity(n);
    if n < 2 {
        if n == 1 {
            out.push(coeffs[0]);
        }
        assert(out@ =~= coeffs@);
        return out;
    }
    let na: usize = n / 2 + n % 2;
    // Even samples first: they are what the predict step referred to.
    let mut evens: Vec<S> = Vec::with_capacity(na);
    let mut i: usize = 0;
    while i < na
        invariant
            i <= na,
            na == half_up(n as int),
            n == coeffs@.len(),
            2 <= n <= 0xffff_ffff,
            evens@.len() == i,
            forall|k: int| 0 <= k < i ==> #[trigger] evens@[k] == evens_of(coeffs@)[k],
        decreases na - i,
    {
        let down = lift_of(coeffs, na, i);
        evens.push(coeffs[i].minus(down));
        i += 1;
    }
    assert(evens@ =~= evens_of(coeffs@));
    let mut p: usize = 0;
    while p < n
        invariant
            p <= n,
            na == half_up(n as int),
            n == coeffs@.len(),
            2 <= n <= 0xffff_ffff,
            evens@ == evens_of(coeffs@),
            out@.len() == p,
            forall|k: int| 0 <= k < p ==> #[trigger] out@[k] == synthesized(coeffs@)[k],
        decreases n - p,
    {
        if p % 2 == 0 {
            out.push(evens[p / 2]);
        } else {
            proof {
                lemma_odd_neighbours(p as int, n as int);
            }
            let left = evens[mirror(p as i64 - 1, n as i64) / 2];
            let right = evens[mirror(p as i64 + 1, n as i64) / 2];
            let predicted = S::whole(1).over(S::whole(2)).times(left.plus(right));
            out.push(coeffs[na + p / 2].plus(predicted));
        }
        p += 1;
    }
    assert(out@ =~= synthesized(coeffs@));
    out
}

/// Which way a signal is taken.
#[derive(Clone, Copy, Debug, PartialEq, Eq, Structural)]
pub enum Pass {
    Analysis,
    Synthesis,
}

/// A signal taken one way.
pub open spec fn taken<S: Sample>(pass: Pass, x: Seq<S>) -> Seq<S> {
    match pass {
        Pass::Analysis => analyzed(x),
        Pass::Synthesis => synthesized(x),
    }
}

fn take<S: Sample>(pass: Pass, x: &[S]) -> (out: Vec<S>)
    requires
        x@.len() <= 0xffff_ffff,
    ensures
        out@ == taken(pass, x@),
        out@.len() == x@.len(),
{
    match pass {
        Pass::Analysis => analyze_1d(x),
        Pass::Synthesis => synthesize_1d(x),
    }
}

/// One row of a sheet.
pub open spec fn row_of<S>(s: Sheet<S>, y: int) -> Seq<S> {
    s.data.subrange(y * s.w, y * s.w + s.w)
}

/// A sheet with every row taken one way.
pub open spec fn rows_taken<S: Sample>(pass: Pass, s: Sheet<S>) -> Sheet<S> {
    sheet(s.w, s.h, |x: int, y: int| taken(pass, row_of(s, y))[x])
}

/// A sheet with its rows and columns exchanged.
pub open spec fn flipped<S>(s: Sheet<S>) -> Sheet<S> {
    sheet(s.h, s.w, |x: int, y: int| cell(s, y, x))
}

/// A sheet with every column taken one way.
pub open spec fn columns_taken<S: Sample>(pass: Pass, s: Sheet<S>) -> Sheet<S> {
    flipped(rows_taken(pass, flipped(s)))
}

/// A rectangle of a sheet.
pub open spec fn part<S>(s: Sheet<S>, x0: int, y0: int, w: int, h: int) -> Sheet<S> {
    sheet(w, h, |x: int, y: int| cell(s, x0 + x, y0 + y))
}

/// The three detail orientations at one level.
pub struct Bands<S> {
    pub hl: Sheet<S>,
    pub lh: Sheet<S>,
    pub hh: Sheet<S>,
}

/// Rows and then columns analyzed, before the split into quadrants.
pub open spec fn transformed<S: Sample>(s: Sheet<S>) -> Sheet<S> {
    columns_taken(Pass::Analysis, rows_taken(Pass::Analysis, s))
}

/// The low-pass quadrant of one step.
pub open spec fn step_approx<S: Sample>(s: Sheet<S>) -> Sheet<S> {
    part(transformed(s), 0, 0, half_up(s.w), half_up(s.h))
}

/// The three high-pass quadrants of one step.
pub open spec fn step_bands<S: Sample>(s: Sheet<S>) -> Bands<S> {
    let t = transformed(s);
    let (aw, ah) = (half_up(s.w), half_up(s.h));
    Bands {
        hl: part(t, aw, 0, s.w - aw, ah),
        lh: part(t, 0, ah, aw, s.h - ah),
        hh: part(t, aw, ah, s.w - aw, s.h - ah),
    }
}

/// Four quadrants put together.
pub open spec fn joined<S>(a: Sheet<S>, b: Bands<S>) -> Sheet<S> {
    sheet(
        a.w + b.hl.w,
        a.h + b.lh.h,
        |x: int, y: int|
            if x < a.w {
                if y < a.h {
                    cell(a, x, y)
                } else {
                    cell(b.lh, x, y - a.h)
                }
            } else {
                if y < a.h {
                    cell(b.hl, x - a.w, y)
                } else {
                    cell(b.hh, x - a.w, y - a.h)
                }
            },
    )
}

/// The sheet that one step came from.
pub open spec fn step_undone<S: Sample>(a: Sheet<S>, b: Bands<S>) -> Sheet<S> {
    rows_taken(Pass::Synthesis, columns_taken(Pass::Synthesis, joined(a, b)))
}

proof fn lemma_taken_length<S: Sample>(pass: Pass, x: Seq<S>)
    ensures
        taken(pass, x).len() == x.len(),
{
    if x.len() >= 2 {
        lemma_halves(x);
    }
}

/// A row of a whole sheet, sample by sample.
pub(crate) proof fn lemma_row<S>(s: Sheet<S>, y: int)
    requires
        whole_sheet(s),
        0 <= y < s.h,
    ensures
        row_of(s, y).len() == s.w,
        forall|x: int| 0 <= x < s.w ==> #[trigger] row_of(s, y)[x] == cell(s, x, y),
{
    assert(0 <= y * s.w && y * s.w + s.w <= s.w * s.h) by (nonlinear_arith)
        requires
            0 <= y < s.h,
            0 <= s.w,
    ;
}

/// A row of a sheet whose rows were taken is that row, taken.
pub(crate) proof fn lemma_row_taken<S: Sample>(pass: Pass, s: Sheet<S>, y: int)
    requires
        whole_sheet(s),
        0 <= y < s.h,
    ensures
        whole_sheet(rows_taken(pass, s)),
        row_of(rows_taken(pass, s), y) == taken(pass, row_of(s, y)),
{
    let f = |x: int, y: int| taken(pass, row_of(s, y))[x];
    lemma_sheet_size(s.w, s.h, f);
    lemma_row(rows_taken(pass, s), y);
    lemma_row(s, y);
    lemma_taken_length(pass, row_of(s, y));
    assert forall|x: int| 0 <= x < s.w implies #[trigger] row_of(rows_taken(pass, s), y)[x]
        == taken(pass, row_of(s, y))[x] by {
        lemma_cell(s.w, s.h, f, x, y);
    }
    assert(row_of(rows_taken(pass, s), y) =~= taken(pass, row_of(s, y)));
}

/// For exact samples, synthesis of the rows undoes their analysis.
pub(crate) proof fn lemma_rows_undone<S: Exact>(s: Sheet<S>)
    requires
        whole_sheet(s),
    ensures
        rows_taken(Pass::Synthesis, rows_taken(Pass::Analysis, s)) == s,
{
    let a = rows_taken(Pass::Analysis, s);
    lemma_sheet_size(s.w, s.h, |x: int, y: int| taken(Pass::Analysis, row_of(s, y))[x]);
    let f = |x: int, y: int| taken(Pass::Synthesis, row_of(a, y))[x];
    lemma_sheet_size(s.w, s.h, f);
    let b = rows_taken(Pass::Synthesis, a);
    assert forall|x: int, y: int| 0 <= x < b.w && 0 <= y < b.h implies #[trigger] cell(b, x, y)
        == cell(s, x, y) by {
        lemma_cell(s.w, s.h, f, x, y);
        lemma_row_taken(Pass::Analysis, s, y);
        lemma_synthesis_undoes_analysis(row_of(s, y));
        lemma_row(s, y);
        assert(row_of(s, y)[x] == cell(s, x, y));
    }
    lemma_same_sheet(b, s);
}

pub(crate) proof fn lemma_flip_size<S>(s: Sheet<S>)
    requires
        whole_sheet(s),
    ensures
        whole_sheet(flipped(s)),
{
    lemma_sheet_size(s.h, s.w, |x: int, y: int| cell(s, y, x));
}

/// Exchanging rows and columns twice changes nothing.
pub(crate) proof fn lemma_flip_twice<S>(s: Sheet<S>)
    requires
        whole_sheet(s),
    ensures
        flipped(flipped(s)) == s,
{
    let t = flipped(s);
    lemma_flip_size(s);
    lemma_flip_size(t);
    let f = |x: int, y: int| cell(s, y, x);
    let g = |x: int, y: int| cell(t, y, x);
    assert forall|x: int, y: int|
        0 <= x < s.w && 0 <= y < s.h implies #[trigger] cell(flipped(t), x, y) == cell(
        s,
        x,
        y,
    ) by {
        lemma_cell(t.h, t.w, g, x, y);
        lemma_cell(s.h, s.w, f, y, x);
    }
    lemma_same_sheet(flipped(t), s);
}

pub(crate) proof fn lemma_rows_size<S: Sample>(pass: Pass, s: Sheet<S>)
    requires
        whole_sheet(s),
    ensures
        whole_sheet(rows_taken(pass, s)),
{
    lemma_sheet_size(s.w, s.h, |x: int, y: int| taken(pass, row_of(s, y))[x]);
}

proof fn lemma_transformed_size<S: Sample>(s: Sheet<S>)
    requires
        whole_sheet(s),
    ensures
        whole_sheet(transformed(s)),
        transformed(s).w == s.w,
        transformed(s).h == s.h,
{
    let rows = rows_taken(Pass::Analysis, s);
    lemma_rows_size(Pass::Analysis, s);
    lemma_flip_size(rows);
    lemma_rows_size(Pass::Analysis, flipped(rows));
    lemma_flip_size(rows_taken(Pass::Analysis, flipped(rows)));
}

/// A sheet cut into quadrants and put together again is the same sheet.
pub(crate) proof fn lemma_quadrants_join<S: Sample>(s: Sheet<S>)
    requires
        whole_sheet(s),
    ensures
        joined(step_approx(s), step_bands(s)) == transformed(s),
        whole_sheet(joined(step_approx(s), step_bands(s))),
{
    let t = transformed(s);
    lemma_transformed_size(s);
    let (a, b) = (step_approx(s), step_bands(s));
    let (aw, ah) = (half_up(s.w), half_up(s.h));
    let f = |x: int, y: int|
        if x < a.w {
            if y < a.h {
                cell(a, x, y)
            } else {
                cell(b.lh, x, y - a.h)
            }
        } else {
            if y < a.h {
                cell(b.hl, x - a.w, y)
            } else {
                cell(b.hh, x - a.w, y - a.h)
            }
        };
    let j = joined(a, b);
    assert(j == sheet(s.w, s.h, f));
    lemma_sheet_size(s.w, s.h, f);
    assert forall|x: int, y: int| 0 <= x < s.w && 0 <= y < s.h implies #[trigger] cell(j, x, y)
        == cell(t, x, y) by {
        lemma_cell(s.w, s.h, f, x, y);
        if x < aw {
            if y < ah {
                lemma_cell(aw, ah, |u: int, v: int| cell(t, 0 + u, 0 + v), x, y);
            } else {
                lemma_cell(aw, s.h - ah, |u: int, v: int| cell(t, 0 + u, ah + v), x, y - ah);
            }
        } else {
            if y < ah {
                lemma_cell(s.w - aw, ah, |u: int, v: int| cell(t, aw + u, 0 + v), x - aw, y);
            } else {
                lemma_cell(
                    s.w - aw,
                    s.h - ah,
                    |u: int, v: int| cell(t, aw + u, ah + v),
                    x - aw,
                    y - ah,
                );
            }
        }
    }
    lemma_same_sheet(j, t);
}

/// For exact samples, one step undone gives back the sheet it came from.
pub proof fn lemma_step_undone<S: Exact>(s: Sheet<S>)
    requires
        whole_sheet(s),
    ensures
        step_undone(step_approx(s), step_bands(s)) == s,
{
    let rows = rows_taken(Pass::Analysis, s);
    let side = flipped(rows);
    let low = rows_taken(Pass::Analysis, side);
    lemma_rows_size(Pass::Analysis, s);
    lemma_flip_size(rows);
    lemma_rows_size(Pass::Analysis, side);
    lemma_quadrants_join(s);
    lemma_flip_twice(low);
    lemma_rows_undone(side);
    lemma_flip_twice(rows);
    lemma_rows_undone(s);
}

/// The decomposition of a sheet into `levels` levels: details finest first, and what is
/// left. It stops early at a sheet that cannot be halved again.
pub open spec fn forward_bands<S: Sample>(s: Sheet<S>, levels: nat) -> Seq<Bands<S>>
    decreases levels,
{
    if levels == 0 || s.w < 2 || s.h < 2 {
        seq![]
    } else {
        seq![step_bands(s)] + forward_bands(step_approx(s), (levels - 1) as nat)
    }
}

/// What is left of a sheet after `levels` levels.
pub open spec fn forward_approx<S: Sample>(s: Sheet<S>, levels: nat) -> Sheet<S>
    decreases levels,
{
    if levels == 0 || s.w < 2 || s.h < 2 {
        s
    } else {
        forward_approx(step_approx(s), (levels - 1) as nat)
    }
}

/// The sheet that a decomposition came from.
pub open spec fn rebuilt<S: Sample>(bands: Seq<Bands<S>>, approx: Sheet<S>) -> Sheet<S>
    decreases bands.len(),
{
    if bands.len() == 0 {
        approx
    } else {
        rebuilt(bands.drop_last(), step_undone(approx, bands.last()))
    }
}

/// Rebuilding undoes the coarsest level first, so the finest is undone last.
pub(crate) proof fn lemma_finest_is_undone_last<S: Sample>(
    first: Bands<S>,
    rest: Seq<Bands<S>>,
    approx: Sheet<S>,
)
    ensures
        rebuilt(seq![first] + rest, approx) == step_undone(rebuilt(rest, approx), first),
    decreases rest.len(),
{
    let all = seq![first] + rest;
    if rest.len() == 0 {
        assert(all.drop_last() =~= Seq::<Bands<S>>::empty());
        assert(all.last() == first);
        reveal_with_fuel(rebuilt, 2);
    } else {
        assert(all.drop_last() =~= seq![first] + rest.drop_last());
        assert(all.last() == rest.last());
        lemma_finest_is_undone_last(first, rest.drop_last(), step_undone(approx, rest.last()));
    }
}

pub(crate) proof fn lemma_step_size<S: Sample>(s: Sheet<S>)
    requires
        whole_sheet(s),
    ensures
        whole_sheet(step_approx(s)),
        whole_sheet(step_bands(s).hl),
        whole_sheet(step_bands(s).lh),
        whole_sheet(step_bands(s).hh),
{
    let t = transformed(s);
    let (aw, ah) = (half_up(s.w), half_up(s.h));
    lemma_sheet_size(aw, ah, |x: int, y: int| cell(t, 0 + x, 0 + y));
    lemma_sheet_size(s.w - aw, ah, |x: int, y: int| cell(t, aw + x, 0 + y));
    lemma_sheet_size(aw, s.h - ah, |x: int, y: int| cell(t, 0 + x, ah + y));
    lemma_sheet_size(s.w - aw, s.h - ah, |x: int, y: int| cell(t, aw + x, ah + y));
}

/// The transform is reversible: for exact samples, rebuilding a decomposition gives back
/// the sheet it was made from, at any depth and any size.
pub proof fn lemma_transform_is_reversible<S: Exact>(s: Sheet<S>, levels: nat)
    requires
        whole_sheet(s),
    ensures
        rebuilt(forward_bands(s, levels), forward_approx(s, levels)) == s,
    decreases levels,
{
    if !(levels == 0 || s.w < 2 || s.h < 2) {
        let n = (levels - 1) as nat;
        let a = step_approx(s);
        lemma_step_size(s);
        lemma_transform_is_reversible(a, n);
        lemma_finest_is_undone_last(step_bands(s), forward_bands(a, n), forward_approx(a, n));
        lemma_step_undone(s);
    }
}

/// Every row of a plane taken one way.
fn row_map<S: Sample>(src: &Plane<S>, pass: Pass) -> (out: Plane<S>)
    requires
        whole_sheet(src@),
    ensures
        out@ == rows_taken(pass, src@),
        whole_sheet(out@),
{
    let (w, h): (usize, usize) = (src.width as usize, src.height as usize);
    let data = src.data.as_slice();
    assert(data@.len() == data.len());
    let lines = in_parallel(
        h,
        (|y: usize| -> (line: Vec<S>)
            requires
                y < h,
            ensures
                line@ == taken(pass, row_of(src@, y as int)),
                line@.len() == w,
        {
            assert(0 <= y * w && y * w + w <= w * h) by (nonlinear_arith)
                requires
                    y < h,
            ;
            take(pass, slice_subrange(data, y * w, y * w + w))
        }),
    );
    let lines_ref = &lines;
    let ghost g = |x: int, y: int| taken(pass, row_of(src@, y))[x];
    plane_of(
        src.width,
        src.height,
        (|x: usize, y: usize| -> (v: S)
            requires
                x < w,
                y < h,
            ensures
                v == g(x as int, y as int),
        {
            lines_ref[y][x]
        }),
        Ghost(g),
    )
}

/// A plane with its rows and columns exchanged.
fn transpose<S: Sample>(src: &Plane<S>) -> (out: Plane<S>)
    requires
        whole_sheet(src@),
    ensures
        out@ == flipped(src@),
        whole_sheet(out@),
{
    let (w, h): (usize, usize) = (src.width as usize, src.height as usize);
    let data = src.data.as_slice();
    assert(data@.len() == data.len());
    assert(w * h == h * w) by (nonlinear_arith);
    let ghost g = |x: int, y: int| cell(src@, y, x);
    plane_of(
        src.height,
        src.width,
        (|x: usize, y: usize| -> (v: S)
            requires
                x < h,
                y < w,
            ensures
                v == g(x as int, y as int),
        {
            proof {
                lemma_place(y as int, x as int, w as int, h as int);
            }
            data[x * w + y]
        }),
        Ghost(g),
    )
}

/// A rectangle of a plane.
fn cut<S: Sample>(src: &Plane<S>, x0: u32, y0: u32, width: u32, height: u32) -> (out: Plane<S>)
    requires
        whole_sheet(src@),
        x0 + width <= src.width,
        y0 + height <= src.height,
    ensures
        out@ == part(src@, x0 as int, y0 as int, width as int, height as int),
        whole_sheet(out@),
{
    let (w, h): (usize, usize) = (src.width as usize, src.height as usize);
    let data = src.data.as_slice();
    assert(data@.len() == data.len());
    assert(width * height <= w * h) by (nonlinear_arith)
        requires
            width <= w,
            height <= h,
    ;
    let (cx, cy): (usize, usize) = (x0 as usize, y0 as usize);
    let ghost g = |x: int, y: int| cell(src@, x0 + x, y0 + y);
    plane_of(
        width,
        height,
        (|x: usize, y: usize| -> (v: S)
            requires
                x < width,
                y < height,
            ensures
                v == g(x as int, y as int),
        {
            proof {
                lemma_place(cx + x, cy + y, w as int, h as int);
            }
            data[(cy + y) * w + (cx + x)]
        }),
        Ghost(g),
    )
}

/// The three detail orientations at one decomposition level, each about a quarter of the
/// level's input: horizontal (`hl`), vertical (`lh`) and diagonal (`hh`).
pub struct Details<S> {
    pub hl: Plane<S>,
    pub lh: Plane<S>,
    pub hh: Plane<S>,
}

impl<S> View for Details<S> {
    type V = Bands<S>;

    open spec fn view(&self) -> Bands<S> {
        Bands { hl: self.hl@, lh: self.lh@, hh: self.hh@ }
    }
}

/// A full multi-level decomposition: detail bands finest first, plus what is left.
pub struct Decomposition<S> {
    pub details: Vec<Details<S>>,
    pub approx: Plane<S>,
}

/// The bands of a decomposition.
pub open spec fn bands_of<S>(d: Decomposition<S>) -> Seq<Bands<S>> {
    d.details@.map_values(|x: Details<S>| x@)
}

/// One level's bands fit around an approximation of this size.
pub open spec fn bands_fit<S>(b: Bands<S>, aw: int, ah: int) -> bool {
    &&& whole_sheet(b.hl)
    &&& whole_sheet(b.lh)
    &&& whole_sheet(b.hh)
    &&& b.hl.h == ah
    &&& b.lh.w == aw
    &&& b.hh.w == b.hl.w
    &&& b.hh.h == b.lh.h
    &&& aw + b.hl.w <= u32::MAX
    &&& ah + b.lh.h <= u32::MAX
    &&& (aw + b.hl.w) * (ah + b.lh.h) <= usize::MAX
}

/// Every level's bands fit around what the coarser levels rebuild.
pub open spec fn levels_fit<S>(bands: Seq<Bands<S>>, aw: int, ah: int) -> bool
    decreases bands.len(),
{
    bands.len() == 0 || (bands_fit(bands.last(), aw, ah) && levels_fit(
        bands.drop_last(),
        aw + bands.last().hl.w,
        ah + bands.last().lh.h,
    ))
}

/// One two-dimensional step: rows, then columns, then the split into four quadrants.
fn analyze_step<S: Sample>(src: &Plane<S>) -> (r: (Plane<S>, Details<S>))
    requires
        whole_sheet(src@),
    ensures
        r.0@ == step_approx(src@),
        r.1@ == step_bands(src@),
        whole_sheet(r.0@),
        bands_fit(r.1@, r.0@.w, r.0@.h),
{
    let rows = row_map(src, Pass::Analysis);
    let side = transpose(&rows);
    let low = row_map(&side, Pass::Analysis);
    let t = transpose(&low);
    let (aw, ah) = (halved(src.width), halved(src.height));
    let (dw, dh) = (src.width - aw, src.height - ah);
    let approx = cut(&t, 0, 0, aw, ah);
    let details = Details {
        hl: cut(&t, aw, 0, dw, ah),
        lh: cut(&t, 0, ah, aw, dh),
        hh: cut(&t, aw, ah, dw, dh),
    };
    assert(src.data.len() == src.data@.len());
    (approx, details)
}

/// Invert [`analyze_step`]: put the quadrants together, then undo columns and rows.
fn synthesize_step<S: Sample>(approx: &Plane<S>, details: &Details<S>) -> (out: Plane<S>)
    requires
        whole_sheet(approx@),
        bands_fit(details@, approx@.w, approx@.h),
    ensures
        out@ == step_undone(approx@, details@),
        whole_sheet(out@),
        out@.w == approx@.w + details@.hl.w,
        out@.h == approx@.h + details@.lh.h,
{
    let (aw, ah): (usize, usize) = (approx.width as usize, approx.height as usize);
    let (hw, lh): (usize, usize) = (details.hl.width as usize, details.lh.height as usize);
    let width = approx.width + details.hl.width;
    let height = approx.height + details.lh.height;
    let ghost g = |x: int, y: int|
        if x < approx@.w {
            if y < approx@.h {
                cell(approx@, x, y)
            } else {
                cell(details@.lh, x, y - approx@.h)
            }
        } else {
            if y < approx@.h {
                cell(details@.hl, x - approx@.w, y)
            } else {
                cell(details@.hh, x - approx@.w, y - approx@.h)
            }
        };
    let (a, b, c, d) = (
        approx.data.as_slice(),
        details.hl.data.as_slice(),
        details.lh.data.as_slice(),
        details.hh.data.as_slice(),
    );
    assert(a@.len() == a.len() && b@.len() == b.len() && c@.len() == c.len() && d@.len()
        == d.len());
    let whole = plane_of(
        width,
        height,
        (|x: usize, y: usize| -> (v: S)
            requires
                x < width,
                y < height,
            ensures
                v == g(x as int, y as int),
        {
            if x < aw {
                if y < ah {
                    proof {
                        lemma_place(x as int, y as int, aw as int, ah as int);
                    }
                    a[y * aw + x]
                } else {
                    proof {
                        lemma_place(x as int, y - ah, aw as int, lh as int);
                    }
                    c[(y - ah) * aw + x]
                }
            } else {
                if y < ah {
                    proof {
                        lemma_place(x - aw, y as int, hw as int, ah as int);
                    }
                    b[y * hw + (x - aw)]
                } else {
                    proof {
                        lemma_place(x - aw, y - ah, hw as int, lh as int);
                    }
                    d[(y - ah) * hw + (x - aw)]
                }
            }
        }),
        Ghost(g),
    );
    assert(whole@ == joined(approx@, details@));
    let side = transpose(&whole);
    let low = row_map(&side, Pass::Synthesis);
    let columns = transpose(&low);
    row_map(&columns, Pass::Synthesis)
}

/// Levels that fit around a step's approximation fit, with the step's own bands, around
/// what the coarsest level leaves.
proof fn lemma_finer_level_fits<S>(
    first: Bands<S>,
    rest: Seq<Bands<S>>,
    aw: int,
    ah: int,
    mw: int,
    mh: int,
)
    requires
        levels_fit(rest, aw, ah),
        rebuilt_width(rest, aw) == mw,
        rebuilt_height(rest, ah) == mh,
        bands_fit(first, mw, mh),
    ensures
        levels_fit(seq![first] + rest, aw, ah),
        rebuilt_width(seq![first] + rest, aw) == mw + first.hl.w,
        rebuilt_height(seq![first] + rest, ah) == mh + first.lh.h,
    decreases rest.len(),
{
    let all = seq![first] + rest;
    if rest.len() == 0 {
        assert(all.drop_last() =~= Seq::<Bands<S>>::empty());
        reveal_with_fuel(levels_fit, 2);
        reveal_with_fuel(rebuilt_width, 2);
        reveal_with_fuel(rebuilt_height, 2);
    } else {
        assert(all.drop_last() =~= seq![first] + rest.drop_last());
        assert(all.last() == rest.last());
        lemma_finer_level_fits(
            first,
            rest.drop_last(),
            aw + rest.last().hl.w,
            ah + rest.last().lh.h,
            mw,
            mh,
        );
    }
}

/// The size that rebuilding reaches.
pub open spec fn rebuilt_width<S>(bands: Seq<Bands<S>>, aw: int) -> int
    decreases bands.len(),
{
    if bands.len() == 0 {
        aw
    } else {
        rebuilt_width(bands.drop_last(), aw + bands.last().hl.w)
    }
}

pub open spec fn rebuilt_height<S>(bands: Seq<Bands<S>>, ah: int) -> int
    decreases bands.len(),
{
    if bands.len() == 0 {
        ah
    } else {
        rebuilt_height(bands.drop_last(), ah + bands.last().lh.h)
    }
}

/// A decomposition can always be rebuilt, to the size it was made from.
pub proof fn lemma_decomposition_can_be_rebuilt<S: Sample>(s: Sheet<S>, levels: nat)
    requires
        whole_sheet(s),
        s.w <= u32::MAX,
        s.h <= u32::MAX,
        s.w * s.h <= usize::MAX,
    ensures
        whole_sheet(forward_approx(s, levels)),
        0 <= forward_approx(s, levels).w <= s.w,
        0 <= forward_approx(s, levels).h <= s.h,
        levels_fit(
            forward_bands(s, levels),
            forward_approx(s, levels).w,
            forward_approx(s, levels).h,
        ),
        rebuilt_width(forward_bands(s, levels), forward_approx(s, levels).w) == s.w,
        rebuilt_height(forward_bands(s, levels), forward_approx(s, levels).h) == s.h,
    decreases levels,
{
    if !(levels == 0 || s.w < 2 || s.h < 2) {
        let n = (levels - 1) as nat;
        let a = step_approx(s);
        lemma_step_size(s);
        assert(a.w * a.h <= s.w * s.h) by (nonlinear_arith)
            requires
                0 <= a.w <= s.w,
                0 <= a.h <= s.h,
        ;
        lemma_decomposition_can_be_rebuilt(a, n);
        lemma_finer_level_fits(
            step_bands(s),
            forward_bands(a, n),
            forward_approx(a, n).w,
            forward_approx(a, n).h,
            a.w,
            a.h,
        );
    }
}

/// Decompose `plane` into `levels` levels of detail plus a final approximation.
pub fn forward<S: Sample>(plane: &Plane<S>, levels: usize) -> (r: Decomposition<S>)
    requires
        whole_sheet(plane@),
    ensures
        bands_of(r) == forward_bands(plane@, levels as nat),
        r.approx@ == forward_approx(plane@, levels as nat),
        levels_fit(bands_of(r), r.approx@.w, r.approx@.h),
        whole_sheet(r.approx@),
{
    let mut approx = plane.copy();
    let mut details: Vec<Details<S>> = Vec::new();
    let mut left: usize = levels;
    assert(details@.map_values(|x: Details<S>| x@) =~= seq![]);
    while left > 0 && approx.width >= 2 && approx.height >= 2
        invariant
            left <= levels,
            whole_sheet(approx@),
            forward_bands(plane@, levels as nat) == details@.map_values(|x: Details<S>| x@)
                + forward_bands(approx@, left as nat),
            forward_approx(plane@, levels as nat) == forward_approx(approx@, left as nat),
        decreases left,
    {
        let ghost before = details@.map_values(|x: Details<S>| x@);
        let ghost old_approx = approx@;
        let (next, d) = analyze_step(&approx);
        let ghost bands = d@;
        details.push(d);
        proof {
            assert(details@.map_values(|x: Details<S>| x@) =~= before.push(bands));
            assert(before + (seq![bands] + forward_bands(next@, (left - 1) as nat)) =~= before.push(
                bands,
            ) + forward_bands(next@, (left - 1) as nat));
        }
        approx = next;
        left -= 1;
    }
    assert(forward_bands(approx@, left as nat) =~= seq![]);
    assert(details@.map_values(|x: Details<S>| x@) + seq![] =~= details@.map_values(
        |x: Details<S>| x@,
    ));
    assert(plane.data@.len() == plane.data.len());
    proof {
        lemma_decomposition_can_be_rebuilt(plane@, levels as nat);
    }
    Decomposition { details, approx }
}

/// Rebuild the plane a [`Decomposition`] came from.
pub fn inverse<S: Sample>(decomposition: &Decomposition<S>) -> (r: Plane<S>)
    requires
        whole_sheet(decomposition.approx@),
        levels_fit(
            bands_of(*decomposition),
            decomposition.approx@.w,
            decomposition.approx@.h,
        ),
    ensures
        r@ == rebuilt(bands_of(*decomposition), decomposition.approx@),
        whole_sheet(r@),
        r@.w == rebuilt_width(bands_of(*decomposition), decomposition.approx@.w),
        r@.h == rebuilt_height(bands_of(*decomposition), decomposition.approx@.h),
{
    let ghost bands = bands_of(*decomposition);
    let mut plane = decomposition.approx.copy();
    let mut left: usize = decomposition.details.len();
    assert(bands.take(left as int) =~= bands);
    while left > 0
        invariant
            left <= bands.len(),
            bands == bands_of(*decomposition),
            whole_sheet(plane@),
            levels_fit(bands.take(left as int), plane@.w, plane@.h),
            rebuilt(bands.take(left as int), plane@) == rebuilt(bands, decomposition.approx@),
            rebuilt_width(bands.take(left as int), plane@.w) == rebuilt_width(
                bands,
                decomposition.approx@.w,
            ),
            rebuilt_height(bands.take(left as int), plane@.h) == rebuilt_height(
                bands,
                decomposition.approx@.h,
            ),
        decreases left,
    {
        let ghost current = bands.take(left as int);
        proof {
            assert(current.drop_last() =~= bands.take(left - 1));
            assert(current.last() == decomposition.details@[left - 1]@);
        }
        plane = synthesize_step(&plane, &decomposition.details[left - 1]);
        left -= 1;
    }
    plane
}

/// The size of each level's approximation, which is the size of its label grid.
pub open spec fn grids_of(w: int, h: int, levels: nat) -> Seq<(int, int)>
    decreases levels,
{
    if levels == 0 || w < 2 || h < 2 {
        seq![]
    } else {
        seq![(half_up(w), half_up(h))] + grids_of(half_up(w), half_up(h), (levels - 1) as nat)
    }
}

/// The label-grid size at each level, following [`forward`]'s stopping rule.
pub fn grids(width: u32, height: u32, levels: usize) -> (out: Vec<(u32, u32)>)
    ensures
        out@.map_values(|g: (u32, u32)| (g.0 as int, g.1 as int)) == grids_of(
            width as int,
            height as int,
            levels as nat,
        ),
{
    let mut w = width;
    let mut h = height;
    let mut left: usize = levels;
    let mut out: Vec<(u32, u32)> = Vec::new();
    let ghost as_ints = |g: (u32, u32)| (g.0 as int, g.1 as int);
    assert(out@.map_values(as_ints) =~= seq![]);
    while left > 0 && w >= 2 && h >= 2
        invariant
            left <= levels,
            as_ints == (|g: (u32, u32)| (g.0 as int, g.1 as int)),
            grids_of(width as int, height as int, levels as nat) == out@.map_values(as_ints)
                + grids_of(w as int, h as int, left as nat),
        decreases left,
    {
        let ghost before = out@.map_values(as_ints);
        let ghost (ow, oh) = (w as int, h as int);
        w = halved(w);
        h = halved(h);
        out.push((w, h));
        proof {
            let rest = grids_of(w as int, h as int, (left - 1) as nat);
            assert(grids_of(ow, oh, left as nat) == seq![(w as int, h as int)] + rest);
            assert(out@.map_values(as_ints) =~= before.push((w as int, h as int)));
            assert(before + (seq![(w as int, h as int)] + rest) =~= out@.map_values(as_ints)
                + rest);
        }
        left -= 1;
    }
    assert(grids_of(w as int, h as int, left as nat) =~= seq![]);
    assert(out@.map_values(as_ints) + seq![] =~= out@.map_values(as_ints));
    out
}

/// The grids agree with the decomposition: there is one for each level, and each is the
/// union of that level's orientations.
pub proof fn lemma_grids_agree_with_the_decomposition<S: Sample>(s: Sheet<S>, levels: nat)
    ensures
        forward_bands(s, levels).len() == grids_of(s.w, s.h, levels).len(),
        forall|k: int|
            0 <= k < grids_of(s.w, s.h, levels).len() ==> {
                let b = #[trigger] forward_bands(s, levels)[k];
                let g = grids_of(s.w, s.h, levels)[k];
                &&& b.lh.w == g.0
                &&& b.hl.h == g.1
                &&& b.hh.w == b.hl.w
                &&& b.hh.h == b.lh.h
                &&& 1 <= b.hl.w <= g.0
                &&& 1 <= b.lh.h <= g.1
            },
    decreases levels,
{
    if !(levels == 0 || s.w < 2 || s.h < 2) {
        let n = (levels - 1) as nat;
        let a = step_approx(s);
        lemma_grids_agree_with_the_decomposition(a, n);
        let (rest, grid) = (forward_bands(a, n), grids_of(a.w, a.h, n));
        assert forall|k: int| 0 <= k < grids_of(s.w, s.h, levels).len() implies {
            let b = #[trigger] forward_bands(s, levels)[k];
            let g = grids_of(s.w, s.h, levels)[k];
            &&& b.lh.w == g.0
            &&& b.hl.h == g.1
            &&& b.hh.w == b.hl.w
            &&& b.hh.h == b.lh.h
            &&& 1 <= b.hl.w <= g.0
            &&& 1 <= b.lh.h <= g.1
        } by {
            if k > 0 {
                assert(forward_bands(s, levels)[k] == rest[k - 1]);
                assert(grids_of(s.w, s.h, levels)[k] == grid[k - 1]);
            }
        }
    }
}

/// A mirrored index lies inside the signal.
proof fn lemma_mirror_lands(i: int, n: int)
    requires
        n >= 1,
    ensures
        0 <= mirrored(i, n) < n,
{
    if n > 1 {
        vstd::arithmetic::div_mod::lemma_mod_bound(i, 2 * (n - 1));
    }
}

/// A constant signal has no detail, and its low-pass half is the constant.
#[verifier::spinoff_prover]
pub proof fn lemma_constant_signal_has_no_detail(x: Seq<Fixed>, v: Fixed, i: int)
    requires
        x.len() >= 2,
        -0x4000_0000_0000_0000 <= v.raw < 0x4000_0000_0000_0000,
        forall|k: int| 0 <= k < x.len() ==> #[trigger] x[k] == v,
        0 <= i < x.len(),
    ensures
        analyzed(x)[i] == (if i < half_up(x.len() as int) {
            v
        } else {
            Fixed::spec_whole(0)
        }),
{
    let n = x.len() as int;
    let zero = Fixed::spec_whole(0);
    let detail = details_of(x);
    assert(zero.raw == 0);
    assert(Fixed::spec_whole(1).raw == 65536);
    assert(Fixed::spec_whole(2).raw == 131072);
    assert(half::<Fixed>().raw == 32768);
    assert forall|k: int| 0 <= k < detail.len() implies #[trigger] detail[k] == zero by {
        assert(0 <= mirrored(2 * k, n) < n && 0 <= mirrored(2 * k + 2, n) < n) by {
            lemma_mirror_lands(2 * k, n);
            lemma_mirror_lands(2 * k + 2, n);
        }
        assert(v.spec_plus(v).raw == 2 * v.raw);
        assert((32768 * (2 * v.raw)) / 65536 == v.raw);
        assert(prediction(x, k) == v);
    }
    assert forall|k: int| 0 <= k < half_up(n) implies #[trigger] lift(detail, k) == zero by {
        assert(detail.len() >= 1);
        assert(zero.spec_plus(zero) == zero);
        let q = quarter::<Fixed>();
        assert(q.raw * 0 == 0) by (nonlinear_arith);
        assert(q.spec_times(zero) == zero);
    }
    if i < half_up(n) {
        assert(analyzed(x)[i] == x[2 * i].spec_plus(lift(detail, i)));
    } else {
        assert(analyzed(x)[i] == detail[i - half_up(n)]);
    }
}

} // verus!
