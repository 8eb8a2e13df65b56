//! What a wavelet step keeps and what it sets aside: slopes are kept, changes from column to
//! column go to one band and changes from row to row to another.

use vstd::prelude::*;
use crate::image::{clamped, half_up};
use crate::plane::{cell, lemma_cell, whole_sheet, Sheet};
use crate::rounding::{
    bounded, lemma_difference, lemma_product_of, lemma_sum, lemma_whole,
};
use crate::sample::{Fixed, Sample};
use crate::wavelet::{
    analyzed, details_of, flipped, half, lemma_flip_size, lemma_halves, lemma_odd_neighbours,
    lemma_row, lemma_row_taken, lemma_rows_size, lift, prediction, quarter, row_of, rows_taken,
    step_approx, step_bands, transformed, Pass,
};

verus! {

/// Are all samples of a signal at most `m` steps from zero?
pub open spec fn signal_bounded(x: Seq<Fixed>, m: int) -> bool {
    forall|i: int| 0 <= i < x.len() ==> bounded(#[trigger] x[i], m)
}

proof fn lemma_halves_and_quarters(a: Fixed, b: Fixed, m: int)
    requires
        bounded(a, m),
        bounded(b, m),
        0 <= m <= 0x2000_0000_0000_0000,
    ensures
        half::<Fixed>().spec_times(a.spec_plus(b)).raw == (a.raw + b.raw) / 2,
        quarter::<Fixed>().spec_times(a.spec_plus(b)).raw == (a.raw + b.raw) / 4,
{
    lemma_whole(1);
    lemma_whole(2);
    lemma_whole(4);
    assert(half::<Fixed>().raw == 32768);
    assert(quarter::<Fixed>().raw == 16384);
    lemma_sum(a, b);
    let v = a.raw + b.raw;
    assert((32768 * v) / 65536 == v / 2);
    assert((16384 * v) / 65536 == v / 4);
    lemma_product_of(half::<Fixed>(), a.spec_plus(b));
    lemma_product_of(quarter::<Fixed>(), a.spec_plus(b));
}

/// The even sample after an odd one, or the one before it where there is none.
pub open spec fn even_after(x: Seq<Fixed>, i: int) -> int {
    if 2 * i + 2 < x.len() {
        2 * i + 2
    } else {
        2 * i
    }
}

/// A detail is what an odd sample has over the mean of the even ones on either side, and each
/// even sample is kept, lifted by a quarter of the details on either side. Each is rounded by
/// less than a step.
#[verifier::spinoff_prover]
pub proof fn lemma_details_are_what_the_neighbours_do_not_tell(x: Seq<Fixed>, i: int)
    requires
        2 <= x.len(),
        signal_bounded(x, 0x400_0000_0000_0000),
        0 <= i < x.len() / 2,
    ensures
        details_of(x).len() == x.len() / 2,
        0 <= 2 * details_of(x)[i].raw - (2 * x[2 * i + 1].raw - x[2 * i].raw - x[even_after(
            x,
            i,
        )].raw) < 2,
        bounded(details_of(x)[i], 0x800_0000_0000_0001),
{
    let n = x.len() as int;
    lemma_odd_neighbours(2 * i + 1, n);
    let (l, r) = (x[2 * i], x[even_after(x, i)]);
    lemma_halves_and_quarters(l, r, 0x400_0000_0000_0000);
    let guess = prediction(x, i);
    assert(guess.raw == (l.raw + r.raw) / 2);
    assert(bounded(x[2 * i + 1], 0x400_0000_0000_0000));
    lemma_difference(x[2 * i + 1], guess);
}

/// An even sample is kept, lifted by a quarter of the details on either side, rounded down by
/// less than a step.
#[verifier::spinoff_prover]
pub proof fn lemma_even_samples_are_kept(x: Seq<Fixed>, i: int)
    requires
        2 <= x.len(),
        signal_bounded(x, 0x400_0000_0000_0000),
        0 <= i < half_up(x.len() as int),
    ensures
        analyzed(x).len() == x.len(),
        ({
            let d = details_of(x);
            let before = if i > 0 {
                i - 1
            } else {
                0
            };
            let after = if i < d.len() {
                i
            } else {
                d.len() - 1
            };
            -4 < 4 * (analyzed(x)[i].raw - x[2 * i].raw) - (d[before].raw + d[after].raw) <= 0
        }),
{
    lemma_halves(x);
    let d = details_of(x);
    let (l, r) = (clamped(i - 1, 0, d.len() - 1), clamped(i, 0, d.len() - 1));
    lemma_details_are_what_the_neighbours_do_not_tell(x, l);
    lemma_details_are_what_the_neighbours_do_not_tell(x, r);
    lemma_halves_and_quarters(d[l], d[r], 0x800_0000_0000_0001);
    let up = lift(d, i);
    assert(up.raw == (d[l].raw + d[r].raw) / 4);
    assert(bounded(x[2 * i], 0x400_0000_0000_0000));
    lemma_sum(x[2 * i], up);
    assert(analyzed(x)[i] == x[2 * i].spec_plus(up));
}

/// A signal that rises evenly has no detail away from its end, and is kept at every other
/// sample.
pub proof fn lemma_slopes_have_no_detail(x: Seq<Fixed>, a: int, c: int, i: int)
    requires
        2 <= x.len(),
        signal_bounded(x, 0x400_0000_0000_0000),
        forall|k: int| 0 <= k < x.len() ==> (#[trigger] x[k]).raw == a * k + c,
        0 <= i,
        2 * i + 2 < x.len(),
    ensures
        details_of(x)[i].raw == 0,
        analyzed(x)[i].raw == a * (2 * i) + c,
{
    lemma_details_are_what_the_neighbours_do_not_tell(x, i);
    lemma_even_samples_are_kept(x, i);
    lemma_rise(a, 2 * i);
    assert(x[2 * i].raw == a * (2 * i) + c);
    assert(x[2 * i + 1].raw == a * (2 * i + 1) + c);
    assert(x[2 * i + 2].raw == a * (2 * i + 2) + c);
    if i > 0 {
        lemma_details_are_what_the_neighbours_do_not_tell(x, i - 1);
        lemma_rise(a, 2 * i - 2);
        assert(x[2 * i - 2].raw == a * (2 * i - 2) + c);
        assert(x[2 * i - 1].raw == a * (2 * i - 1) + c);
        assert(x[2 * (i - 1) + 1] == x[2 * i - 1]);
    }
}

proof fn lemma_rise(a: int, k: int)
    ensures
        a * (k + 1) == a * k + a,
        a * (k + 2) == a * k + 2 * a,
{
    assert(a * (k + 1) == a * k + a && a * (k + 2) == a * k + 2 * a) by (nonlinear_arith);
}

/// A signal that is the same throughout is kept, and has no detail.
#[verifier::spinoff_prover]
proof fn lemma_even_signal(x: Seq<Fixed>, v: Fixed, i: int)
    requires
        forall|k: int| 0 <= k < x.len() ==> #[trigger] x[k] == v,
        bounded(v, 0x400_0000_0000_0000),
        0 <= i < x.len(),
    ensures
        analyzed(x).len() == x.len(),
        analyzed(x)[i] == (if i < half_up(x.len() as int) {
            v
        } else {
            Fixed { raw: 0 }
        }),
{
    let n = x.len() as int;
    if n >= 2 {
        lemma_halves(x);
        let d = details_of(x);
        let na = half_up(n);
        assert forall|k: int| 0 <= k < d.len() implies (#[trigger] d[k]).raw == 0 by {
            lemma_details_are_what_the_neighbours_do_not_tell(x, k);
        }
        if i < na {
            lemma_even_samples_are_kept(x, i);
            assert(x[2 * i] == v);
            assert(d[0].raw == 0);
        } else {
            assert(analyzed(x).skip(na)[i - na] == analyzed(x)[i]);
        }
    }
}

/// A column of a sheet whose rows were analyzed.
spec fn column_of(s: Sheet<Fixed>, x: int) -> Seq<Fixed> {
    Seq::new(s.h as nat, |y: int| analyzed(row_of(s, y))[x])
}

/// A coefficient of a step: the rows are analyzed, and of the column that this leaves, the
/// coefficient at its row.
proof fn lemma_coefficient(s: Sheet<Fixed>, x: int, y: int)
    requires
        whole_sheet(s),
        0 <= x < s.w,
        0 <= y < s.h,
    ensures
        cell(transformed(s), x, y) == analyzed(column_of(s, x))[y],
{
    let rows = rows_taken(Pass::Analysis, s);
    lemma_rows_size(Pass::Analysis, s);
    let f = flipped(rows);
    lemma_flip_size(rows);
    let g = rows_taken(Pass::Analysis, f);
    lemma_rows_size(Pass::Analysis, f);
    lemma_cell(g.h, g.w, |x: int, y: int| cell(g, y, x), x, y);
    lemma_row(g, x);
    lemma_row_taken(Pass::Analysis, f, x);
    assert(row_of(g, x)[y] == cell(g, y, x));
    lemma_row(f, x);
    assert forall|j: int| 0 <= j < s.h implies row_of(f, x)[j] == column_of(s, x)[j] by {
        assert(row_of(f, x)[j] == cell(f, j, x));
        lemma_cell(rows.h, rows.w, |x: int, y: int| cell(rows, y, x), j, x);
        lemma_row(rows, j);
        lemma_row_taken(Pass::Analysis, s, j);
        assert(row_of(rows, j)[x] == cell(rows, x, j));
    }
    assert(row_of(f, x) =~= column_of(s, x));
}

/// The coefficients of a step by band.
proof fn lemma_bands_of_step(s: Sheet<Fixed>, x: int, y: int)
    requires
        whole_sheet(s),
        0 <= x < s.w,
        0 <= y < s.h,
    ensures
        ({
            let (aw, ah) = (half_up(s.w), half_up(s.h));
            let c = analyzed(column_of(s, x))[y];
            let b = step_bands(s);
            &&& x < aw && y < ah ==> cell(step_approx(s), x, y) == c
            &&& x >= aw && y < ah ==> cell(b.hl, x - aw, y) == c
            &&& x < aw && y >= ah ==> cell(b.lh, x, y - ah) == c
            &&& x >= aw && y >= ah ==> cell(b.hh, x - aw, y - ah) == c
        }),
{
    let t = transformed(s);
    let (aw, ah) = (half_up(s.w), half_up(s.h));
    lemma_coefficient(s, x, y);
    if x < aw && y < ah {
        lemma_cell(aw, ah, |x: int, y: int| cell(t, 0 + x, 0 + y), x, y);
    } else if y < ah {
        lemma_cell(s.w - aw, ah, |x: int, y: int| cell(t, aw + x, 0 + y), x - aw, y);
    } else if x < aw {
        lemma_cell(aw, s.h - ah, |x: int, y: int| cell(t, 0 + x, ah + y), x, y - ah);
    } else {
        lemma_cell(s.w - aw, s.h - ah, |x: int, y: int| cell(t, aw + x, ah + y), x - aw, y - ah);
    }
}

/// Is every row of a sheet the same signal?
pub open spec fn rows_alike(s: Sheet<Fixed>, signal: Seq<Fixed>) -> bool {
    &&& signal.len() == s.w
    &&& forall|x: int, y: int|
        0 <= x < s.w && 0 <= y < s.h ==> #[trigger] s.data[y * s.w + x] == signal[x]
}

/// Is every column of a sheet the same signal?
pub open spec fn columns_alike(s: Sheet<Fixed>, signal: Seq<Fixed>) -> bool {
    &&& signal.len() == s.h
    &&& forall|x: int, y: int|
        0 <= x < s.w && 0 <= y < s.h ==> #[trigger] s.data[y * s.w + x] == signal[y]
}

/// Changes from column to column go to the horizontal band: of a sheet whose rows are all
/// alike, what is kept and the horizontal details are those of the row, and the other bands
/// are empty.
pub proof fn lemma_columns_that_differ_are_horizontal_detail(
    s: Sheet<Fixed>,
    signal: Seq<Fixed>,
    x: int,
    y: int,
)
    requires
        whole_sheet(s),
        2 <= s.w,
        2 <= s.h,
        rows_alike(s, signal),
        signal_bounded(signal, 0x80_0000_0000_0000),
        0 <= x < s.w,
        0 <= y < s.h,
    ensures
        ({
            let (aw, ah) = (half_up(s.w), half_up(s.h));
            let b = step_bands(s);
            &&& x < aw && y < ah ==> cell(step_approx(s), x, y) == analyzed(signal)[x]
            &&& x >= aw && y < ah ==> cell(b.hl, x - aw, y) == details_of(signal)[x - aw]
            &&& x < aw && y >= ah ==> cell(b.lh, x, y - ah).raw == 0
            &&& x >= aw && y >= ah ==> cell(b.hh, x - aw, y - ah).raw == 0
        }),
{
    lemma_bands_of_step(s, x, y);
    lemma_halves(signal);
    let c = column_of(s, x);
    let v = analyzed(signal)[x];
    assert forall|j: int| 0 <= j < c.len() implies #[trigger] c[j] == v by {
        lemma_row(s, j);
        assert forall|k: int| 0 <= k < s.w implies row_of(s, j)[k] == signal[k] by {
            assert(row_of(s, j)[k] == cell(s, k, j));
            assert(s.data[j * s.w + k] == signal[k]);
        }
        assert(row_of(s, j) =~= signal);
    }
    lemma_coefficients_are_bounded(signal, x);
    lemma_even_signal(c, v, y);
    let aw = half_up(s.w);
    if x >= aw {
        assert(analyzed(signal).skip(aw)[x - aw] == analyzed(signal)[x]);
    }
}

/// A coefficient is at most a few times as far from zero as the samples.
proof fn lemma_coefficients_are_bounded(x: Seq<Fixed>, i: int)
    requires
        2 <= x.len(),
        signal_bounded(x, 0x80_0000_0000_0000),
        0 <= i < x.len(),
    ensures
        bounded(analyzed(x)[i], 0x400_0000_0000_0000),
{
    lemma_halves(x);
    let n = x.len() as int;
    let na = half_up(n);
    let d = details_of(x);
    assert(signal_bounded(x, 0x400_0000_0000_0000));
    assert forall|k: int| 0 <= k < d.len() implies bounded(#[trigger] d[k], 0x100_0000_0000_0002) by {
        lemma_details_are_what_the_neighbours_do_not_tell(x, k);
        let r = even_after(x, k);
        assert(bounded(x[2 * k], 0x80_0000_0000_0000));
        assert(bounded(x[2 * k + 1], 0x80_0000_0000_0000));
        assert(bounded(x[r], 0x80_0000_0000_0000));
    }
    if i < na {
        lemma_even_samples_are_kept(x, i);
        assert(bounded(x[2 * i], 0x80_0000_0000_0000));
    } else {
        assert(analyzed(x).skip(na)[i - na] == analyzed(x)[i]);
        assert(bounded(d[i - na], 0x100_0000_0000_0002));
    }
}

/// Changes from row to row go to the vertical band: of a sheet whose columns are all alike,
/// what is kept and the vertical details are those of the column, and the other bands are
/// empty.
pub proof fn lemma_rows_that_differ_are_vertical_detail(
    s: Sheet<Fixed>,
    signal: Seq<Fixed>,
    x: int,
    y: int,
)
    requires
        whole_sheet(s),
        2 <= s.w,
        2 <= s.h,
        columns_alike(s, signal),
        signal_bounded(signal, 0x80_0000_0000_0000),
        0 <= x < s.w,
        0 <= y < s.h,
    ensures
        ({
            let (aw, ah) = (half_up(s.w), half_up(s.h));
            let b = step_bands(s);
            &&& x < aw && y < ah ==> cell(step_approx(s), x, y) == analyzed(signal)[y]
            &&& x >= aw && y < ah ==> cell(b.hl, x - aw, y).raw == 0
            &&& x < aw && y >= ah ==> cell(b.lh, x, y - ah) == details_of(signal)[y - ah]
            &&& x >= aw && y >= ah ==> cell(b.hh, x - aw, y - ah).raw == 0
        }),
{
    lemma_bands_of_step(s, x, y);
    lemma_halves(signal);
    let (aw, ah) = (half_up(s.w), half_up(s.h));
    let c = column_of(s, x);
    let none = Fixed { raw: 0 };
    assert forall|j: int| 0 <= j < c.len() implies #[trigger] c[j] == (if x < aw {
        signal[j]
    } else {
        none
    }) by {
        lemma_row(s, j);
        let row = row_of(s, j);
        assert forall|k: int| 0 <= k < row.len() implies #[trigger] row[k] == signal[j] by {
            assert(row[k] == cell(s, k, j));
            assert(s.data[j * s.w + k] == signal[j]);
        }
        assert(bounded(signal[j], 0x80_0000_0000_0000));
        lemma_even_signal(row, signal[j], x);
    }
    if x < aw {
        assert(c =~= signal);
        if y >= ah {
            assert(analyzed(signal).skip(ah)[y - ah] == analyzed(signal)[y]);
        }
    } else {
        lemma_even_signal(c, none, y);
    }
}

/// Is a sheet a plane that rises by `a` steps a column and `b` steps a row from `d`?
pub open spec fn sheet_slopes(s: Sheet<Fixed>, a: int, b: int, d: int) -> bool {
    forall|x: int, y: int|
        0 <= x < s.w && 0 <= y < s.h ==> (#[trigger] s.data[y * s.w + x]).raw == a * x + b * y + d
}

/// A slope is kept at every other pixel of every other row, away from the far edges.
pub proof fn lemma_slopes_are_kept(s: Sheet<Fixed>, a: int, b: int, d: int, x: int, y: int)
    requires
        whole_sheet(s),
        2 <= s.w,
        2 <= s.h,
        sheet_slopes(s, a, b, d),
        forall|i: int| 0 <= i < s.data.len() ==> bounded(#[trigger] s.data[i], 0x400_0000_0000_0000),
        0 <= x,
        0 <= y,
        2 * x + 2 < s.w,
        2 * y + 2 < s.h,
    ensures
        cell(step_approx(s), x, y).raw == a * (2 * x) + b * (2 * y) + d,
        cell(step_bands(s).lh, x, y).raw == 0,
{
    let ah = half_up(s.h);
    lemma_bands_of_step(s, x, y);
    lemma_bands_of_step(s, x, ah + y);
    let c = column_of(s, x);
    let base = a * (2 * x) + d;
    assert forall|j: int| 0 <= j < c.len() implies (#[trigger] c[j]).raw == b * j + base && bounded(
        c[j],
        0x400_0000_0000_0000,
    ) by {
        lemma_row(s, j);
        let row = row_of(s, j);
        assert forall|k: int| 0 <= k < row.len() implies (#[trigger] row[k]).raw == a * k + (b * j
            + d) && bounded(row[k], 0x400_0000_0000_0000) by {
            crate::layout::lemma_place(k, j, s.w, s.h);
            assert(row[k] == cell(s, k, j));
            assert(s.data[j * s.w + k].raw == a * k + b * j + d);
        }
        lemma_slopes_have_no_detail(row, a, b * j + d, x);
        assert(row[2 * x].raw == a * (2 * x) + (b * j + d));
    }
    lemma_slopes_have_no_detail(c, b, base, y);
    lemma_halves(c);
    assert(analyzed(c).skip(ah)[y] == analyzed(c)[ah + y]);
}

} // verus!
