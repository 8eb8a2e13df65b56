//! How far an error in what is left of a decomposition travels when the sheet is rebuilt.
//!
//! It does not grow. Undoing an update moves an even sample by as much as its coefficient is
//! off, and undoing a prediction moves an odd one by the mean of what its neighbours moved.

use vstd::prelude::*;
use crate::image::{clamped, half_up};
use crate::plane::{cell, lemma_cell, lemma_sheet_size, whole_sheet, Sheet};
use crate::sample::{lemma_wrapped_sum, wrap, Fixed, Sample};
use crate::wavelet::{
    analyzed, details_of, evens_of, flipped, forward_approx, forward_bands, half, joined,
    lemma_finest_is_undone_last, lemma_flip_size, lemma_flip_twice, lemma_halves,
    lemma_odd_neighbours, lemma_quadrants_join, lemma_row, lemma_row_taken, lemma_rows_size,
    lemma_rows_undone, lemma_step_size, lift, mirrored, prediction, quarter,
    rebuilt, row_of, rows_taken, step_approx, step_bands, step_undone, synthesized,
    transformed, Pass,
};

verus! {

/// Are two samples within `e` steps of each other?
pub open spec fn close(a: Fixed, b: Fixed, e: int) -> bool {
    -e <= a.raw - b.raw <= e
}

/// Is a sample within `m` steps of zero?
pub open spec fn small(v: Fixed, m: int) -> bool {
    -m <= v.raw <= m
}

proof fn lemma_parts()
    ensures
        half::<Fixed>().raw == 32768,
        quarter::<Fixed>().raw == 16384,
{
    assert(Fixed::spec_whole(1).raw == 65536);
    assert(Fixed::spec_whole(2).raw == 131072);
    assert(Fixed::spec_whole(4).raw == 262144);
}

/// What two samples that are close are added to leaves them close.
#[verifier::spinoff_prover]
proof fn lemma_sum_stays_close(t: Fixed, a: Fixed, b: Fixed, e: int, m: int)
    requires
        close(b, a, e),
        small(t.spec_plus(a), m),
        0 <= e,
        e + m <= 0x2000_0000_0000_0000,
    ensures
        close(t.spec_plus(b), t.spec_plus(a), e),
{
    let d = b.raw - a.raw;
    lemma_wrapped_sum(t.raw + a.raw, d);
    assert(t.raw + b.raw == (t.raw + a.raw) + d);
    let s = t.spec_plus(a).raw as int;
    assert(wrap(s + d) == s + d);
}

/// What is taken off two samples that are close leaves them close.
#[verifier::spinoff_prover]
proof fn lemma_difference_stays_close(a: Fixed, b: Fixed, t: Fixed, e: int, m: int)
    requires
        close(b, a, e),
        small(a.spec_minus(t), m),
        0 <= e,
        e + m <= 0x2000_0000_0000_0000,
    ensures
        close(b.spec_minus(t), a.spec_minus(t), e),
{
    let d = b.raw - a.raw;
    lemma_wrapped_sum(a.raw - t.raw, d);
    assert(b.raw - t.raw == (a.raw - t.raw) + d);
    let s = a.spec_minus(t).raw as int;
    assert(wrap(s + d) == s + d);
}

/// The mean of two small samples.
#[verifier::spinoff_prover]
proof fn lemma_mean(a: Fixed, b: Fixed, m: int)
    requires
        small(a, m),
        small(b, m),
        m <= 0x2000_0000_0000_0000,
    ensures
        half::<Fixed>().spec_times(a.spec_plus(b)).raw == (a.raw + b.raw) / 2,
{
    lemma_parts();
    let s = a.spec_plus(b);
    assert(s.raw == a.raw + b.raw);
    let v = s.raw as int;
    assert((32768 * v) / 65536 == v / 2);
}

/// The means of samples that are close are close.
#[verifier::spinoff_prover]
proof fn lemma_means_stay_close(a: Fixed, b: Fixed, p: Fixed, q: Fixed, e: int, m: int)
    requires
        small(a, m),
        small(b, m),
        close(p, a, e),
        close(q, b, e),
        0 <= e,
        e + m <= 0x2000_0000_0000_0000,
    ensures
        close(
            half::<Fixed>().spec_times(p.spec_plus(q)),
            half::<Fixed>().spec_times(a.spec_plus(b)),
            e,
        ),
{
    lemma_mean(a, b, m);
    lemma_mean(p, q, m + e);
}

/// Rebuilding a signal from coefficients whose low-pass half is off by some steps gives the
/// signal, off by no more.
#[verifier::spinoff_prover]
proof fn lemma_signal_stays_close(c: Seq<Fixed>, b: Seq<Fixed>, e: int, m: int)
    requires
        c.len() == b.len(),
        0 <= e,
        0 <= m,
        e + m <= 0x2000_0000_0000_0000,
        forall|i: int| 0 <= i < half_up(c.len() as int) ==> close(#[trigger] b[i], c[i], e),
        forall|i: int| half_up(c.len() as int) <= i < c.len() ==> #[trigger] b[i] == c[i],
        forall|i: int| 0 <= i < c.len() ==> small(#[trigger] synthesized(c)[i], m),
    ensures
        synthesized(b).len() == c.len(),
        forall|i: int|
            0 <= i < c.len() ==> close(#[trigger] synthesized(b)[i], synthesized(c)[i], e),
{
    let n = c.len() as int;
    if n >= 2 {
        let na = half_up(n);
        assert(c.skip(na) =~= b.skip(na));
        let (x, y) = (synthesized(c), synthesized(b));
        let (p, q) = (evens_of(c), evens_of(b));
        assert forall|i: int| 0 <= i < na implies close(#[trigger] q[i], p[i], e) && small(
            p[i],
            m,
        ) by {
            assert(x[2 * i] == p[i]);
            assert(close(b[i], c[i], e));
            lemma_difference_stays_close(c[i], b[i], lift(c.skip(na), i), e, m);
        }
        assert forall|i: int| 0 <= i < n implies close(#[trigger] y[i], x[i], e) by {
            if i % 2 == 0 {
                assert(close(q[i / 2], p[i / 2], e));
            } else {
                lemma_odd_neighbours(i, n);
                let (l, r) = (mirrored(i - 1, n) / 2, mirrored(i + 1, n) / 2);
                assert(close(q[l], p[l], e) && close(q[r], p[r], e));
                lemma_means_stay_close(p[l], p[r], q[l], q[r], e, m);
                let (u, v) = (
                    half::<Fixed>().spec_times(p[l].spec_plus(p[r])),
                    half::<Fixed>().spec_times(q[l].spec_plus(q[r])),
                );
                let d = c[na + i / 2];
                assert(b[na + i / 2] == d);
                assert(x[i] == d.spec_plus(u) && y[i] == d.spec_plus(v));
                lemma_sum_stays_close(d, u, v, e, m);
            }
        }
    }
}

/// Are all samples of a sheet within `m` steps of zero?
pub open spec fn all_small(s: Sheet<Fixed>, m: int) -> bool {
    forall|x: int, y: int| 0 <= x < s.w && 0 <= y < s.h ==> small(#[trigger] cell(s, x, y), m)
}

/// Are two sheets of one size, with samples within `e` steps of each other?
pub open spec fn all_close(a: Sheet<Fixed>, b: Sheet<Fixed>, e: int) -> bool {
    &&& whole_sheet(a)
    &&& whole_sheet(b)
    &&& a.w == b.w
    &&& a.h == b.h
    &&& forall|x: int, y: int|
        0 <= x < a.w && 0 <= y < a.h ==> close(#[trigger] cell(a, x, y), cell(b, x, y), e)
}

/// Rebuilding the rows of a sheet whose low-pass columns are off by some steps gives the
/// sheet, off by no more. Rows that are not off come back as they were.
proof fn lemma_rows_stay_close(a: Sheet<Fixed>, b: Sheet<Fixed>, e: int, m: int)
    requires
        all_close(b, a, e),
        0 <= e,
        0 <= m,
        e + m <= 0x2000_0000_0000_0000,
        forall|x: int, y: int|
            half_up(a.w) <= x < a.w && 0 <= y < a.h ==> #[trigger] cell(b, x, y) == cell(a, x, y),
        all_small(rows_taken(Pass::Synthesis, a), m),
    ensures
        all_close(rows_taken(Pass::Synthesis, b), rows_taken(Pass::Synthesis, a), e),
        forall|x: int, y: int|
            0 <= x < a.w && 0 <= y < a.h && row_of(b, y) == row_of(a, y) ==> #[trigger] cell(
                rows_taken(Pass::Synthesis, b),
                x,
                y,
            ) == cell(rows_taken(Pass::Synthesis, a), x, y),
{
    let (p, q) = (rows_taken(Pass::Synthesis, a), rows_taken(Pass::Synthesis, b));
    lemma_rows_size(Pass::Synthesis, a);
    lemma_rows_size(Pass::Synthesis, b);
    assert forall|x: int, y: int| 0 <= x < a.w && 0 <= y < a.h implies close(
        #[trigger] cell(q, x, y),
        cell(p, x, y),
        e,
    ) && (row_of(b, y) == row_of(a, y) ==> cell(q, x, y) == cell(p, x, y)) by {
        let (u, v) = (row_of(a, y), row_of(b, y));
        lemma_row(a, y);
        lemma_row(b, y);
        lemma_row_taken(Pass::Synthesis, a, y);
        lemma_row_taken(Pass::Synthesis, b, y);
        lemma_row(p, y);
        lemma_row(q, y);
        assert(row_of(p, y)[x] == cell(p, x, y));
        assert(row_of(q, y)[x] == cell(q, x, y));
        assert forall|i: int| 0 <= i < half_up(u.len() as int) implies close(
            #[trigger] v[i],
            u[i],
            e,
        ) by {
            assert(u[i] == cell(a, i, y));
            assert(v[i] == cell(b, i, y));
        }
        assert forall|i: int| half_up(u.len() as int) <= i < u.len() implies #[trigger] v[i]
            == u[i] by {
            assert(u[i] == cell(a, i, y));
            assert(v[i] == cell(b, i, y));
        }
        assert forall|i: int| 0 <= i < u.len() implies small(
            #[trigger] synthesized(u)[i],
            m,
        ) by {
            assert(row_of(p, y)[i] == cell(p, i, y));
        }
        lemma_signal_stays_close(u, v, e, m);
        assert(close(synthesized(v)[x], synthesized(u)[x], e));
    }
}

/// Undoing a step from an approximation that is off by some steps gives the sheet, off by no
/// more.
proof fn lemma_step_stays_close(s: Sheet<Fixed>, approx: Sheet<Fixed>, e: int, m: int)
    requires
        whole_sheet(s),
        all_close(approx, step_approx(s), e),
        0 <= e,
        0 <= m,
        e + m <= 0x2000_0000_0000_0000,
        all_small(s, m),
        all_small(rows_taken(Pass::Analysis, s), m),
    ensures
        all_close(step_undone(approx, step_bands(s)), s, e),
{
    let bands = step_bands(s);
    let (aw, ah) = (half_up(s.w), half_up(s.h));
    let rows = rows_taken(Pass::Analysis, s);
    let (j, k) = (joined(step_approx(s), bands), joined(approx, bands));
    let (f, g) = (flipped(j), flipped(k));
    lemma_step_size(s);
    lemma_quadrants_join(s);
    lemma_rows_size(Pass::Analysis, s);
    lemma_flip_size(rows);
    lemma_rows_size(Pass::Analysis, flipped(rows));
    lemma_flip_twice(rows_taken(Pass::Analysis, flipped(rows)));
    lemma_rows_undone(flipped(rows));
    lemma_flip_twice(rows);
    lemma_rows_undone(s);
    assert(rows_taken(Pass::Synthesis, f) == flipped(rows));
    lemma_flip_size(j);
    lemma_joined_size(s, approx);
    lemma_flip_size(k);
    assert forall|x: int, y: int| 0 <= x < f.w && 0 <= y < f.h implies close(
        #[trigger] cell(g, x, y),
        cell(f, x, y),
        e,
    ) && (x >= ah || y >= aw ==> cell(g, x, y) == cell(f, x, y)) by {
        lemma_cell(k.h, k.w, |x: int, y: int| cell(k, y, x), x, y);
        lemma_cell(j.h, j.w, |x: int, y: int| cell(j, y, x), x, y);
        lemma_joined_cell(s, approx, e, y, x);
    }
    assert forall|x: int, y: int| 0 <= x < f.w && 0 <= y < f.h implies small(
        #[trigger] cell(rows_taken(Pass::Synthesis, f), x, y),
        m,
    ) by {
        lemma_cell(rows.h, rows.w, |x: int, y: int| cell(rows, y, x), x, y);
        assert(small(cell(rows, y, x), m));
    }
    lemma_rows_stay_close(f, g, e, m);
    let (p, q) = (rows_taken(Pass::Synthesis, f), rows_taken(Pass::Synthesis, g));
    lemma_flip_size(q);
    let low = flipped(q);
    assert forall|x: int, y: int| 0 <= x < s.w && 0 <= y < s.h implies close(
        #[trigger] cell(low, x, y),
        cell(rows, x, y),
        e,
    ) && (x >= aw ==> cell(low, x, y) == cell(rows, x, y)) by {
        lemma_cell(q.h, q.w, |x: int, y: int| cell(q, y, x), x, y);
        lemma_cell(rows.h, rows.w, |x: int, y: int| cell(rows, y, x), y, x);
        assert(close(cell(q, y, x), cell(p, y, x), e));
        if x >= aw {
            lemma_row(f, x);
            lemma_row(g, x);
            assert forall|i: int| 0 <= i < f.w implies row_of(g, x)[i] == row_of(f, x)[i] by {
                assert(row_of(g, x)[i] == cell(g, i, x));
                assert(row_of(f, x)[i] == cell(f, i, x));
            }
            assert(row_of(g, x) =~= row_of(f, x));
        }
    }
    lemma_rows_stay_close(rows, low, e, m);
}

/// Quadrants around an approximation of the step's size make a sheet of the step's size.
proof fn lemma_joined_size(s: Sheet<Fixed>, approx: Sheet<Fixed>)
    requires
        whole_sheet(s),
        approx.w == half_up(s.w),
        approx.h == half_up(s.h),
    ensures
        whole_sheet(joined(approx, step_bands(s))),
        joined(approx, step_bands(s)).w == s.w,
        joined(approx, step_bands(s)).h == s.h,
{
    let b = step_bands(s);
    lemma_sheet_size(
        s.w,
        s.h,
        |x: int, y: int|
            if x < approx.w {
                if y < approx.h {
                    cell(approx, x, y)
                } else {
                    cell(b.lh, x, y - approx.h)
                }
            } else {
                if y < approx.h {
                    cell(b.hl, x - approx.w, y)
                } else {
                    cell(b.hh, x - approx.w, y - approx.h)
                }
            },
    );
}

/// A sample of joined quadrants is off only where the approximation is.
proof fn lemma_joined_cell(s: Sheet<Fixed>, approx: Sheet<Fixed>, e: int, x: int, y: int)
    requires
        whole_sheet(s),
        all_close(approx, step_approx(s), e),
        0 <= e,
        0 <= x < s.w,
        0 <= y < s.h,
    ensures
        close(
            cell(joined(approx, step_bands(s)), x, y),
            cell(joined(step_approx(s), step_bands(s)), x, y),
            e,
        ),
        x >= half_up(s.w) || y >= half_up(s.h) ==> cell(joined(approx, step_bands(s)), x, y)
            == cell(joined(step_approx(s), step_bands(s)), x, y),
{
    let b = step_bands(s);
    let a = step_approx(s);
    lemma_cell(
        s.w,
        s.h,
        |x: int, y: int|
            if x < approx.w {
                if y < approx.h {
                    cell(approx, x, y)
                } else {
                    cell(b.lh, x, y - approx.h)
                }
            } else {
                if y < approx.h {
                    cell(b.hl, x - approx.w, y)
                } else {
                    cell(b.hh, x - approx.w, y - approx.h)
                }
            },
        x,
        y,
    );
    lemma_cell(
        s.w,
        s.h,
        |x: int, y: int|
            if x < a.w {
                if y < a.h {
                    cell(a, x, y)
                } else {
                    cell(b.lh, x, y - a.h)
                }
            } else {
                if y < a.h {
                    cell(b.hl, x - a.w, y)
                } else {
                    cell(b.hh, x - a.w, y - a.h)
                }
            },
        x,
        y,
    );
    if x < a.w && y < a.h {
        assert(close(cell(approx, x, y), cell(a, x, y), e));
    }
}

/// A signal's coefficients are at most twice as far from zero as its samples.
proof fn lemma_analysis_doubles(x: Seq<Fixed>, m: int)
    requires
        0 <= m <= 0x800_0000_0000_0000,
        forall|i: int| 0 <= i < x.len() ==> small(#[trigger] x[i], m),
    ensures
        analyzed(x).len() == x.len(),
        forall|i: int| 0 <= i < x.len() ==> small(#[trigger] analyzed(x)[i], 2 * m),
{
    let n = x.len() as int;
    if n >= 2 {
        lemma_halves(x);
        let d = details_of(x);
        let na = half_up(n);
        assert forall|i: int| 0 <= i < d.len() implies small(#[trigger] d[i], 2 * m) by {
            lemma_odd_neighbours(2 * i + 1, n);
            let (l, r) = (x[mirrored(2 * i, n)], x[mirrored(2 * i + 2, n)]);
            lemma_mean(l, r, m);
            let guess = prediction(x, i);
            assert(small(guess, m));
            assert(x[2 * i + 1].spec_minus(guess).raw == x[2 * i + 1].raw - guess.raw);
        }
        assert forall|i: int| 0 <= i < n implies small(#[trigger] analyzed(x)[i], 2 * m) by {
            if i < na {
                let (l, r) = (
                    d[clamped(i - 1, 0, d.len() - 1)],
                    d[clamped(i, 0, d.len() - 1)],
                );
                assert(small(l, 2 * m) && small(r, 2 * m));
                lemma_quarter(l, r, 2 * m);
                let up = lift(d, i);
                assert(small(up, m));
                assert(x[2 * i].spec_plus(up).raw == x[2 * i].raw + up.raw);
            } else {
                assert(analyzed(x)[i] == d[i - na]);
            }
        }
    }
}

/// A quarter of the sum of two small samples.
#[verifier::spinoff_prover]
proof fn lemma_quarter(a: Fixed, b: Fixed, m: int)
    requires
        small(a, m),
        small(b, m),
        m <= 0x2000_0000_0000_0000,
    ensures
        quarter::<Fixed>().spec_times(a.spec_plus(b)).raw == (a.raw + b.raw) / 4,
{
    lemma_parts();
    let s = a.spec_plus(b);
    assert(s.raw == a.raw + b.raw);
    let v = s.raw as int;
    assert((16384 * v) / 65536 == v / 4);
}

/// The coefficients of a sheet's rows are at most twice as far from zero as its samples.
proof fn lemma_rows_double(s: Sheet<Fixed>, m: int)
    requires
        whole_sheet(s),
        0 <= m <= 0x800_0000_0000_0000,
        all_small(s, m),
    ensures
        all_small(rows_taken(Pass::Analysis, s), 2 * m),
{
    let t = rows_taken(Pass::Analysis, s);
    lemma_rows_size(Pass::Analysis, s);
    assert forall|x: int, y: int| 0 <= x < t.w && 0 <= y < t.h implies small(
        #[trigger] cell(t, x, y),
        2 * m,
    ) by {
        let u = row_of(s, y);
        lemma_row(s, y);
        lemma_row_taken(Pass::Analysis, s, y);
        lemma_row(t, y);
        assert(row_of(t, y)[x] == cell(t, x, y));
        assert forall|i: int| 0 <= i < u.len() implies small(#[trigger] u[i], m) by {
            assert(u[i] == cell(s, i, y));
        }
        lemma_analysis_doubles(u, m);
    }
}

/// What is left of a sheet after a step is at most four times as far from zero.
proof fn lemma_step_grows(s: Sheet<Fixed>, m: int)
    requires
        whole_sheet(s),
        0 <= m <= 0x400_0000_0000_0000,
        all_small(s, m),
    ensures
        all_small(rows_taken(Pass::Analysis, s), 2 * m),
        all_small(step_approx(s), 4 * m),
{
    let rows = rows_taken(Pass::Analysis, s);
    lemma_rows_double(s, m);
    lemma_rows_size(Pass::Analysis, s);
    let f = flipped(rows);
    lemma_flip_size(rows);
    assert forall|x: int, y: int| 0 <= x < f.w && 0 <= y < f.h implies small(
        #[trigger] cell(f, x, y),
        2 * m,
    ) by {
        lemma_cell(rows.h, rows.w, |x: int, y: int| cell(rows, y, x), x, y);
        assert(small(cell(rows, y, x), 2 * m));
    }
    lemma_rows_double(f, 2 * m);
    let g = rows_taken(Pass::Analysis, f);
    let t = transformed(s);
    let a = step_approx(s);
    assert forall|x: int, y: int| 0 <= x < a.w && 0 <= y < a.h implies small(
        #[trigger] cell(a, x, y),
        4 * m,
    ) by {
        lemma_cell(a.w, a.h, |x: int, y: int| cell(t, 0 + x, 0 + y), x, y);
        lemma_cell(g.h, g.w, |x: int, y: int| cell(g, y, x), x, y);
        assert(small(cell(g, y, x), 4 * m));
    }
}

/// How far from zero what is left may be after some steps.
pub open spec fn grown(m: int, levels: nat) -> int
    decreases levels,
{
    if levels == 0 {
        m
    } else {
        grown(4 * m, (levels - 1) as nat)
    }
}

proof fn lemma_grown(m: int, levels: nat)
    requires
        0 <= m,
    ensures
        m <= grown(m, levels),
    decreases levels,
{
    if levels > 0 {
        lemma_grown(4 * m, (levels - 1) as nat);
    }
}

/// No more steps than some leave no more room to grow.
pub(crate) proof fn lemma_grown_less(m: int, levels: nat, more: nat)
    requires
        0 <= m,
        levels <= more,
    ensures
        grown(m, levels) <= grown(m, more),
    decreases levels,
{
    if levels == 0 {
        lemma_grown(m, more);
    } else {
        lemma_grown_less(4 * m, (levels - 1) as nat, (more - 1) as nat);
    }
}

/// Rebuilding a sheet from what is left of it, off by some steps, gives the sheet, off by no
/// more: errors do not grow on the way back.
pub proof fn lemma_rebuilding_stays_close(
    s: Sheet<Fixed>,
    levels: nat,
    approx: Sheet<Fixed>,
    e: int,
    m: int,
)
    requires
        whole_sheet(s),
        all_small(s, m),
        all_close(approx, forward_approx(s, levels), e),
        0 <= e,
        0 <= m,
        grown(m, levels) <= 0x400_0000_0000_0000,
        e <= 0x1000_0000_0000_0000,
    ensures
        all_close(rebuilt(forward_bands(s, levels), approx), s, e),
    decreases levels,
{
    if !(levels == 0 || s.w < 2 || s.h < 2) {
        let n = (levels - 1) as nat;
        let a = step_approx(s);
        lemma_grown(m, levels);
        lemma_step_size(s);
        lemma_step_grows(s, m);
        lemma_rebuilding_stays_close(a, n, approx, e, 4 * m);
        lemma_finest_is_undone_last(step_bands(s), forward_bands(a, n), approx);
        assert(all_small(s, 2 * m));
        lemma_step_stays_close(s, rebuilt(forward_bands(a, n), approx), e, 2 * m);
    }
}

} // verus!
