//! What a box sum is: the sum of every sample of a square window, each once, with the border
//! repeated outside the plane.

use vstd::prelude::*;
use crate::filter::{bordered, box_sums, lemma_box_sum_is_the_window, run_sum, window_sum};
use crate::image::clamped;
use crate::sample::{lemma_wrapped_sum, wrap, Fixed, Sample};

verus! {

/// A sample of a plane in steps, with the border repeated outside it.
pub open spec fn level_at(data: Seq<Fixed>, w: int, h: int, x: int, y: int) -> int {
    data[clamped(y, 0, h - 1) * w + clamped(x, 0, w - 1)].raw as int
}

/// The levels of a plane.
pub open spec fn levels_in(data: Seq<Fixed>, w: int, h: int) -> spec_fn(int, int) -> int {
    |x: int, y: int| level_at(data, w, h, x, y)
}

/// The sum of `n` levels along a row, from column `x` on.
pub open spec fn row_total(f: spec_fn(int, int) -> int, x: int, y: int, n: nat) -> int
    decreases n,
{
    if n == 0 {
        0
    } else {
        row_total(f, x, y, (n - 1) as nat) + f(x + n - 1, y)
    }
}

/// The sum of the levels in a rectangle of `nx` columns and `ny` rows.
pub open spec fn block_sum(f: spec_fn(int, int) -> int, x: int, y: int, nx: nat, ny: nat) -> int
    decreases ny,
{
    if ny == 0 {
        0
    } else {
        block_sum(f, x, y, nx, (ny - 1) as nat) + row_total(f, x, y + ny - 1, nx)
    }
}

/// The levels around a pixel, at most `r` columns and rows away, added up.
pub open spec fn around(f: spec_fn(int, int) -> int, x: int, y: int, r: int) -> int {
    block_sum(f, x - r, y - r, (2 * r + 1) as nat, (2 * r + 1) as nat)
}

proof fn lemma_run_is_total(
    tap: spec_fn(int) -> Fixed,
    f: spec_fn(int, int) -> int,
    x: int,
    y: int,
    n: nat,
)
    requires
        forall|k: int| (#[trigger] tap(k)).raw == f(k, y),
    ensures
        run_sum(tap, x, n).raw == wrap(row_total(f, x, y, n)),
    decreases n,
{
    if n > 0 {
        let m = (n - 1) as nat;
        lemma_run_is_total(tap, f, x, y, m);
        lemma_wrapped_sum(row_total(f, x, y, m), f(x + n - 1, y));
        assert(tap(x + n - 1).raw == f(x + n - 1, y));
    }
}

proof fn lemma_runs_are_totals(
    rows: spec_fn(int) -> Fixed,
    f: spec_fn(int, int) -> int,
    x: int,
    y: int,
    nx: nat,
    ny: nat,
)
    requires
        forall|v: int| (#[trigger] rows(v)).raw == wrap(row_total(f, x, v, nx)),
    ensures
        run_sum(rows, y, ny).raw == wrap(block_sum(f, x, y, nx, ny)),
    decreases ny,
{
    if ny > 0 {
        let m = (ny - 1) as nat;
        lemma_runs_are_totals(rows, f, x, y, nx, m);
        let (a, b) = (block_sum(f, x, y, nx, m), row_total(f, x, y + ny - 1, nx));
        assert(rows(y + ny - 1).raw == wrap(b));
        lemma_wrapped_sum(a, wrap(b) as int);
        lemma_wrapped_sum(b, a);
        assert(a + b == b + a);
    }
}

/// A box sum is the sum of every sample of the square window around its pixel: no more than
/// `r` columns and `r` rows away, each once, with the border repeated. It wraps around where
/// that leaves the number range.
pub proof fn lemma_a_box_sum_is_its_window(
    data: Seq<Fixed>,
    w: int,
    h: int,
    r: int,
    x: int,
    y: int,
)
    requires
        0 <= x < w,
        0 <= y < h,
        r >= 0,
        data.len() == w * h,
    ensures
        box_sums(data, w, h, r)[y * w + x].raw == wrap(around(levels_in(data, w, h), x, y, r)),
{
    let n = (2 * r + 1) as nat;
    let f = levels_in(data, w, h);
    lemma_box_sum_is_the_window(data, w, h, r, x, y);
    let rows = |v: int| run_sum(|u: int| bordered(data, w, h, u, v), x - r, n);
    assert forall|v: int| (#[trigger] rows(v)).raw == wrap(row_total(f, x - r, v, n)) by {
        let tap = |u: int| bordered(data, w, h, u, v);
        lemma_run_is_total(tap, f, x - r, v, n);
    }
    lemma_runs_are_totals(rows, f, x - r, y - r, n, n);
    assert(window_sum(data, w, h, r, x, y) == run_sum(rows, y - r, n));
}

/// Adding up by columns comes to the same as adding up by rows.
pub proof fn lemma_blocks_turn(
    f: spec_fn(int, int) -> int,
    g: spec_fn(int, int) -> int,
    x: int,
    y: int,
    nx: nat,
    ny: nat,
)
    requires
        forall|u: int, v: int| #[trigger] g(v, u) == f(u, v),
    ensures
        block_sum(g, y, x, ny, nx) == block_sum(f, x, y, nx, ny),
    decreases nx,
{
    if nx == 0 {
        lemma_no_columns(f, x, y, ny);
    } else {
        let m = (nx - 1) as nat;
        lemma_blocks_turn(f, g, x, y, m, ny);
        lemma_last_column(f, g, x, y, nx, ny);
    }
}

proof fn lemma_no_columns(f: spec_fn(int, int) -> int, x: int, y: int, ny: nat)
    ensures
        block_sum(f, x, y, 0, ny) == 0,
    decreases ny,
{
    if ny > 0 {
        lemma_no_columns(f, x, y, (ny - 1) as nat);
    }
}

proof fn lemma_last_column(
    f: spec_fn(int, int) -> int,
    g: spec_fn(int, int) -> int,
    x: int,
    y: int,
    nx: nat,
    ny: nat,
)
    requires
        nx > 0,
        forall|u: int, v: int| #[trigger] g(v, u) == f(u, v),
    ensures
        block_sum(f, x, y, nx, ny) == block_sum(f, x, y, (nx - 1) as nat, ny) + row_total(
            g,
            y,
            x + nx - 1,
            ny,
        ),
    decreases ny,
{
    if ny > 0 {
        lemma_last_column(f, g, x, y, nx, (ny - 1) as nat);
        assert(g(y + ny - 1, x + nx - 1) == f(x + nx - 1, y + ny - 1));
    }
}

/// Is a plane another with its rows and columns exchanged?
pub open spec fn exchanged(a: Seq<Fixed>, b: Seq<Fixed>, w: int, h: int) -> bool {
    &&& a.len() == w * h
    &&& b.len() == w * h
    &&& forall|x: int, y: int|
        0 <= x < w && 0 <= y < h ==> #[trigger] b[x * h + y] == a[y * w + x]
}

pub(crate) proof fn lemma_exchanged_levels(
    a: Seq<Fixed>,
    b: Seq<Fixed>,
    w: int,
    h: int,
    x: int,
    y: int,
)
    requires
        exchanged(a, b, w, h),
        0 < w,
        0 < h,
    ensures
        level_at(b, h, w, y, x) == level_at(a, w, h, x, y),
        bordered(b, h, w, y, x) == bordered(a, w, h, x, y),
{
    let (u, v) = (clamped(x, 0, w - 1), clamped(y, 0, h - 1));
    assert(b[u * h + v] == a[v * w + u]);
}

/// A box sum prefers no axis: with rows and columns exchanged, the sums have theirs exchanged.
pub proof fn lemma_box_sums_prefer_no_axis(
    a: Seq<Fixed>,
    b: Seq<Fixed>,
    w: int,
    h: int,
    r: int,
    x: int,
    y: int,
)
    requires
        exchanged(a, b, w, h),
        0 <= x < w,
        0 <= y < h,
        r >= 0,
    ensures
        box_sums(b, h, w, r)[x * h + y] == box_sums(a, w, h, r)[y * w + x],
{
    assert(w * h == h * w) by (nonlinear_arith);
    lemma_a_box_sum_is_its_window(a, w, h, r, x, y);
    lemma_a_box_sum_is_its_window(b, h, w, r, y, x);
    let (f, g) = (levels_in(a, w, h), levels_in(b, h, w));
    assert forall|u: int, v: int| #[trigger] g(v, u) == f(u, v) by {
        lemma_exchanged_levels(a, b, w, h, u, v);
    }
    let n = (2 * r + 1) as nat;
    lemma_blocks_turn(f, g, x - r, y - r, n, n);
}

/// Levels that are never negative add up to at least any one of them, and to nothing only
/// where all of them are nothing.
pub(crate) proof fn lemma_block_of_levels(
    f: spec_fn(int, int) -> int,
    x: int,
    y: int,
    nx: nat,
    ny: nat,
    u: int,
    v: int,
    most: int,
)
    requires
        forall|i: int, j: int| 0 <= #[trigger] f(i, j) <= most,
        x <= u < x + nx,
        y <= v < y + ny,
    ensures
        f(u, v) <= block_sum(f, x, y, nx, ny),
    decreases ny,
{
    lemma_block_bounds(f, x, y, nx, (ny - 1) as nat, most);
    lemma_row_bounds(f, x, y + ny - 1, nx, most);
    if v == y + ny - 1 {
        lemma_row_of_levels(f, x, v, nx, u, most);
    } else {
        lemma_block_of_levels(f, x, y, nx, (ny - 1) as nat, u, v, most);
    }
}

proof fn lemma_row_of_levels(
    f: spec_fn(int, int) -> int,
    x: int,
    y: int,
    nx: nat,
    u: int,
    most: int,
)
    requires
        forall|i: int, j: int| 0 <= #[trigger] f(i, j) <= most,
        x <= u < x + nx,
    ensures
        f(u, y) <= row_total(f, x, y, nx),
    decreases nx,
{
    lemma_row_bounds(f, x, y, (nx - 1) as nat, most);
    assert(0 <= f(x + nx - 1, y));
    if u < x + nx - 1 {
        lemma_row_of_levels(f, x, y, (nx - 1) as nat, u, most);
    }
}

pub(crate) proof fn lemma_row_bounds(
    f: spec_fn(int, int) -> int,
    x: int,
    y: int,
    nx: nat,
    most: int,
)
    requires
        forall|i: int, j: int| 0 <= #[trigger] f(i, j) <= most,
    ensures
        0 <= row_total(f, x, y, nx) <= nx * most,
    decreases nx,
{
    if nx > 0 {
        lemma_row_bounds(f, x, y, (nx - 1) as nat, most);
        assert(0 <= f(x + nx - 1, y) <= most);
        assert(nx * most == (nx - 1) * most + most) by (nonlinear_arith);
    } else {
        assert(0 * most == 0) by (nonlinear_arith);
    }
}

pub(crate) proof fn lemma_block_bounds(
    f: spec_fn(int, int) -> int,
    x: int,
    y: int,
    nx: nat,
    ny: nat,
    most: int,
)
    requires
        forall|i: int, j: int| 0 <= #[trigger] f(i, j) <= most,
    ensures
        0 <= block_sum(f, x, y, nx, ny) <= ny * (nx * most),
    decreases ny,
{
    if ny > 0 {
        lemma_block_bounds(f, x, y, nx, (ny - 1) as nat, most);
        lemma_row_bounds(f, x, y + ny - 1, nx, most);
        assert(ny * (nx * most) == (ny - 1) * (nx * most) + nx * most) by (nonlinear_arith);
    } else {
        assert(0 * (nx * most) == 0) by (nonlinear_arith);
    }
}

/// Blocks of levels that are equal have the same sum.
pub(crate) proof fn lemma_blocks_agree(
    f: spec_fn(int, int) -> int,
    g: spec_fn(int, int) -> int,
    x: int,
    y: int,
    nx: nat,
    ny: nat,
)
    requires
        forall|u: int, v: int|
            x <= u < x + nx && y <= v < y + ny ==> #[trigger] f(u, v) == g(u, v),
    ensures
        block_sum(f, x, y, nx, ny) == block_sum(g, x, y, nx, ny),
    decreases ny,
{
    if ny > 0 {
        lemma_blocks_agree(f, g, x, y, nx, (ny - 1) as nat);
        lemma_rows_agree(f, g, x, y + ny - 1, nx);
    }
}

proof fn lemma_rows_agree(
    f: spec_fn(int, int) -> int,
    g: spec_fn(int, int) -> int,
    x: int,
    y: int,
    nx: nat,
)
    requires
        forall|u: int| x <= u < x + nx ==> #[trigger] f(u, y) == g(u, y),
    ensures
        row_total(f, x, y, nx) == row_total(g, x, y, nx),
    decreases nx,
{
    if nx > 0 {
        lemma_rows_agree(f, g, x, y, (nx - 1) as nat);
        assert(f(x + nx - 1, y) == g(x + nx - 1, y));
    }
}

} // verus!
