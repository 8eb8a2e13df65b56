//! Separable box filters.
//!
//! Both the windowed focus measure and the guided filter are built out of sliding sums
//! over a square window, so both take constant time per pixel whatever the window size.
//!
//! A running sum is accumulated in one order, one subtraction and one addition per step.
//! Rounded addition is not associative, so this order is part of the result.

use vstd::prelude::*;
use crate::image::{clamp_index, clamped};
use crate::layout::{fill, in_parallel};
use crate::sample::{lemma_wrapped_multiple, lemma_wrapped_sum, wrap, Exact, Fixed, Sample};

verus! {

/// The sum of `count` taps from `from` on, added in ascending order to zero.
pub open spec fn run_sum<S: Sample>(tap: spec_fn(int) -> S, from: int, count: nat) -> S
    decreases count,
{
    if count == 0 {
        S::spec_whole(0)
    } else {
        run_sum(tap, from, (count - 1) as nat).spec_plus(tap(from + count - 1))
    }
}

/// The sliding sum of radius `r` at `i`: the sum around the origin, moved one step at a
/// time by dropping the tap that leaves and adding the one that enters.
pub open spec fn slid<S: Sample>(tap: spec_fn(int) -> S, r: int, i: nat) -> S
    decreases i,
{
    if i == 0 {
        run_sum(tap, -r, (2 * r + 1) as nat)
    } else {
        slid(tap, r, (i - 1) as nat).spec_minus(tap(i - 1 - r)).spec_plus(tap(i + r))
    }
}

/// A plane's sample, with the border repeated outside it.
pub open spec fn bordered<S>(data: Seq<S>, w: int, h: int, x: int, y: int) -> S {
    data[clamped(y, 0, h - 1) * w + clamped(x, 0, w - 1)]
}

/// Sliding sums along every row.
pub open spec fn row_sums<S: Sample>(data: Seq<S>, w: int, h: int, r: int) -> Seq<S> {
    crate::layout::image_of(
        w,
        h,
        1,
        |x: int, y: int, ch: int| slid(|k: int| bordered(data, w, h, k, y), r, x as nat),
    )
}

/// Sliding sums along every row, and then along every column.
pub open spec fn box_sums<S: Sample>(data: Seq<S>, w: int, h: int, r: int) -> Seq<S> {
    let rows = row_sums(data, w, h, r);
    crate::layout::image_of(
        w,
        h,
        1,
        |x: int, y: int, ch: int| slid(|k: int| bordered(rows, w, h, x, k), r, y as nat),
    )
}

/// The plain sum over a square window, edges repeated.
pub open spec fn window_sum<S: Sample>(data: Seq<S>, w: int, h: int, r: int, x: int, y: int) -> S {
    run_sum(
        |v: int| run_sum(|u: int| bordered(data, w, h, u, v), x - r, (2 * r + 1) as nat),
        y - r,
        (2 * r + 1) as nat,
    )
}

/// One sliding sum: the first `n` outputs in order.
fn sliding_sum<S: Sample, F: Fn(i64) -> S>(
    n: usize,
    r: u32,
    tap: F,
    Ghost(g): Ghost<spec_fn(int) -> S>,
) -> (out: Vec<S>)
    requires
        n <= 0x7fff_ffff_ffff,
        forall|k: i64| #[trigger] call_requires(tap, (k,)),
        forall|k: i64, v: S| #[trigger] call_ensures(tap, (k,), v) ==> v == g(k as int),
    ensures
        out@.len() == n,
        forall|i: int| 0 <= i < n ==> #[trigger] out@[i] == slid(g, r as int, i as nat),
{
    let radius: i64 = r as i64;
    let mut acc: S = S::whole(0);
    let mut k: i64 = -radius;
    while k <= radius
        invariant
            radius == r,
            -radius <= k <= radius + 1,
            acc == run_sum(g, -(r as int), (k + radius) as nat),
            forall|k: i64| #[trigger] call_requires(tap, (k,)),
            forall|k: i64, v: S| #[trigger] call_ensures(tap, (k,), v) ==> v == g(k as int),
        decreases radius + 1 - k,
    {
        let v = tap(k);
        acc = acc.plus(v);
        k += 1;
    }
    let mut out: Vec<S> = Vec::with_capacity(n);
    let mut i: usize = 0;
    while i < n
        invariant
            radius == r,
            i <= n <= 0x7fff_ffff_ffff,
            out@.len() == i,
            acc == slid(g, r as int, i as nat),
            forall|j: int| 0 <= j < i ==> #[trigger] out@[j] == slid(g, r as int, j as nat),
            forall|k: i64| #[trigger] call_requires(tap, (k,)),
            forall|k: i64, v: S| #[trigger] call_ensures(tap, (k,), v) ==> v == g(k as int),
        decreases n - i,
    {
        out.push(acc);
        let leaving = tap(i as i64 - radius);
        let entering = tap(i as i64 + radius + 1);
        acc = acc.minus(leaving).plus(entering);
        i += 1;
    }
    out
}

/// The sliding sums of one row.
fn slide_row<S: Sample>(data: &[S], w: usize, h: usize, r: u32, y: usize) -> (out: Vec<S>)
    requires
        0 < w <= 0xffff_ffff,
        0 < h <= 0xffff_ffff,
        y < h,
        data@.len() == w * h,
    ensures
        out@.len() == w,
        forall|x: int|
            0 <= x < w ==> #[trigger] out@[x] == slid(
                |k: int| bordered(data@, w as int, h as int, k, y as int),
                r as int,
                x as nat,
            ),
{
    let ghost g = |k: int| bordered(data@, w as int, h as int, k, y as int);
    assert(data@.len() == data.len());
    sliding_sum(
        w,
        r,
        (|k: i64| -> (v: S)
            ensures
                v == g(k as int),
        {
            let x = clamp_index(k, w);
            proof {
                crate::layout::lemma_place(x as int, y as int, w as int, h as int);
            }
            data[y * w + x]
        }),
        Ghost(g),
    )
}

/// The sliding sums of one column.
fn slide_column<S: Sample>(data: &[S], w: usize, h: usize, r: u32, x: usize) -> (out: Vec<S>)
    requires
        0 < w <= 0xffff_ffff,
        0 < h <= 0xffff_ffff,
        x < w,
        data@.len() == w * h,
    ensures
        out@.len() == h,
        forall|y: int|
            0 <= y < h ==> #[trigger] out@[y] == slid(
                |k: int| bordered(data@, w as int, h as int, x as int, k),
                r as int,
                y as nat,
            ),
{
    let ghost g = |k: int| bordered(data@, w as int, h as int, x as int, k);
    assert(data@.len() == data.len());
    sliding_sum(
        h,
        r,
        (|k: i64| -> (v: S)
            ensures
                v == g(k as int),
        {
            let y = clamp_index(k, h);
            proof {
                crate::layout::lemma_place(x as int, y as int, w as int, h as int);
            }
            data[y * w + x]
        }),
        Ghost(g),
    )
}

/// Sum over a square window of side `2 * radius + 1`, edges replicated.
///
/// Taps outside the plane repeat the border sample. Skipping them instead would shrink
/// the window near the borders, and read as reduced energy along every frame edge.
pub fn box_sum<S: Sample>(data: &[S], width: u32, height: u32, radius: u32) -> (out: Vec<S>)
    requires
        width > 0,
        height > 0,
        data@.len() == width * height,
    ensures
        out@ == box_sums(data@, width as int, height as int, radius as int),
{
    let w = width as usize;
    let h = height as usize;
    let lines = in_parallel(
        h,
        (|y: usize| -> (line: Vec<S>)
            requires
                y < h,
            ensures
                line@.len() == w,
                forall|x: int|
                    0 <= x < w ==> #[trigger] line@[x] == slid(
                        |k: int| bordered(data@, w as int, h as int, k, y as int),
                        radius as int,
                        x as nat,
                    ),
        {
            slide_row(data, w, h, radius, y)
        }),
    );
    let lines_ref = &lines;
    let ghost by_row = |x: int, y: int, ch: int|
        slid(
            |k: int| bordered(data@, w as int, h as int, k, y),
            radius as int,
            x as nat,
        );
    assert(data@.len() == data.len());
    assert(w * 1 == w && w * h * 1 == w * h) by (nonlinear_arith);
    let rows = fill(
        w,
        h,
        1,
        (|x: usize, y: usize, ch: usize| -> (v: S)
            requires
                x < w,
                y < h,
            ensures
                v == by_row(x as int, y as int, ch as int),
        {
            lines_ref[y][x]
        }),
        Ghost(by_row),
    );
    assert(rows@ =~= row_sums(data@, w as int, h as int, radius as int));
    let rows_ref = rows.as_slice();
    let columns = in_parallel(
        w,
        (|x: usize| -> (line: Vec<S>)
            requires
                x < w,
            ensures
                line@.len() == h,
                forall|y: int|
                    0 <= y < h ==> #[trigger] line@[y] == slid(
                        |k: int| bordered(rows_ref@, w as int, h as int, x as int, k),
                        radius as int,
                        y as nat,
                    ),
        {
            slide_column(rows_ref, w, h, radius, x)
        }),
    );
    let columns_ref = &columns;
    let ghost by_column = |x: int, y: int, ch: int|
        slid(
            |k: int| bordered(rows@, w as int, h as int, x, k),
            radius as int,
            y as nat,
        );
    let out = fill(
        w,
        h,
        1,
        (|x: usize, y: usize, ch: usize| -> (v: S)
            requires
                x < w,
                y < h,
            ensures
                v == by_column(x as int, y as int, ch as int),
        {
            columns_ref[x][y]
        }),
        Ghost(by_column),
    );
    assert(out@ =~= box_sums(data@, w as int, h as int, radius as int));
    out
}

/// The factor that turns a window's sum into its mean.
pub open spec fn window_share<S: Sample>(r: int) -> S {
    let count = S::spec_whole((2 * r + 1) as i64);
    S::spec_whole(1).spec_over(count.spec_times(count))
}

/// Means over a square window.
pub open spec fn box_means<S: Sample>(data: Seq<S>, w: int, h: int, r: int) -> Seq<S> {
    box_sums(data, w, h, r).map_values(|v: S| v.spec_times(window_share::<S>(r)))
}

/// Mean over a square window of side `2 * radius + 1`, edges replicated.
pub fn box_mean<S: Sample>(data: &[S], width: u32, height: u32, radius: u32) -> (out: Vec<S>)
    requires
        width > 0,
        height > 0,
        data@.len() == width * height,
    ensures
        out@ == box_means(data@, width as int, height as int, radius as int),
{
    let count = S::whole(2 * radius as i64 + 1);
    let inv = S::whole(1).over(count.times(count));
    let sums = box_sum(data, width, height, radius);
    let mut out: Vec<S> = Vec::with_capacity(sums.len());
    let mut i: usize = 0;
    while i < sums.len()
        invariant
            i <= sums@.len(),
            out@.len() == i,
            inv == window_share::<S>(radius as int),
            forall|j: int| 0 <= j < i ==> #[trigger] out@[j] == sums@[j].spec_times(inv),
        decreases sums@.len() - i,
    {
        out.push(sums[i].times(inv));
        i += 1;
    }
    assert(out@ =~= box_means(data@, width as int, height as int, radius as int));
    out
}

/// The products of two planes, sample by sample.
pub open spec fn products<S: Sample>(a: Seq<S>, b: Seq<S>) -> Seq<S> {
    Seq::new(
        crate::image::smaller(a.len() as int, b.len() as int) as nat,
        |i: int| a[i].spec_times(b[i]),
    )
}

/// Elementwise product, for the covariance terms the guided filter needs. The result is
/// as long as the shorter of the two.
pub fn product<S: Sample>(a: &[S], b: &[S]) -> (out: Vec<S>)
    ensures
        out@ == products(a@, b@),
{
    let n = if a.len() <= b.len() {
        a.len()
    } else {
        b.len()
    };
    let mut out: Vec<S> = Vec::with_capacity(n);
    let mut i: usize = 0;
    while i < n
        invariant
            i <= n,
            n <= a@.len(),
            n <= b@.len(),
            out@.len() == i,
            forall|j: int| 0 <= j < i ==> #[trigger] out@[j] == a@[j].spec_times(b@[j]),
        decreases n - i,
    {
        out.push(a[i].times(b[i]));
        i += 1;
    }
    assert(out@ =~= products(a@, b@));
    out
}

/// A run of exact samples, with its first tap split off.
proof fn lemma_run_from_the_left<S: Exact>(tap: spec_fn(int) -> S, from: int, count: nat)
    requires
        count > 0,
    ensures
        run_sum(tap, from, count) == tap(from).spec_plus(
            run_sum(tap, from + 1, (count - 1) as nat),
        ),
    decreases count,
{
    let zero = S::spec_whole(0);
    if count == 1 {
        assert(run_sum(tap, from, 0) == zero);
        assert(run_sum(tap, from + 1, 0) == zero);
        S::lemma_plus_commutes(zero, tap(from));
    } else {
        let n = (count - 1) as nat;
        lemma_run_from_the_left(tap, from, n);
        let middle = run_sum(tap, from + 1, (n - 1) as nat);
        S::lemma_plus_associates(tap(from), middle, tap(from + count - 1));
        assert(run_sum(tap, from + 1, n) == middle.spec_plus(tap(from + 1 + n - 1)));
        assert(from + 1 + n - 1 == from + count - 1);
    }
}

/// For exact samples a sliding sum is the plain sum of its window.
pub proof fn lemma_slid_is_the_window<S: Exact>(tap: spec_fn(int) -> S, r: int, i: nat)
    requires
        r >= 0,
    ensures
        slid(tap, r, i) == run_sum(tap, i - r, (2 * r + 1) as nat),
    decreases i,
{
    if i > 0 {
        let n = (2 * r + 1) as nat;
        let a = i - 1 - r;
        lemma_slid_is_the_window(tap, r, (i - 1) as nat);
        lemma_run_from_the_left(tap, a, n);
        let rest = run_sum(tap, a + 1, (n - 1) as nat);
        S::lemma_plus_commutes(tap(a), rest);
        S::lemma_plus_minus(rest, tap(a));
        assert(run_sum(tap, a + 1, n) == rest.spec_plus(tap(a + 1 + n - 1)));
        assert(a + 1 + n - 1 == i + r);
        assert(a + 1 == i - r);
    }
}

/// Two taps that agree on a window have the same sum over it.
pub(crate) proof fn lemma_run_agrees<S: Sample>(
    f: spec_fn(int) -> S,
    g: spec_fn(int) -> S,
    from: int,
    count: nat,
)
    requires
        forall|k: int| from <= k < from + count ==> #[trigger] f(k) == g(k),
    ensures
        run_sum(f, from, count) == run_sum(g, from, count),
    decreases count,
{
    if count > 0 {
        lemma_run_agrees(f, g, from, (count - 1) as nat);
        assert(f(from + count - 1) == g(from + count - 1));
    }
}

/// For exact samples a box sum is the plain sum over the window, edges repeated.
pub proof fn lemma_box_sum_is_the_window<S: Exact>(
    data: Seq<S>,
    w: int,
    h: int,
    r: int,
    x: int,
    y: int,
)
    requires
        0 <= x < w,
        0 <= y < h,
        r >= 0,
        data.len() == w * h,
    ensures
        box_sums(data, w, h, r)[y * w + x] == window_sum(data, w, h, r, x, y),
{
    let rows = row_sums(data, w, h, r);
    let n = (2 * r + 1) as nat;
    let down = |k: int| bordered(rows, w, h, x, k);
    let across = |v: int| run_sum(|u: int| bordered(data, w, h, u, v), x - r, n);
    crate::layout::lemma_sample(x, y, 0, w, h, 1);
    assert(box_sums(data, w, h, r)[y * w + x] == slid(down, r, y as nat));
    lemma_slid_is_the_window(down, r, y as nat);
    assert forall|k: int| y - r <= k < y - r + n implies #[trigger] down(k) == across(k) by {
        let v = clamped(k, 0, h - 1);
        crate::layout::lemma_sample(x, v, 0, w, h, 1);
        let along = |u: int| bordered(data, w, h, u, v);
        assert(rows[v * w + x] == slid(along, r, x as nat));
        lemma_slid_is_the_window(along, r, x as nat);
        let other = |u: int| bordered(data, w, h, u, k);
        lemma_run_agrees(along, other, x - r, n);
    }
    lemma_run_agrees(down, across, y - r, n);
}

/// A band of rows of a plane, `n` rows from row `from` on, and the plane itself hold the
/// same samples in rows `lo..hi`.
pub open spec fn agree<S>(
    band: Seq<S>,
    plane: Seq<S>,
    w: int,
    from: int,
    lo: int,
    hi: int,
) -> bool {
    forall|x: int, y: int|
        0 <= x < w && lo <= y < hi ==> #[trigger] band[(y - from) * w + x] == plane[y * w + x]
}

/// The first row whose window of radius `r` stays inside rows that start at `lo`. At the
/// top of the plane there is nothing to stay clear of: band and plane repeat the same row.
pub open spec fn clear_of_top(lo: int, r: int) -> int {
    if lo == 0 {
        0
    } else {
        lo + r
    }
}

/// One past the last row whose window of radius `r` stays inside rows that end at `hi`.
pub open spec fn clear_of_bottom(hi: int, h: int, r: int) -> int {
    if hi == h {
        h
    } else {
        hi - r
    }
}

/// A zone of rows that a band and its plane can agree on: it reaches the band's own edge
/// only where that is the plane's.
pub open spec fn zone(h: int, from: int, n: int, lo: int, hi: int) -> bool {
    &&& 0 <= from
    &&& 0 < n
    &&& from + n <= h
    &&& from <= lo <= hi <= from + n
    &&& (lo == 0 ==> from == 0)
    &&& (hi == h ==> from + n == h)
}

/// A row that a window reaches is in the zone, and band and plane read it at the same
/// place.
proof fn lemma_row_in_zone(h: int, from: int, n: int, lo: int, hi: int, r: int, y: int, v: int)
    requires
        zone(h, from, n, lo, hi),
        r >= 0,
        clear_of_top(lo, r) <= y < clear_of_bottom(hi, h, r),
        y - r <= v <= y + r,
    ensures
        lo <= clamped(v, 0, h - 1) < hi,
        clamped(v - from, 0, n - 1) + from == clamped(v, 0, h - 1),
{
}

/// A plane's samples are local to their windows: where a band and its plane agree, their
/// box sums agree on the rows whose windows stay inside that zone, for exact samples.
pub proof fn lemma_box_sum_is_local<S: Exact>(
    band: Seq<S>,
    plane: Seq<S>,
    w: int,
    h: int,
    from: int,
    n: int,
    lo: int,
    hi: int,
    r: int,
)
    requires
        zone(h, from, n, lo, hi),
        w > 0,
        r >= 0,
        band.len() == w * n,
        plane.len() == w * h,
        agree(band, plane, w, from, lo, hi),
    ensures
        agree(
            box_sums(band, w, n, r),
            box_sums(plane, w, h, r),
            w,
            from,
            clear_of_top(lo, r),
            clear_of_bottom(hi, h, r),
        ),
{
    let (a, b) = (box_sums(band, w, n, r), box_sums(plane, w, h, r));
    let count = (2 * r + 1) as nat;
    assert forall|x: int, y: int|
        0 <= x < w && clear_of_top(lo, r) <= y < clear_of_bottom(hi, h, r) implies #[trigger] a[(y
        - from) * w + x] == b[y * w + x] by {
        lemma_row_in_zone(h, from, n, lo, hi, r, y, y);
        lemma_box_sum_is_the_window(band, w, n, r, x, y - from);
        lemma_box_sum_is_the_window(plane, w, h, r, x, y);
        let here = |v: int| run_sum(|u: int| bordered(plane, w, h, u, v), x - r, count);
        let there = |v: int| run_sum(|u: int| bordered(band, w, n, u, v), x - r, count);
        assert forall|v: int| y - r <= v < y - r + count implies #[trigger] here(v) == there(
            v - from,
        ) by {
            lemma_row_in_zone(h, from, n, lo, hi, r, y, v);
            let f = |u: int| bordered(plane, w, h, u, v);
            let g = |u: int| bordered(band, w, n, u, v - from);
            assert forall|u: int| x - r <= u < x - r + count implies #[trigger] f(u) == g(u) by {
                let (cx, cy) = (clamped(u, 0, w - 1), clamped(v, 0, h - 1));
                assert(band[(cy - from) * w + cx] == plane[cy * w + cx]);
            }
            lemma_run_agrees(f, g, x - r, count);
        }
        lemma_run_moved(here, there, y - r, from, count);
    }
}

/// Two taps that agree up to a shift have the same sum over windows that differ by it.
proof fn lemma_run_moved<S: Sample>(
    f: spec_fn(int) -> S,
    g: spec_fn(int) -> S,
    from: int,
    shift: int,
    count: nat,
)
    requires
        forall|k: int| from <= k < from + count ==> #[trigger] f(k) == g(k - shift),
    ensures
        run_sum(f, from, count) == run_sum(g, from - shift, count),
    decreases count,
{
    if count > 0 {
        lemma_run_moved(f, g, from, shift, (count - 1) as nat);
        assert(f(from + count - 1) == g(from + count - 1 - shift));
    }
}

/// Means are as local as sums.
pub proof fn lemma_box_mean_is_local<S: Exact>(
    band: Seq<S>,
    plane: Seq<S>,
    w: int,
    h: int,
    from: int,
    n: int,
    lo: int,
    hi: int,
    r: int,
)
    requires
        zone(h, from, n, lo, hi),
        w > 0,
        r >= 0,
        band.len() == w * n,
        plane.len() == w * h,
        agree(band, plane, w, from, lo, hi),
    ensures
        agree(
            box_means(band, w, n, r),
            box_means(plane, w, h, r),
            w,
            from,
            clear_of_top(lo, r),
            clear_of_bottom(hi, h, r),
        ),
{
    lemma_box_sum_is_local(band, plane, w, h, from, n, lo, hi, r);
    let (a, b) = (box_sums(band, w, n, r), box_sums(plane, w, h, r));
    assert forall|x: int, y: int|
        0 <= x < w && clear_of_top(lo, r) <= y < clear_of_bottom(hi, h, r) implies #[trigger] box_means(
        band,
        w,
        n,
        r,
    )[(y - from) * w + x] == box_means(plane, w, h, r)[y * w + x] by {
        lemma_row_in_zone(h, from, n, lo, hi, r, y, y);
        crate::layout::lemma_place(x, y, w, h);
        crate::layout::lemma_place(x, y - from, w, n);
        assert(a[(y - from) * w + x] == b[y * w + x]);
    }
}

/// How many samples a window holds.
pub open spec fn window_count(r: int) -> int {
    (2 * r + 1) * (2 * r + 1)
}

/// A run over a constant sums to its multiple.
#[verifier::spinoff_prover]
proof fn lemma_run_of_a_constant(tap: spec_fn(int) -> Fixed, v: Fixed, from: int, n: nat)
    requires
        forall|k: int| #[trigger] tap(k) == v,
    ensures
        run_sum(tap, from, n).raw == wrap(n * v.raw),
    decreases n,
{
    if n == 0 {
        assert(0 * v.raw == 0) by (nonlinear_arith);
    } else {
        let m = (n - 1) as nat;
        lemma_run_of_a_constant(tap, v, from, m);
        assert(tap(from + n - 1) == v);
        lemma_wrapped_sum(m * v.raw, v.raw as int);
        assert(n * v.raw == m * v.raw + v.raw) by (nonlinear_arith)
            requires
                n == m + 1,
        ;
    }
}

/// So does a window that slides over it.
pub(crate) proof fn lemma_slid_over_a_constant(tap: spec_fn(int) -> Fixed, v: Fixed, r: int, i: nat)
    requires
        r >= 0,
        forall|k: int| #[trigger] tap(k) == v,
    ensures
        slid(tap, r, i).raw == wrap((2 * r + 1) * v.raw),
    decreases i,
{
    if i == 0 {
        lemma_run_of_a_constant(tap, v, -r, (2 * r + 1) as nat);
    } else {
        lemma_slid_over_a_constant(tap, v, r, (i - 1) as nat);
        assert(tap(i - 1 - r) == v && tap(i + r) == v);
        Fixed::lemma_minus_plus(slid(tap, r, (i - 1) as nat), v);
    }
}

/// Every window over a constant is full: at the edges as in the middle, it sums to as many
/// of it as a window holds.
pub proof fn lemma_windows_are_full(data: Seq<Fixed>, v: Fixed, w: int, h: int, r: int, i: int)
    requires
        r >= 0,
        w > 0,
        h > 0,
        data.len() == w * h,
        forall|k: int| 0 <= k < w * h ==> #[trigger] data[k] == v,
        0 <= i < w * h,
    ensures
        box_sums(data, w, h, r)[i].raw == wrap(window_count(r) * v.raw),
{
    let m = 2 * r + 1;
    let rows = row_sums(data, w, h, r);
    let along = Fixed { raw: wrap(m * v.raw) };
    assert(w * h * 1 == w * h) by (nonlinear_arith);
    assert forall|k: int| 0 <= k < w * h implies #[trigger] rows[k] == along by {
        crate::layout::lemma_place_of(k, w, h, 1);
        let (x, y) = (crate::layout::column(k, w, 1), crate::layout::row(k, w, 1));
        let tap = |u: int| bordered(data, w, h, u, y);
        assert forall|u: int| #[trigger] tap(u) == v by {
            crate::layout::lemma_place(clamped(u, 0, w - 1), clamped(y, 0, h - 1), w, h);
        }
        lemma_slid_over_a_constant(tap, v, r, x as nat);
    }
    crate::layout::lemma_place_of(i, w, h, 1);
    let (x, y) = (crate::layout::column(i, w, 1), crate::layout::row(i, w, 1));
    let tap = |u: int| bordered(rows, w, h, x, u);
    assert forall|u: int| #[trigger] tap(u) == along by {
        crate::layout::lemma_place(clamped(x, 0, w - 1), clamped(u, 0, h - 1), w, h);
    }
    lemma_slid_over_a_constant(tap, along, r, y as nat);
    lemma_wrapped_multiple(m, m * v.raw);
    assert(m * (m * v.raw) == m * m * v.raw) by (nonlinear_arith);
}

/// The box mean of a constant is that constant, but for what the share of one sample in a
/// window loses to rounding.
#[verifier::spinoff_prover]
pub proof fn lemma_mean_of_a_constant(data: Seq<Fixed>, v: Fixed, w: int, h: int, r: int, i: int)
    requires
        r >= 0,
        w > 0,
        h > 0,
        data.len() == w * h,
        forall|k: int| 0 <= k < w * h ==> #[trigger] data[k] == v,
        0 <= i < w * h,
        v.raw >= 0,
        window_count(r) <= 0x7fff_ffff_ffff,
        window_count(r) * v.raw <= i64::MAX,
    ensures
        ({
            let lost = v.raw - box_means(data, w, h, r)[i].raw;
            0 <= lost && 65536 * lost < window_count(r) * v.raw + 65536
        }),
{
    let n = window_count(r);
    lemma_windows_are_full(data, v, w, h, r, i);
    let sum = box_sums(data, w, h, r)[i];
    let s = 65536int / n;
    assert(n >= 1) by (nonlinear_arith)
        requires
            n == (2 * r + 1) * (2 * r + 1),
            r >= 0,
    ;
    assert(0 <= n * v.raw) by (nonlinear_arith)
        requires
            n >= 1,
            v.raw >= 0,
    ;
    assert(sum.raw == n * v.raw);
    assert(Fixed::spec_whole(1).raw == 65536);
    let m = 2 * r + 1;
    assert(m <= n) by (nonlinear_arith)
        requires
            n == m * m,
            m >= 1,
    ;
    let side = Fixed::spec_whole(m as i64);
    assert(side.raw == m * 65536);
    assert((m * 65536) * (m * 65536) == n * 65536 * 65536) by (nonlinear_arith)
        requires
            n == m * m,
    ;
    assert(side.spec_times(side).raw == n * 65536);
    assert((65536int * 65536) / (n * 65536) == s && 0 <= s <= 65536 && n * s <= 65536 && 65536
        < n * s + n) by (nonlinear_arith)
        requires
            n >= 1,
            s == 65536int / n,
    ;
    assert(window_share::<Fixed>(r).raw == s);
    let mean = (n * v.raw * s) / 65536;
    assert(n * v.raw * s == v.raw * (n * s)) by (nonlinear_arith);
    assert(v.raw * (n * s) <= v.raw * 65536 <= v.raw * (n * s) + n * v.raw) by (nonlinear_arith)
        requires
            v.raw >= 0,
            n * s <= 65536 <= n * s + n,
    ;
    assert(0 <= v.raw * (n * s)) by (nonlinear_arith)
        requires
            v.raw >= 0,
            n >= 1,
            s >= 0,
    ;
    assert(0 <= mean <= v.raw);
    assert(box_means(data, w, h, r)[i].raw == mean);
}

} // verus!
