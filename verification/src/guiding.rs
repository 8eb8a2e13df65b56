//! What the guided filter does with its input: it is linear in it.

use vstd::prelude::*;
use crate::filter::{box_means, box_sums, products, window_count, window_share};
use crate::image::clamped;
use crate::layout::{lemma_column_and_row, lemma_place};
use crate::rounding::{
    bounded, lemma_difference, lemma_part, lemma_product_of, lemma_sum, lemma_whole,
};
use crate::sample::{Fixed, Sample};
use crate::sensing::evenly_bounded;
use crate::weights::{guided, intercepts, slopes};
use crate::windows::{
    around, block_sum, lemma_a_box_sum_is_its_window, lemma_block_bounds, levels_in, row_total,
};

verus! {

/// Quotients that are rounded down, of a sum and of its parts: where the sum is off by `k`,
/// between `lo` and `hi` divisors, its quotient is off by no less than `lo` and by no more
/// than `hi` and one.
proof fn lemma_floors(a: int, b: int, k: int, d: int, lo: int, hi: int)
    requires
        0 < d,
        lo * d <= k <= hi * d,
    ensures
        lo <= (a + b + k) / d - a / d - b / d <= hi + 1,
{
    let (p, q) = (a / d, b / d);
    let s = (a + b + k) / d;
    vstd::arithmetic::div_mod::lemma_fundamental_div_mod(a, d);
    vstd::arithmetic::div_mod::lemma_fundamental_div_mod(b, d);
    vstd::arithmetic::div_mod::lemma_fundamental_div_mod(a + b + k, d);
    vstd::arithmetic::div_mod::lemma_mod_bound(a, d);
    vstd::arithmetic::div_mod::lemma_mod_bound(b, d);
    vstd::arithmetic::div_mod::lemma_mod_bound(a + b + k, d);
    let t = s - p - q;
    let rest = a % d + b % d + k - (a + b + k) % d;
    assert(d * t == rest) by (nonlinear_arith)
        requires
            a == d * p + a % d,
            b == d * q + b % d,
            a + b + k == d * s + (a + b + k) % d,
            t == s - p - q,
            rest == a % d + b % d + k - (a + b + k) % d,
    ;
    let (l, u) = (lo * d, hi * d);
    assert(lo <= t <= hi + 1) by (nonlinear_arith)
        requires
            d * t == rest,
            0 < d,
            l == lo * d,
            u == hi * d,
            l - d < rest < u + 2 * d,
    ;
}

/// Totals of a row of levels, where those of one plane are the sums of those of two others,
/// off by between `lo` and `hi`.
proof fn lemma_row_adds_up(
    f: spec_fn(int, int) -> int,
    g: spec_fn(int, int) -> int,
    s: spec_fn(int, int) -> int,
    x: int,
    y: int,
    n: nat,
    lo: int,
    hi: int,
)
    requires
        forall|u: int, v: int| lo <= #[trigger] s(u, v) - f(u, v) - g(u, v) <= hi,
    ensures
        n * lo <= row_total(s, x, y, n) - row_total(f, x, y, n) - row_total(g, x, y, n) <= n * hi,
    decreases n,
{
    if n > 0 {
        lemma_row_adds_up(f, g, s, x, y, (n - 1) as nat, lo, hi);
        let u = x + n - 1;
        assert(lo <= s(u, y) - f(u, y) - g(u, y) <= hi);
        assert(n * lo == (n - 1) * lo + lo) by (nonlinear_arith);
        assert(n * hi == (n - 1) * hi + hi) by (nonlinear_arith);
    } else {
        assert(0 * lo == 0 && 0 * hi == 0) by (nonlinear_arith);
    }
}

proof fn lemma_block_adds_up(
    f: spec_fn(int, int) -> int,
    g: spec_fn(int, int) -> int,
    s: spec_fn(int, int) -> int,
    x: int,
    y: int,
    nx: nat,
    ny: nat,
    lo: int,
    hi: int,
)
    requires
        forall|u: int, v: int| lo <= #[trigger] s(u, v) - f(u, v) - g(u, v) <= hi,
    ensures
        ny * (nx * lo) <= block_sum(s, x, y, nx, ny) - block_sum(f, x, y, nx, ny) - block_sum(
            g,
            x,
            y,
            nx,
            ny,
        ) <= ny * (nx * hi),
    decreases ny,
{
    if ny > 0 {
        lemma_block_adds_up(f, g, s, x, y, nx, (ny - 1) as nat, lo, hi);
        lemma_row_adds_up(f, g, s, x, y + ny - 1, nx, lo, hi);
        assert(ny * (nx * lo) == (ny - 1) * (nx * lo) + nx * lo) by (nonlinear_arith);
        assert(ny * (nx * hi) == (ny - 1) * (nx * hi) + nx * hi) by (nonlinear_arith);
    } else {
        assert(0 * (nx * lo) == 0 && 0 * (nx * hi) == 0) by (nonlinear_arith);
    }
}

/// The total of a block of levels that are at most `m` from zero.
proof fn lemma_block_is_bounded(f: spec_fn(int, int) -> int, x: int, y: int, nx: nat, ny: nat, m: int)
    requires
        forall|u: int, v: int| -m <= #[trigger] f(u, v) <= m,
    ensures
        -(ny * (nx * m)) <= block_sum(f, x, y, nx, ny) <= ny * (nx * m),
{
    let zero = |u: int, v: int| 0int;
    assert forall|u: int, v: int| -m <= #[trigger] f(u, v) - zero(u, v) - zero(u, v) <= m by {}
    lemma_block_adds_up(zero, zero, f, x, y, nx, ny, -m, m);
    lemma_block_of_nothing(x, y, nx, ny);
    assert(ny * (nx * -m) == -(ny * (nx * m))) by (nonlinear_arith);
}

proof fn lemma_row_of_nothing(x: int, y: int, n: nat)
    ensures
        row_total(|u: int, v: int| 0int, x, y, n) == 0,
    decreases n,
{
    if n > 0 {
        lemma_row_of_nothing(x, y, (n - 1) as nat);
    }
}

proof fn lemma_block_of_nothing(x: int, y: int, nx: nat, ny: nat)
    ensures
        block_sum(|u: int, v: int| 0int, x, y, nx, ny) == 0,
    decreases ny,
{
    if ny > 0 {
        lemma_block_of_nothing(x, y, nx, (ny - 1) as nat);
        lemma_row_of_nothing(x, y + ny - 1, nx);
    }
}

/// The share of one sample in a window, in steps.
pub open spec fn share_steps(r: int) -> int {
    65536int / window_count(r)
}

#[verifier::spinoff_prover]
proof fn lemma_share(r: int)
    requires
        0 <= r <= 127,
    ensures
        window_share::<Fixed>(r).raw == share_steps(r),
        1 <= window_count(r) <= 0x1_0000,
        0 <= share_steps(r) <= 65536,
        0 <= window_count(r) * share_steps(r) <= 65536,
{
    let m = 2 * r + 1;
    let n = window_count(r);
    assert(1 <= n <= 65025) by (nonlinear_arith)
        requires
            n == m * m,
            1 <= m <= 255,
    ;
    let side = Fixed::spec_whole(m as i64);
    lemma_whole(m);
    lemma_whole(1);
    assert((m * 65536) * (m * 65536) == (n * 65536) * 65536) by (nonlinear_arith)
        requires
            n == m * m,
    ;
    lemma_product_of(side, side);
    assert(side.spec_times(side).raw == n * 65536);
    assert((65536int * 65536) / (n * 65536) == 65536int / n) by {
        vstd::arithmetic::div_mod::lemma_div_denominator(65536int * 65536int, 65536, n);
        assert(65536 * n == n * 65536);
    }
    let s = 65536int / n;
    vstd::arithmetic::div_mod::lemma_fundamental_div_mod(65536, n);
    vstd::arithmetic::div_mod::lemma_mod_bound(65536, n);
    assert(0 <= s <= 65536 && 0 <= n * s <= 65536) by (nonlinear_arith)
        requires
            65536 == n * s + 65536int % n,
            0 <= 65536int % n < n,
            1 <= n,
    ;
}

/// The mean over a window is the sum over it times the share, rounded down.
#[verifier::spinoff_prover]
proof fn lemma_mean_is_the_share(data: Seq<Fixed>, w: int, h: int, r: int, x: int, y: int, m: int)
    requires
        data.len() == w * h,
        0 <= x < w,
        0 <= y < h,
        0 <= r <= 127,
        evenly_bounded(data, m),
        0 <= m <= 0x2000_0000_0000,
    ensures
        box_means(data, w, h, r)[y * w + x].raw == (around(levels_in(data, w, h), x, y, r)
            * share_steps(r)) / 65536,
        bounded(box_means(data, w, h, r)[y * w + x], m + 1),
        box_means(data, w, h, r).len() == w * h,
{
    let f = levels_in(data, w, h);
    assert forall|u: int, v: int| -m <= #[trigger] f(u, v) <= m by {
        lemma_place(clamped(u, 0, w - 1), clamped(v, 0, h - 1), w, h);
    }
    let n = (2 * r + 1) as nat;
    let all = around(f, x, y, r);
    let count = window_count(r);
    lemma_block_is_bounded(f, x - r, y - r, n, n, m);
    lemma_share(r);
    assert(n * (n * m) == count * m) by (nonlinear_arith)
        requires
            count == n * n,
    ;
    assert(count * m <= 0x2000_0000_0000_0000) by (nonlinear_arith)
        requires
            0 <= count <= 0x1_0000,
            0 <= m <= 0x2000_0000_0000,
    ;
    lemma_a_box_sum_is_its_window(data, w, h, r, x, y);
    lemma_place(x, y, w, h);
    assert(w * h * 1 == w * h) by (nonlinear_arith);
    let sum = box_sums(data, w, h, r)[y * w + x];
    assert(sum.raw == all);
    let s = share_steps(r);
    let p = all * s;
    assert(-65536 * m <= p <= 65536 * m) by (nonlinear_arith)
        requires
            p == all * s,
            -(count * m) <= all <= count * m,
            0 <= s,
            0 <= count * s <= 65536,
            0 <= m,
    ;
    lemma_product_of(sum, window_share::<Fixed>(r));
}

/// Are the samples of one plane the sums of those of two others, off by between `lo` and `hi`
/// steps?
pub open spec fn adds_up(
    a: Seq<Fixed>,
    b: Seq<Fixed>,
    s: Seq<Fixed>,
    lo: int,
    hi: int,
) -> bool {
    &&& a.len() == s.len()
    &&& b.len() == s.len()
    &&& forall|i: int| 0 <= i < s.len() ==> lo <= (#[trigger] s[i]).raw - a[i].raw - b[i].raw <= hi
}

/// The means of a sum of planes are the sums of their means.
proof fn lemma_means_add_up(
    a: Seq<Fixed>,
    b: Seq<Fixed>,
    s: Seq<Fixed>,
    w: int,
    h: int,
    r: int,
    m: int,
    lo: int,
    hi: int,
)
    requires
        0 < w,
        0 < h,
        s.len() == w * h,
        adds_up(a, b, s, lo, hi),
        lo <= 0 <= hi,
        0 <= r <= 127,
        0 <= m <= 0x2000_0000_0000,
        evenly_bounded(a, m),
        evenly_bounded(b, m),
        evenly_bounded(s, m),
    ensures
        adds_up(
            box_means(a, w, h, r),
            box_means(b, w, h, r),
            box_means(s, w, h, r),
            lo,
            hi + 1,
        ),
        box_means(s, w, h, r).len() == w * h,
        evenly_bounded(box_means(a, w, h, r), m + 1),
        evenly_bounded(box_means(b, w, h, r), m + 1),
        evenly_bounded(box_means(s, w, h, r), m + 1),
{
    lemma_mean_is_the_share(a, w, h, r, 0, 0, m);
    lemma_mean_is_the_share(b, w, h, r, 0, 0, m);
    lemma_mean_is_the_share(s, w, h, r, 0, 0, m);
    let (p, q, t) = (box_means(a, w, h, r), box_means(b, w, h, r), box_means(s, w, h, r));
    assert forall|i: int| 0 <= i < t.len() implies lo <= (#[trigger] t[i]).raw - p[i].raw - q[i].raw
        <= hi + 1 && bounded(p[i], m + 1) && bounded(q[i], m + 1) && bounded(t[i], m + 1) by {
        lemma_column_and_row(i, w, h);
        lemma_mean_adds_up(a, b, s, w, h, r, m, lo, hi, i % w, i / w);
    }
    assert forall|i: int| 0 <= i < p.len() implies bounded(#[trigger] p[i], m + 1) by {
        assert(bounded(t[i], m + 1));
    }
    assert forall|i: int| 0 <= i < q.len() implies bounded(#[trigger] q[i], m + 1) by {
        assert(bounded(t[i], m + 1));
    }
}

proof fn lemma_mean_adds_up(
    a: Seq<Fixed>,
    b: Seq<Fixed>,
    s: Seq<Fixed>,
    w: int,
    h: int,
    r: int,
    m: int,
    lo: int,
    hi: int,
    x: int,
    y: int,
)
    requires
        0 <= x < w,
        0 <= y < h,
        s.len() == w * h,
        adds_up(a, b, s, lo, hi),
        lo <= 0 <= hi,
        0 <= r <= 127,
        0 <= m <= 0x2000_0000_0000,
        evenly_bounded(a, m),
        evenly_bounded(b, m),
        evenly_bounded(s, m),
    ensures
        lo <= box_means(s, w, h, r)[y * w + x].raw - box_means(a, w, h, r)[y * w + x].raw
            - box_means(b, w, h, r)[y * w + x].raw <= hi + 1,
        bounded(box_means(a, w, h, r)[y * w + x], m + 1),
        bounded(box_means(b, w, h, r)[y * w + x], m + 1),
        bounded(box_means(s, w, h, r)[y * w + x], m + 1),
{
    lemma_mean_is_the_share(a, w, h, r, x, y, m);
    lemma_mean_is_the_share(b, w, h, r, x, y, m);
    lemma_mean_is_the_share(s, w, h, r, x, y, m);
    lemma_share(r);
    let (f, g, k) = (levels_in(a, w, h), levels_in(b, w, h), levels_in(s, w, h));
    assert forall|u: int, v: int| lo <= #[trigger] k(u, v) - f(u, v) - g(u, v) <= hi by {
        lemma_place(clamped(u, 0, w - 1), clamped(v, 0, h - 1), w, h);
    }
    let n = (2 * r + 1) as nat;
    lemma_block_adds_up(f, g, k, x - r, y - r, n, n, lo, hi);
    let (p, q, t) = (around(f, x, y, r), around(g, x, y, r), around(k, x, y, r));
    let (e, c, d) = (t - p - q, window_count(r), share_steps(r));
    assert(n * (n * lo) == c * lo && n * (n * hi) == c * hi) by (nonlinear_arith)
        requires
            c == n * n,
    ;
    assert(lo * 65536 <= e * d <= hi * 65536) by (nonlinear_arith)
        requires
            c * lo <= e <= c * hi,
            0 <= d,
            0 <= c * d <= 65536,
            lo <= 0 <= hi,
    ;
    lemma_floors(p * d, q * d, e * d, 65536, lo, hi);
    assert(p * d + q * d + e * d == t * d) by (nonlinear_arith)
        requires
            e == t - p - q,
    ;
}

/// Is a guide between zero and one everywhere?
pub open spec fn unit_guide(guide: Seq<Fixed>) -> bool {
    forall|i: int| 0 <= i < guide.len() ==> 0 <= (#[trigger] guide[i]).raw <= 65536
}

/// Products with a number between zero and one, of a sum and of its parts.
proof fn lemma_parts_add_up(g: Fixed, a: Fixed, b: Fixed, s: Fixed, m: int, lo: int, hi: int)
    requires
        0 <= g.raw <= 65536,
        bounded(a, m),
        bounded(b, m),
        bounded(s, m),
        0 <= m <= 0x1000_0000_0000_0000,
        lo <= 0 <= hi,
        lo <= s.raw - a.raw - b.raw <= hi,
    ensures
        lo <= g.spec_times(s).raw - g.spec_times(a).raw - g.spec_times(b).raw <= hi + 1,
        lo <= s.spec_times(g).raw - a.spec_times(g).raw - b.spec_times(g).raw <= hi + 1,
        bounded(g.spec_times(a), m),
        bounded(g.spec_times(b), m),
        bounded(g.spec_times(s), m),
        bounded(a.spec_times(g), m),
        bounded(b.spec_times(g), m),
        bounded(s.spec_times(g), m),
{
    lemma_part(a, g, m);
    lemma_part(b, g, m);
    lemma_part(s, g, m);
    let v = g.raw as int;
    let e = s.raw - a.raw - b.raw;
    assert(lo * 65536 <= e * v <= hi * 65536) by (nonlinear_arith)
        requires
            0 <= v <= 65536,
            lo <= e <= hi,
            lo <= 0 <= hi,
    ;
    lemma_floors(a.raw * v, b.raw * v, e * v, 65536, lo, hi);
    assert(a.raw * v + b.raw * v + e * v == s.raw * v) by (nonlinear_arith)
        requires
            e == s.raw - a.raw - b.raw,
    ;
}

proof fn lemma_products_add_up(
    guide: Seq<Fixed>,
    a: Seq<Fixed>,
    b: Seq<Fixed>,
    s: Seq<Fixed>,
    m: int,
)
    requires
        unit_guide(guide),
        guide.len() == s.len(),
        adds_up(a, b, s, 0, 0),
        evenly_bounded(a, m),
        evenly_bounded(b, m),
        evenly_bounded(s, m),
        0 <= m <= 0x1000_0000_0000_0000,
    ensures
        adds_up(products(guide, a), products(guide, b), products(guide, s), 0, 1),
        evenly_bounded(products(guide, a), m),
        evenly_bounded(products(guide, b), m),
        evenly_bounded(products(guide, s), m),
        products(guide, s).len() == s.len(),
{
    assert forall|i: int| 0 <= i < s.len() implies 0 <= #[trigger] guide[i].spec_times(s[i]).raw
        - guide[i].spec_times(a[i]).raw - guide[i].spec_times(b[i]).raw <= 1 && bounded(
        guide[i].spec_times(a[i]),
        m,
    ) && bounded(guide[i].spec_times(b[i]), m) && bounded(guide[i].spec_times(s[i]), m) by {
        assert(s[i].raw - a[i].raw - b[i].raw == 0);
        lemma_parts_add_up(guide[i], a[i], b[i], s[i], m, 0, 0);
    }
    let (p, q, t) = (products(guide, a), products(guide, b), products(guide, s));
    assert forall|i: int| 0 <= i < t.len() implies 0 <= (#[trigger] t[i]).raw - p[i].raw - q[i].raw
        <= 1 && bounded(t[i], m) by {
        assert(guide[i].spec_times(s[i]).raw - guide[i].spec_times(a[i]).raw - guide[i].spec_times(
            b[i],
        ).raw >= 0);
    }
    assert forall|i: int| 0 <= i < p.len() implies bounded(#[trigger] p[i], m) by {
        assert(guide[i].spec_times(s[i]).raw - guide[i].spec_times(a[i]).raw - guide[i].spec_times(
            b[i],
        ).raw >= 0);
    }
    assert forall|i: int| 0 <= i < q.len() implies bounded(#[trigger] q[i], m) by {
        assert(guide[i].spec_times(s[i]).raw - guide[i].spec_times(a[i]).raw - guide[i].spec_times(
            b[i],
        ).raw >= 0);
    }
}

/// The variance of the guide in each window, with the regularization added.
pub open spec fn regularized(
    guide: Seq<Fixed>,
    w: int,
    h: int,
    r: int,
    epsilon: Fixed,
) -> Seq<Fixed> {
    let mean = box_means(guide, w, h, r);
    let square = box_means(products(guide, guide), w, h, r);
    Seq::new(
        guide.len(),
        |i: int| square[i].spec_minus(mean[i].spec_times(mean[i])).spec_plus(epsilon),
    )
}

/// How far a slope may be from the sum of two, in steps, where the regularized variance is at
/// least `d`.
pub open spec fn slope_error(d: int) -> int {
    131072int / d + 1
}

proof fn lemma_unit_mean(guide: Seq<Fixed>, w: int, h: int, r: int, i: int)
    requires
        0 < w,
        0 < h,
        guide.len() == w * h,
        unit_guide(guide),
        0 <= r <= 127,
        0 <= i < w * h,
    ensures
        0 <= box_means(guide, w, h, r)[i].raw <= 65536,
{
    lemma_column_and_row(i, w, h);
    let (x, y) = (i % w, i / w);
    lemma_mean_is_the_share(guide, w, h, r, x, y, 65536);
    lemma_share(r);
    let f = levels_in(guide, w, h);
    assert forall|u: int, v: int| 0 <= #[trigger] f(u, v) <= 65536 by {
        lemma_place(clamped(u, 0, w - 1), clamped(v, 0, h - 1), w, h);
    }
    let n = (2 * r + 1) as nat;
    lemma_block_bounds(f, x - r, y - r, n, n, 65536);
    let (all, c, d) = (around(f, x, y, r), window_count(r), share_steps(r));
    assert(n * (n * 65536) == c * 65536) by (nonlinear_arith)
        requires
            c == n * n,
    ;
    assert(0 <= all * d <= 65536 * 65536) by (nonlinear_arith)
        requires
            0 <= all <= c * 65536,
            0 <= d,
            0 <= c * d <= 65536,
    ;
}

/// The slope of a sum is close to the sum of the slopes.
#[verifier::spinoff_prover]
proof fn lemma_slope_adds_up(
    mean: Fixed,
    d: Fixed,
    ca: Fixed,
    cb: Fixed,
    cs: Fixed,
    ma: Fixed,
    mb: Fixed,
    ms: Fixed,
    least: int,
)
    requires
        0 <= mean.raw <= 65536,
        1 <= least <= d.raw,
        bounded(ca, 0x10_0001),
        bounded(cb, 0x10_0001),
        bounded(cs, 0x10_0001),
        bounded(ma, 0x10_0001),
        bounded(mb, 0x10_0001),
        bounded(ms, 0x10_0001),
        0 <= cs.raw - ca.raw - cb.raw <= 2,
        0 <= ms.raw - ma.raw - mb.raw <= 1,
    ensures
        ({
            let sa = ca.spec_minus(mean.spec_times(ma)).spec_over(d);
            let sb = cb.spec_minus(mean.spec_times(mb)).spec_over(d);
            let ss = cs.spec_minus(mean.spec_times(ms)).spec_over(d);
            &&& -slope_error(least) <= ss.raw - sa.raw - sb.raw <= slope_error(least) + 1
            &&& bounded(sa, 0x40_0000_0000)
            &&& bounded(sb, 0x40_0000_0000)
            &&& bounded(ss, 0x40_0000_0000)
        }),
{
    let m = 0x10_0001int;
    lemma_parts_add_up(mean, ma, mb, ms, m, 0, 1);
    let (pa, pb, ps) = (mean.spec_times(ma), mean.spec_times(mb), mean.spec_times(ms));
    lemma_difference(ca, pa);
    lemma_difference(cb, pb);
    lemma_difference(cs, ps);
    let (va, vb, vs) = (ca.spec_minus(pa), cb.spec_minus(pb), cs.spec_minus(ps));
    let e = vs.raw - va.raw - vb.raw;
    assert(-2 <= e <= 2);
    let (n, k) = (d.raw as int, slope_error(least));
    assert(k * n >= 131072) by {
        let q = 131072int / least;
        vstd::arithmetic::div_mod::lemma_fundamental_div_mod(131072, least);
        vstd::arithmetic::div_mod::lemma_mod_bound(131072, least);
        assert(k * n >= 131072) by (nonlinear_arith)
            requires
                131072 == least * q + 131072int % least,
                0 <= 131072int % least < least,
                k == q + 1,
                0 <= q,
                1 <= least <= n,
        ;
    }
    let t = k * n;
    assert((-k) * n == -t) by (nonlinear_arith)
        requires
            t == k * n,
    ;
    lemma_floors(va.raw * 65536, vb.raw * 65536, e * 65536, n, -k, k);
    assert(va.raw * 65536 + vb.raw * 65536 + e * 65536 == vs.raw * 65536);
    lemma_quotient(va, d);
    lemma_quotient(vb, d);
    lemma_quotient(vs, d);
}

/// A small number over a positive one.
#[verifier::spinoff_prover]
proof fn lemma_quotient(v: Fixed, d: Fixed)
    requires
        bounded(v, 0x40_0000),
        1 <= d.raw,
    ensures
        v.spec_over(d).raw == (v.raw * 65536) / d.raw as int,
        bounded(v.spec_over(d), 0x40_0000_0000),
{
    let (a, n) = (v.raw * 65536, d.raw as int);
    let q = a / n;
    vstd::arithmetic::div_mod::lemma_fundamental_div_mod(a, n);
    vstd::arithmetic::div_mod::lemma_mod_bound(a, n);
    assert(-0x40_0000_0000 <= q <= 0x40_0000_0000) by (nonlinear_arith)
        requires
            a == n * q + a % n,
            0 <= a % n < n,
            1 <= n,
            -0x40_0000_0000 <= a <= 0x40_0000_0000,
    ;
}

/// The slopes of a sum of inputs are close to the sums of their slopes.
proof fn lemma_slopes_add_up(
    guide: Seq<Fixed>,
    a: Seq<Fixed>,
    b: Seq<Fixed>,
    s: Seq<Fixed>,
    w: int,
    h: int,
    r: int,
    epsilon: Fixed,
    least: int,
)
    requires
        workable(guide, a, b, s, w, h, r, epsilon, least),
    ensures
        adds_up(
            slopes(guide, a, w, h, r, epsilon),
            slopes(guide, b, w, h, r, epsilon),
            slopes(guide, s, w, h, r, epsilon),
            -slope_error(least),
            slope_error(least) + 1,
        ),
        evenly_bounded(slopes(guide, a, w, h, r, epsilon), 0x40_0000_0000),
        evenly_bounded(slopes(guide, b, w, h, r, epsilon), 0x40_0000_0000),
        evenly_bounded(slopes(guide, s, w, h, r, epsilon), 0x40_0000_0000),
{
    let m = 0x10_0000int;
    lemma_products_add_up(guide, a, b, s, m);
    let (pa, pb, ps) = (products(guide, a), products(guide, b), products(guide, s));
    lemma_means_add_up(pa, pb, ps, w, h, r, m, 0, 1);
    lemma_means_add_up(a, b, s, w, h, r, m, 0, 0);
    let (ca, cb, cs) = (box_means(pa, w, h, r), box_means(pb, w, h, r), box_means(ps, w, h, r));
    let (ma, mb, ms) = (box_means(a, w, h, r), box_means(b, w, h, r), box_means(s, w, h, r));
    let mean = box_means(guide, w, h, r);
    let d = regularized(guide, w, h, r, epsilon);
    let (sa, sb, ss) = (
        slopes(guide, a, w, h, r, epsilon),
        slopes(guide, b, w, h, r, epsilon),
        slopes(guide, s, w, h, r, epsilon),
    );
    let k = slope_error(least);
    assert forall|i: int| 0 <= i < guide.len() implies -k <= (#[trigger] ss[i]).raw - sa[i].raw
        - sb[i].raw <= k + 1 && bounded(sa[i], 0x40_0000_0000) && bounded(sb[i], 0x40_0000_0000)
        && bounded(ss[i], 0x40_0000_0000) by {
        lemma_unit_mean(guide, w, h, r, i);
        assert(least <= d[i].raw);
        assert(0 <= cs[i].raw - ca[i].raw - cb[i].raw <= 2);
        assert(0 <= ms[i].raw - ma[i].raw - mb[i].raw <= 1);
        assert(bounded(ca[i], m + 1) && bounded(cb[i], m + 1) && bounded(cs[i], m + 1));
        assert(bounded(ma[i], m + 1) && bounded(mb[i], m + 1) && bounded(ms[i], m + 1));
        lemma_slope_adds_up(mean[i], d[i], ca[i], cb[i], cs[i], ma[i], mb[i], ms[i], least);
    }
    assert forall|i: int| 0 <= i < sa.len() implies bounded(#[trigger] sa[i], 0x40_0000_0000) by {
        assert(bounded(ss[i], 0x40_0000_0000));
    }
    assert forall|i: int| 0 <= i < sb.len() implies bounded(#[trigger] sb[i], 0x40_0000_0000) by {
        assert(bounded(ss[i], 0x40_0000_0000));
    }
}

/// A unit guide, two inputs and their sum, of one size, with a window of at most 255 pixels
/// across and a regularized variance of at least `least` steps everywhere.
pub open spec fn workable(
    guide: Seq<Fixed>,
    a: Seq<Fixed>,
    b: Seq<Fixed>,
    s: Seq<Fixed>,
    w: int,
    h: int,
    r: int,
    epsilon: Fixed,
    least: int,
) -> bool {
    &&& 0 < w
    &&& 0 < h
    &&& 0 <= r <= 127
    &&& guide.len() == w * h
    &&& s.len() == w * h
    &&& unit_guide(guide)
    &&& adds_up(a, b, s, 0, 0)
    &&& evenly_bounded(a, 0x10_0000)
    &&& evenly_bounded(b, 0x10_0000)
    &&& evenly_bounded(s, 0x10_0000)
    &&& 1 <= least
    &&& forall|i: int|
        0 <= i < w * h ==> least <= (#[trigger] regularized(guide, w, h, r, epsilon)[i]).raw
}

/// The intercept of a sum is close to the sum of the intercepts.
#[verifier::spinoff_prover]
proof fn lemma_intercept_adds_up(
    mean: Fixed,
    sa: Fixed,
    sb: Fixed,
    ss: Fixed,
    ma: Fixed,
    mb: Fixed,
    ms: Fixed,
    k: int,
)
    requires
        0 <= mean.raw <= 65536,
        0 <= k,
        bounded(sa, 0x40_0000_0000),
        bounded(sb, 0x40_0000_0000),
        bounded(ss, 0x40_0000_0000),
        bounded(ma, 0x10_0001),
        bounded(mb, 0x10_0001),
        bounded(ms, 0x10_0001),
        -k <= ss.raw - sa.raw - sb.raw <= k + 1,
        0 <= ms.raw - ma.raw - mb.raw <= 1,
    ensures
        ({
            let ia = ma.spec_minus(sa.spec_times(mean));
            let ib = mb.spec_minus(sb.spec_times(mean));
            let is = ms.spec_minus(ss.spec_times(mean));
            &&& -(k + 2) <= is.raw - ia.raw - ib.raw <= k + 1
            &&& bounded(ia, 0x80_0000_0000)
            &&& bounded(ib, 0x80_0000_0000)
            &&& bounded(is, 0x80_0000_0000)
        }),
{
    lemma_parts_add_up(mean, sa, sb, ss, 0x40_0000_0000, -k, k + 1);
    lemma_difference(ma, sa.spec_times(mean));
    lemma_difference(mb, sb.spec_times(mean));
    lemma_difference(ms, ss.spec_times(mean));
}

/// The filter is linear in its input: filtering the sum of two inputs gives the sum of what
/// filtering each gives, but for the rounding. Where the regularized variance is at least
/// `least` steps, that is at most `2 * (131072 / least) + 7` steps.
pub proof fn lemma_the_guided_filter_is_linear(
    guide: Seq<Fixed>,
    a: Seq<Fixed>,
    b: Seq<Fixed>,
    s: Seq<Fixed>,
    w: int,
    h: int,
    r: int,
    epsilon: Fixed,
    least: int,
    i: int,
)
    requires
        workable(guide, a, b, s, w, h, r, epsilon, least),
        0 <= i < w * h,
    ensures
        ({
            let off = guided(guide, s, w, h, r, epsilon)[i].raw - guided(
                guide,
                a,
                w,
                h,
                r,
                epsilon,
            )[i].raw - guided(guide, b, w, h, r, epsilon)[i].raw;
            -(2 * (131072int / least) + 7) <= off <= 2 * (131072int / least) + 7
        }),
{
    let k = slope_error(least);
    let (sa, sb, ss) = (
        slopes(guide, a, w, h, r, epsilon),
        slopes(guide, b, w, h, r, epsilon),
        slopes(guide, s, w, h, r, epsilon),
    );
    let (ia, ib, is) = (
        intercepts(guide, a, w, h, r, epsilon),
        intercepts(guide, b, w, h, r, epsilon),
        intercepts(guide, s, w, h, r, epsilon),
    );
    let (ma, mb, ms) = (box_means(a, w, h, r), box_means(b, w, h, r), box_means(s, w, h, r));
    let mean = box_means(guide, w, h, r);
    lemma_slopes_add_up(guide, a, b, s, w, h, r, epsilon, least);
    lemma_means_add_up(a, b, s, w, h, r, 0x10_0000, 0, 0);
    assert(0 <= 131072int / least) by (nonlinear_arith)
        requires
            1 <= least,
    ;
    let big = 0x80_0000_0000int;
    assert forall|j: int| 0 <= j < guide.len() implies -(k + 2) <= (#[trigger] is[j]).raw
        - ia[j].raw - ib[j].raw <= k + 1 && bounded(ia[j], big) && bounded(ib[j], big) && bounded(
        is[j],
        big,
    ) by {
        lemma_unit_mean(guide, w, h, r, j);
        assert(-k <= ss[j].raw - sa[j].raw - sb[j].raw <= k + 1);
        assert(0 <= ms[j].raw - ma[j].raw - mb[j].raw <= 1);
        assert(bounded(sa[j], 0x40_0000_0000) && bounded(sb[j], 0x40_0000_0000) && bounded(
            ss[j],
            0x40_0000_0000,
        ));
        assert(bounded(ma[j], 0x10_0001) && bounded(mb[j], 0x10_0001) && bounded(ms[j], 0x10_0001));
        lemma_intercept_adds_up(mean[j], sa[j], sb[j], ss[j], ma[j], mb[j], ms[j], k);
    }
    assert forall|j: int| 0 <= j < ia.len() implies bounded(#[trigger] ia[j], big) by {
        assert(bounded(is[j], big));
    }
    assert forall|j: int| 0 <= j < ib.len() implies bounded(#[trigger] ib[j], big) by {
        assert(bounded(is[j], big));
    }
    lemma_means_add_up(sa, sb, ss, w, h, r, 0x40_0000_0000, -k, k + 1);
    lemma_means_add_up(ia, ib, is, w, h, r, big, -(k + 2), k + 1);
    let (ra, rb, rs) = (box_means(sa, w, h, r), box_means(sb, w, h, r), box_means(ss, w, h, r));
    let (qa, qb, qs) = (box_means(ia, w, h, r), box_means(ib, w, h, r), box_means(is, w, h, r));
    assert(-k <= rs[i].raw - ra[i].raw - rb[i].raw <= k + 2);
    assert(-(k + 2) <= qs[i].raw - qa[i].raw - qb[i].raw <= k + 2);
    assert(bounded(ra[i], 0x40_0000_0001) && bounded(rb[i], 0x40_0000_0001) && bounded(
        rs[i],
        0x40_0000_0001,
    ));
    assert(bounded(qa[i], big + 1) && bounded(qb[i], big + 1) && bounded(qs[i], big + 1));
    lemma_parts_add_up(guide[i], ra[i], rb[i], rs[i], 0x40_0000_0001, -k, k + 2);
    lemma_sum(ra[i].spec_times(guide[i]), qa[i]);
    lemma_sum(rb[i].spec_times(guide[i]), qb[i]);
    lemma_sum(rs[i].spec_times(guide[i]), qs[i]);
}

/// A mean of samples between two bounds that are not negative lies between them, but for what
/// the share of one sample in a window loses to rounding.
proof fn lemma_mean_between(
    data: Seq<Fixed>,
    w: int,
    h: int,
    r: int,
    i: int,
    lo: int,
    hi: int,
)
    requires
        0 < w,
        0 < h,
        data.len() == w * h,
        0 <= r <= 127,
        0 <= i < w * h,
        0 <= lo <= hi <= 0x2_0000_0000,
        forall|k: int| 0 <= k < w * h ==> lo <= (#[trigger] data[k]).raw <= hi,
    ensures
        box_means(data, w, h, r).len() == w * h,
        box_means(data, w, h, r)[i].raw <= hi,
        65536 * box_means(data, w, h, r)[i].raw > lo * (65536 - window_count(r)) - 65536,
        0 <= box_means(data, w, h, r)[i].raw,
{
    lemma_column_and_row(i, w, h);
    let (x, y) = (i % w, i / w);
    lemma_mean_is_the_share(data, w, h, r, x, y, 0x2_0000_0000);
    lemma_share(r);
    lemma_share_is_close(r);
    let f = levels_in(data, w, h);
    let base = |u: int, v: int| lo;
    let zero = |u: int, v: int| 0int;
    assert forall|u: int, v: int| 0 <= #[trigger] f(u, v) - base(u, v) - zero(u, v) <= hi - lo by {
        lemma_place(clamped(u, 0, w - 1), clamped(v, 0, h - 1), w, h);
    }
    assert forall|u: int, v: int| lo <= #[trigger] base(u, v) - zero(u, v) - zero(u, v) <= lo by {}
    let n = (2 * r + 1) as nat;
    lemma_block_adds_up(base, zero, f, x - r, y - r, n, n, 0, hi - lo);
    lemma_block_adds_up(zero, zero, base, x - r, y - r, n, n, lo, lo);
    lemma_block_of_nothing(x - r, y - r, n, n);
    let (all, c, d) = (around(f, x, y, r), window_count(r), share_steps(r));
    assert(n * (n * 0) == 0) by (nonlinear_arith);
    assert(n * (n * lo) == c * lo && n * (n * (hi - lo)) == c * (hi - lo) && c * (hi - lo) == c * hi
        - c * lo) by (nonlinear_arith)
        requires
            c == n * n,
    ;
    assert(c * lo <= all <= c * hi);
    let t = c * d;
    assert(lo * t <= all * d <= hi * t) by (nonlinear_arith)
        requires
            c * lo <= all <= c * hi,
            0 <= d,
            t == c * d,
    ;
    assert(lo * (65536 - c) <= lo * t && hi * t <= hi * 65536) by (nonlinear_arith)
        requires
            65536 - c <= t <= 65536,
            0 <= lo,
            0 <= hi,
    ;
    assert(0 <= lo * t) by (nonlinear_arith)
        requires
            0 <= lo,
            0 <= t,
    ;
}

proof fn lemma_share_is_close(r: int)
    requires
        0 <= r <= 127,
    ensures
        65536 - window_count(r) <= window_count(r) * share_steps(r),
{
    let n = window_count(r);
    lemma_share(r);
    vstd::arithmetic::div_mod::lemma_fundamental_div_mod(65536, n);
    vstd::arithmetic::div_mod::lemma_mod_bound(65536, n);
}

/// The slope of the guide against itself is one, but for the regularization.
#[verifier::spinoff_prover]
proof fn lemma_own_slope(v: Fixed, epsilon: Fixed, least: int)
    requires
        bounded(v, 0x2_0000),
        0 <= v.raw,
        0 <= epsilon.raw <= 0x10_0000,
        1 <= least <= v.spec_plus(epsilon).raw,
    ensures
        65536 - (epsilon.raw * 65536) / least - 1 <= v.spec_over(v.spec_plus(epsilon)).raw <= 65536,
{
    lemma_sum(v, epsilon);
    let d = v.spec_plus(epsilon);
    lemma_quotient(v, d);
    let (a, e, n) = (v.raw as int, epsilon.raw as int, d.raw as int);
    let q = (a * 65536) / n;
    let k = (e * 65536) / least;
    vstd::arithmetic::div_mod::lemma_fundamental_div_mod(a * 65536, n);
    vstd::arithmetic::div_mod::lemma_mod_bound(a * 65536, n);
    vstd::arithmetic::div_mod::lemma_fundamental_div_mod(e * 65536, least);
    vstd::arithmetic::div_mod::lemma_mod_bound(e * 65536, least);
    assert(q <= 65536) by (nonlinear_arith)
        requires
            a * 65536 == n * q + (a * 65536) % n,
            0 <= (a * 65536) % n,
            0 <= a <= n,
            0 < n,
    ;
    let t = 65536 - q;
    assert(n * t < e * 65536 + n) by (nonlinear_arith)
        requires
            a * 65536 == n * q + (a * 65536) % n,
            (a * 65536) % n < n,
            n == a + e,
            t == 65536 - q,
    ;
    assert(t <= k + 1) by (nonlinear_arith)
        requires
            n * t < e * 65536 + n,
            e * 65536 == least * k + (e * 65536) % least,
            (e * 65536) % least < least,
            1 <= least <= n,
            0 <= e,
            0 <= k,
    ;
}

/// What follows the guide is kept, edges and all: filtered by itself, a guide comes back but
/// for the regularization against the variance, and the share of one sample in a window.
/// Where the regularized variance is at least `least`, and no less than the regularization,
/// that is at most `epsilon / least`, `window_count(r)` steps and four.
#[verifier::spinoff_prover]
pub proof fn lemma_the_guide_is_kept(
    guide: Seq<Fixed>,
    w: int,
    h: int,
    r: int,
    epsilon: Fixed,
    least: int,
    i: int,
)
    requires
        0 < w,
        0 < h,
        0 <= r <= 127,
        guide.len() == w * h,
        unit_guide(guide),
        0 <= epsilon.raw <= 0x10_0000,
        1 <= least,
        epsilon.raw <= least,
        forall|k: int|
            0 <= k < w * h ==> least <= (#[trigger] regularized(guide, w, h, r, epsilon)[k]).raw,
        0 <= i < w * h,
    ensures
        ({
            let off = (epsilon.raw * 65536) / least + window_count(r) + 4;
            -off <= guided(guide, guide, w, h, r, epsilon)[i].raw - guide[i].raw <= off
        }),
{
    let own = products(guide, guide);
    lemma_own_products(guide);
    let mean = box_means(guide, w, h, r);
    let square = box_means(own, w, h, r);
    let slope = slopes(guide, guide, w, h, r, epsilon);
    let rest = intercepts(guide, guide, w, h, r, epsilon);
    let k = (epsilon.raw * 65536) / least + 1;
    assert(0 <= (epsilon.raw * 65536) / least <= 65536) by (nonlinear_arith)
        requires
            0 <= epsilon.raw <= least,
            1 <= least,
    ;
    let low = if k <= 65536 {
        65536 - k
    } else {
        0
    };
    assert forall|j: int| 0 <= j < w * h implies low <= (#[trigger] slope[j]).raw <= 65536 && 0
        <= rest[j].raw <= k + 1 by {
        lemma_unit_mean(guide, w, h, r, j);
        lemma_unit_mean(own, w, h, r, j);
        let v = square[j].spec_minus(mean[j].spec_times(mean[j]));
        lemma_part(mean[j], mean[j], 65536);
        lemma_difference(square[j], mean[j].spec_times(mean[j]));
        assert(least <= regularized(guide, w, h, r, epsilon)[j].raw);
        lemma_sum(v, epsilon);
        assert(0 <= v.raw);
        lemma_own_slope(v, epsilon, least);
        lemma_own_slope_is_positive(v, epsilon);
        assert(slope[j] == v.spec_over(v.spec_plus(epsilon)));
        lemma_own_intercept(mean[j], slope[j], k);
    }
    assert forall|j: int| 0 <= j < w * h implies 0 <= (#[trigger] rest[j]).raw <= k + 1 by {
        assert(slope[j].raw <= 65536);
    }
    lemma_mean_between(slope, w, h, r, i, low, 65536);
    lemma_mean_between(rest, w, h, r, i, 0, k + 1);
    let (a, b) = (box_means(slope, w, h, r)[i], box_means(rest, w, h, r)[i]);
    let c = window_count(r);
    lemma_share(r);
    assert(a.raw >= low - c - 1) by (nonlinear_arith)
        requires
            65536 * a.raw > low * (65536 - c) - 65536,
            0 <= low <= 65536,
            0 <= c,
    ;
    assert(0 <= guide[i].raw <= 65536);
    lemma_part(a, guide[i], 65536);
    lemma_sum(a.spec_times(guide[i]), b);
    let (u, g) = (a.raw as int, guide[i].raw as int);
    assert(g * 65536 - (65536 - u) * 65536 <= u * g <= g * 65536) by (nonlinear_arith)
        requires
            0 <= u <= 65536,
            0 <= g <= 65536,
    ;
}

proof fn lemma_own_products(guide: Seq<Fixed>)
    requires
        unit_guide(guide),
    ensures
        unit_guide(products(guide, guide)),
        products(guide, guide).len() == guide.len(),
{
    let own = products(guide, guide);
    assert forall|i: int| 0 <= i < own.len() implies 0 <= (#[trigger] own[i]).raw <= 65536 by {
        lemma_part(guide[i], guide[i], 65536);
        let g = guide[i].raw as int;
        assert(0 <= g * g) by (nonlinear_arith);
    }
}

proof fn lemma_own_slope_is_positive(v: Fixed, epsilon: Fixed)
    requires
        bounded(v, 0x2_0000),
        0 <= v.raw,
        0 <= epsilon.raw <= 0x10_0000,
        1 <= v.spec_plus(epsilon).raw,
    ensures
        0 <= v.spec_over(v.spec_plus(epsilon)).raw,
{
    lemma_quotient(v, v.spec_plus(epsilon));
    let (a, n) = (v.raw * 65536, v.spec_plus(epsilon).raw as int);
    assert(0 <= a / n) by (nonlinear_arith)
        requires
            0 <= a,
            1 <= n,
    ;
}

proof fn lemma_own_intercept(mean: Fixed, slope: Fixed, k: int)
    requires
        0 <= mean.raw <= 65536,
        0 <= slope.raw <= 65536,
        65536 - k <= slope.raw,
        0 <= k,
    ensures
        0 <= mean.spec_minus(slope.spec_times(mean)).raw <= k + 1,
{
    lemma_part(slope, mean, 65536);
    let p = slope.spec_times(mean);
    let (s, m) = (slope.raw as int, mean.raw as int);
    assert(m * 65536 - k * 65536 <= s * m <= m * 65536) by (nonlinear_arith)
        requires
            0 <= m <= 65536,
            0 <= s <= 65536,
            65536 - k <= s,
            0 <= k,
    ;
    lemma_difference(mean, p);
}

} // verus!
