//! What the guided filter gives where nothing is lost to rounding: what it was given, wherever
//! that follows the guide.
//!
//! [`Exact`] samples add without loss. Here they are taken to multiply and divide without loss
//! too, as numbers on paper do.

use vstd::prelude::*;
use crate::filter::{
    bordered, box_means, lemma_box_sum_is_the_window, products, run_sum, window_share, window_sum,
};
use crate::image::clamped;
use crate::layout::{lemma_column_and_row, lemma_place};
use crate::sample::{Exact, Sample};
use crate::weights::{guided, intercepts, slopes};

verus! {

/// Do samples multiply and divide without loss?
#[verifier::opaque]
pub open spec fn unrounded<S: Exact>() -> bool {
    &&& forall|a: S, b: S| #[trigger] a.spec_times(b) == b.spec_times(a)
    &&& forall|a: S, b: S, c: S|
        #[trigger] a.spec_times(b).spec_times(c) == a.spec_times(b.spec_times(c))
    &&& forall|a: S, b: S, c: S|
        #[trigger] a.spec_plus(b).spec_times(c) == a.spec_times(c).spec_plus(b.spec_times(c))
    &&& forall|a: S| #[trigger] S::spec_whole(1).spec_times(a) == a
    &&& forall|a: S, b: S|
        b != S::spec_whole(0) ==> #[trigger] a.spec_times(b).spec_over(b) == a
    &&& forall|a: S, b: S|
        b != S::spec_whole(0) ==> #[trigger] a.spec_over(b).spec_times(b) == a
    &&& forall|n: int|
        0 <= n < 0x1_0000_0000 ==> #[trigger] S::spec_whole((n + 1) as i64) == S::spec_whole(
            n as i64,
        ).spec_plus(S::spec_whole(1))
    &&& forall|n: int|
        0 < n <= 0x1_0000_0000 ==> #[trigger] S::spec_whole(n as i64) != S::spec_whole(0)
}

proof fn lemma_commutes<S: Exact>(a: S, b: S)
    requires
        unrounded::<S>(),
    ensures
        a.spec_times(b) == b.spec_times(a),
{
    reveal(unrounded);
}

proof fn lemma_associates<S: Exact>(a: S, b: S, c: S)
    requires
        unrounded::<S>(),
    ensures
        a.spec_times(b).spec_times(c) == a.spec_times(b.spec_times(c)),
{
    reveal(unrounded);
}

proof fn lemma_distributes<S: Exact>(a: S, b: S, c: S)
    requires
        unrounded::<S>(),
    ensures
        a.spec_plus(b).spec_times(c) == a.spec_times(c).spec_plus(b.spec_times(c)),
        c.spec_times(a.spec_plus(b)) == c.spec_times(a).spec_plus(c.spec_times(b)),
{
    assert(a.spec_plus(b).spec_times(c) == a.spec_times(c).spec_plus(b.spec_times(c))) by {
        reveal(unrounded);
    }
    lemma_commutes(c, a.spec_plus(b));
    lemma_commutes(c, a);
    lemma_commutes(c, b);
}

proof fn lemma_one<S: Exact>(a: S)
    requires
        unrounded::<S>(),
    ensures
        S::spec_whole(1).spec_times(a) == a,
        a.spec_times(S::spec_whole(1)) == a,
{
    assert(S::spec_whole(1).spec_times(a) == a) by {
        reveal(unrounded);
    }
    lemma_commutes(a, S::spec_whole(1));
}

proof fn lemma_divides<S: Exact>(a: S, b: S)
    requires
        unrounded::<S>(),
        b != S::spec_whole(0),
    ensures
        a.spec_times(b).spec_over(b) == a,
        a.spec_over(b).spec_times(b) == a,
{
    reveal(unrounded);
}

proof fn lemma_counts<S: Exact>(n: int)
    requires
        unrounded::<S>(),
        0 <= n < 0x1_0000_0000,
    ensures
        S::spec_whole((n + 1) as i64) == S::spec_whole(n as i64).spec_plus(S::spec_whole(1)),
        S::spec_whole((n + 1) as i64) != S::spec_whole(0),
{
    reveal(unrounded);
}

/// What is left when a sample is taken off itself is nothing.
proof fn lemma_less_itself<S: Exact>(a: S)
    ensures
        a.spec_minus(a) == S::spec_whole(0),
        a.spec_plus(S::spec_whole(0)) == a,
        a.spec_minus(S::spec_whole(0)) == a,
{
    S::lemma_plus_zero(a);
    S::lemma_plus_minus(S::spec_whole(0), a);
    S::lemma_plus_commutes(S::spec_whole(0), a);
    S::lemma_plus_minus(a, S::spec_whole(0));
}

proof fn lemma_nothing_times<S: Exact>(a: S)
    requires
        unrounded::<S>(),
    ensures
        S::spec_whole(0).spec_times(a) == S::spec_whole(0),
        a.spec_times(S::spec_whole(0)) == S::spec_whole(0),
{
    let zero = S::spec_whole(0);
    let p = zero.spec_times(a);
    S::lemma_plus_zero(zero);
    lemma_distributes(zero, zero, a);
    assert(p.spec_plus(p) == p);
    S::lemma_plus_minus(p, p);
    lemma_less_itself(p);
    lemma_commutes(a, zero);
}

/// Where two pairs have equal sums in turn, so have their differences.
proof fn lemma_minus_is_linear<S: Exact>(a: S, b: S, c: S, d: S)
    ensures
        a.spec_plus(b).spec_minus(c.spec_plus(d)) == a.spec_minus(c).spec_plus(b.spec_minus(d)),
{
    let (p, q) = (a.spec_minus(c), b.spec_minus(d));
    S::lemma_minus_plus(a, c);
    S::lemma_minus_plus(b, d);
    lemma_four(p, c, q, d);
    assert(p.spec_plus(q).spec_plus(c.spec_plus(d)) == a.spec_plus(b));
    S::lemma_plus_minus(p.spec_plus(q), c.spec_plus(d));
}

/// Two sums added, by parts.
proof fn lemma_four<S: Exact>(p: S, c: S, q: S, d: S)
    ensures
        p.spec_plus(c).spec_plus(q.spec_plus(d)) == p.spec_plus(q).spec_plus(c.spec_plus(d)),
{
    S::lemma_plus_associates(p, c, q.spec_plus(d));
    S::lemma_plus_associates(c, q, d);
    S::lemma_plus_commutes(c, q);
    S::lemma_plus_associates(q, c, d);
    S::lemma_plus_associates(p, q, c.spec_plus(d));
}

proof fn lemma_times_minus<S: Exact>(a: S, b: S, c: S)
    requires
        unrounded::<S>(),
    ensures
        c.spec_times(a.spec_minus(b)) == c.spec_times(a).spec_minus(c.spec_times(b)),
{
    let d = a.spec_minus(b);
    S::lemma_minus_plus(a, b);
    lemma_distributes(d, b, c);
    S::lemma_plus_minus(c.spec_times(d), c.spec_times(b));
}

proof fn lemma_over_is_linear<S: Exact>(a: S, b: S, d: S)
    requires
        unrounded::<S>(),
        d != S::spec_whole(0),
    ensures
        a.spec_plus(b).spec_over(d) == a.spec_over(d).spec_plus(b.spec_over(d)),
        S::spec_whole(0).spec_over(d) == S::spec_whole(0),
{
    let (p, q) = (a.spec_over(d), b.spec_over(d));
    lemma_divides(a, d);
    lemma_divides(b, d);
    lemma_distributes(p, q, d);
    lemma_divides(p.spec_plus(q), d);
    lemma_nothing_times(d);
    lemma_divides(S::spec_whole(0), d);
}

proof fn lemma_run_is_linear<S: Exact>(
    f: spec_fn(int) -> S,
    g: spec_fn(int) -> S,
    s: spec_fn(int) -> S,
    from: int,
    n: nat,
)
    requires
        forall|k: int| #[trigger] s(k) == f(k).spec_plus(g(k)),
    ensures
        run_sum(s, from, n) == run_sum(f, from, n).spec_plus(run_sum(g, from, n)),
    decreases n,
{
    if n == 0 {
        S::lemma_plus_zero(S::spec_whole(0));
    } else {
        let m = (n - 1) as nat;
        let k = from + n - 1;
        lemma_run_is_linear(f, g, s, from, m);
        assert(s(k) == f(k).spec_plus(g(k)));
        lemma_four(run_sum(f, from, m), run_sum(g, from, m), f(k), g(k));
    }
}

proof fn lemma_run_scales<S: Exact>(
    f: spec_fn(int) -> S,
    s: spec_fn(int) -> S,
    c: S,
    from: int,
    n: nat,
)
    requires
        unrounded::<S>(),
        forall|k: int| #[trigger] s(k) == c.spec_times(f(k)),
    ensures
        run_sum(s, from, n) == c.spec_times(run_sum(f, from, n)),
    decreases n,
{
    if n == 0 {
        lemma_nothing_times(c);
    } else {
        let m = (n - 1) as nat;
        let k = from + n - 1;
        lemma_run_scales(f, s, c, from, m);
        assert(s(k) == c.spec_times(f(k)));
        lemma_distributes(run_sum(f, from, m), f(k), c);
    }
}

proof fn lemma_run_counts<S: Exact>(f: spec_fn(int) -> S, v: S, from: int, n: nat)
    requires
        unrounded::<S>(),
        n <= 0x1_0000_0000,
        forall|k: int| #[trigger] f(k) == v,
    ensures
        run_sum(f, from, n) == S::spec_whole(n as i64).spec_times(v),
    decreases n,
{
    if n == 0 {
        lemma_nothing_times(v);
    } else {
        let m = (n - 1) as nat;
        lemma_run_counts(f, v, from, m);
        assert(f(from + n - 1) == v);
        lemma_counts::<S>(m as int);
        lemma_distributes(S::spec_whole(m as i64), S::spec_whole(1), v);
        lemma_one(v);
    }
}

/// Is a plane the sum of two others, sample by sample?
pub open spec fn is_sum<S: Sample>(a: Seq<S>, b: Seq<S>, s: Seq<S>) -> bool {
    &&& a.len() == s.len()
    &&& b.len() == s.len()
    &&& forall|i: int| 0 <= i < s.len() ==> #[trigger] s[i] == a[i].spec_plus(b[i])
}

/// Is a plane a multiple of another, sample by sample?
pub open spec fn is_multiple<S: Sample>(a: Seq<S>, c: S, s: Seq<S>) -> bool {
    &&& a.len() == s.len()
    &&& forall|i: int| 0 <= i < s.len() ==> #[trigger] s[i] == c.spec_times(a[i])
}

/// Is a plane the same everywhere?
pub open spec fn is_even<S>(a: Seq<S>, v: S) -> bool {
    forall|i: int| 0 <= i < a.len() ==> #[trigger] a[i] == v
}

proof fn lemma_mean_at<S: Exact>(a: Seq<S>, w: int, h: int, r: int, i: int)
    requires
        a.len() == w * h,
        0 < w,
        0 < h,
        0 <= r,
        0 <= i < w * h,
    ensures
        box_means(a, w, h, r).len() == w * h,
        box_means(a, w, h, r)[i] == window_sum(a, w, h, r, i % w, i / w).spec_times(
            window_share::<S>(r),
        ),
{
    assert(w * h * 1 == w * h) by (nonlinear_arith);
    lemma_column_and_row(i, w, h);
    lemma_box_sum_is_the_window(a, w, h, r, i % w, i / w);
}

/// The means of a sum are the sums of the means.
proof fn lemma_means_are_linear<S: Exact>(
    a: Seq<S>,
    b: Seq<S>,
    s: Seq<S>,
    w: int,
    h: int,
    r: int,
)
    requires
        unrounded::<S>(),
        is_sum(a, b, s),
        s.len() == w * h,
        0 < w,
        0 < h,
        0 <= r,
    ensures
        is_sum(box_means(a, w, h, r), box_means(b, w, h, r), box_means(s, w, h, r)),
        box_means(s, w, h, r).len() == w * h,
{
    let n = (2 * r + 1) as nat;
    lemma_place(0, 0, w, h);
    lemma_mean_at(a, w, h, r, 0);
    lemma_mean_at(b, w, h, r, 0);
    lemma_mean_at(s, w, h, r, 0);
    let (p, q, t) = (box_means(a, w, h, r), box_means(b, w, h, r), box_means(s, w, h, r));
    assert forall|i: int| 0 <= i < t.len() implies #[trigger] t[i] == p[i].spec_plus(q[i]) by {
        lemma_mean_at(a, w, h, r, i);
        lemma_mean_at(b, w, h, r, i);
        lemma_mean_at(s, w, h, r, i);
        let (x, y) = (i % w, i / w);
        let ra = |v: int| run_sum(|u: int| bordered(a, w, h, u, v), x - r, n);
        let rb = |v: int| run_sum(|u: int| bordered(b, w, h, u, v), x - r, n);
        let rs = |v: int| run_sum(|u: int| bordered(s, w, h, u, v), x - r, n);
        assert forall|v: int| #[trigger] rs(v) == ra(v).spec_plus(rb(v)) by {
            let (fa, fb, fs) = (
                |u: int| bordered(a, w, h, u, v),
                |u: int| bordered(b, w, h, u, v),
                |u: int| bordered(s, w, h, u, v),
            );
            assert forall|u: int| #[trigger] fs(u) == fa(u).spec_plus(fb(u)) by {
                lemma_place(clamped(u, 0, w - 1), clamped(v, 0, h - 1), w, h);
            }
            lemma_run_is_linear(fa, fb, fs, x - r, n);
        }
        lemma_run_is_linear(ra, rb, rs, y - r, n);
        lemma_distributes(
            window_sum(a, w, h, r, x, y),
            window_sum(b, w, h, r, x, y),
            window_share::<S>(r),
        );
    }
}

/// The means of a multiple are the multiples of the means.
proof fn lemma_means_scale<S: Exact>(a: Seq<S>, c: S, s: Seq<S>, w: int, h: int, r: int)
    requires
        unrounded::<S>(),
        is_multiple(a, c, s),
        s.len() == w * h,
        0 < w,
        0 < h,
        0 <= r,
    ensures
        is_multiple(box_means(a, w, h, r), c, box_means(s, w, h, r)),
        box_means(s, w, h, r).len() == w * h,
{
    let n = (2 * r + 1) as nat;
    lemma_place(0, 0, w, h);
    lemma_mean_at(a, w, h, r, 0);
    lemma_mean_at(s, w, h, r, 0);
    let (p, t) = (box_means(a, w, h, r), box_means(s, w, h, r));
    assert forall|i: int| 0 <= i < t.len() implies #[trigger] t[i] == c.spec_times(p[i]) by {
        lemma_mean_at(a, w, h, r, i);
        lemma_mean_at(s, w, h, r, i);
        let (x, y) = (i % w, i / w);
        let ra = |v: int| run_sum(|u: int| bordered(a, w, h, u, v), x - r, n);
        let rs = |v: int| run_sum(|u: int| bordered(s, w, h, u, v), x - r, n);
        assert forall|v: int| #[trigger] rs(v) == c.spec_times(ra(v)) by {
            let (fa, fs) = (
                |u: int| bordered(a, w, h, u, v),
                |u: int| bordered(s, w, h, u, v),
            );
            assert forall|u: int| #[trigger] fs(u) == c.spec_times(fa(u)) by {
                lemma_place(clamped(u, 0, w - 1), clamped(v, 0, h - 1), w, h);
            }
            lemma_run_scales(fa, fs, c, x - r, n);
        }
        lemma_run_scales(ra, rs, c, y - r, n);
        lemma_associates(c, window_sum(a, w, h, r, x, y), window_share::<S>(r));
    }
}

/// The mean of what is the same everywhere is the same.
proof fn lemma_even_means<S: Exact>(a: Seq<S>, v: S, w: int, h: int, r: int)
    requires
        unrounded::<S>(),
        is_even(a, v),
        a.len() == w * h,
        0 < w,
        0 < h,
        0 <= r <= 0x7fff_ffff,
    ensures
        is_even(box_means(a, w, h, r), v),
        box_means(a, w, h, r).len() == w * h,
{
    let n = (2 * r + 1) as nat;
    lemma_place(0, 0, w, h);
    lemma_mean_at(a, w, h, r, 0);
    let t = box_means(a, w, h, r);
    let m = S::spec_whole(n as i64);
    assert forall|i: int| 0 <= i < t.len() implies #[trigger] t[i] == v by {
        lemma_mean_at(a, w, h, r, i);
        let (x, y) = (i % w, i / w);
        let rows = |v: int| run_sum(|u: int| bordered(a, w, h, u, v), x - r, n);
        let along = m.spec_times(v);
        assert forall|k: int| #[trigger] rows(k) == along by {
            let f = |u: int| bordered(a, w, h, u, k);
            assert forall|u: int| #[trigger] f(u) == v by {
                lemma_place(clamped(u, 0, w - 1), clamped(k, 0, h - 1), w, h);
            }
            lemma_run_counts(f, v, x - r, n);
        }
        lemma_run_counts(rows, along, y - r, n);
        assert(window_sum(a, w, h, r, x, y) == m.spec_times(m.spec_times(v)));
        lemma_share_of_all(v, r);
    }
}

/// A window's worth of a sample, shared out, is the sample.
proof fn lemma_share_of_all<S: Exact>(v: S, r: int)
    requires
        unrounded::<S>(),
        0 <= r <= 0x7fff_ffff,
    ensures
        ({
            let m = S::spec_whole((2 * r + 1) as i64);
            m.spec_times(m.spec_times(v)).spec_times(window_share::<S>(r)) == v
        }),
{
    let m = S::spec_whole((2 * r + 1) as i64);
    let zero = S::spec_whole(0);
    let one = S::spec_whole(1);
    lemma_counts::<S>(2 * r);
    assert(m != zero);
    let c = m.spec_times(m);
    if c == zero {
        lemma_divides(m, m);
        lemma_over_is_linear(zero, zero, m);
        assert(m == zero.spec_over(m));
    }
    let s = one.spec_over(c);
    lemma_divides(one, c);
    lemma_associates(m, m, v);
    lemma_commutes(c, v);
    lemma_associates(v, c, s);
    lemma_commutes(c, s);
    lemma_one(v);
}

/// The variance of the guide in each window.
pub open spec fn variances<S: Sample>(guide: Seq<S>, w: int, h: int, r: int) -> Seq<S> {
    let mean = box_means(guide, w, h, r);
    let square = box_means(products(guide, guide), w, h, r);
    Seq::new(guide.len(), |i: int| square[i].spec_minus(mean[i].spec_times(mean[i])))
}

/// A guide with samples, and a variance that can be divided by in every window.
pub open spec fn filterable<S: Exact>(
    guide: Seq<S>,
    w: int,
    h: int,
    r: int,
    epsilon: S,
) -> bool {
    &&& 0 < w
    &&& 0 < h
    &&& 0 <= r <= 0x7fff_ffff
    &&& guide.len() == w * h
    &&& forall|i: int|
        0 <= i < w * h ==> (#[trigger] variances(guide, w, h, r)[i]).spec_plus(epsilon)
            != S::spec_whole(0)
}

proof fn lemma_products_are_linear<S: Exact>(guide: Seq<S>, a: Seq<S>, b: Seq<S>, s: Seq<S>)
    requires
        unrounded::<S>(),
        is_sum(a, b, s),
        guide.len() == s.len(),
    ensures
        is_sum(products(guide, a), products(guide, b), products(guide, s)),
        products(guide, s).len() == s.len(),
{
    let (p, q, t) = (products(guide, a), products(guide, b), products(guide, s));
    assert forall|i: int| 0 <= i < t.len() implies #[trigger] t[i] == p[i].spec_plus(q[i]) by {
        assert(s[i] == a[i].spec_plus(b[i]));
        lemma_distributes(a[i], b[i], guide[i]);
    }
}

/// The filter is linear in its input: filtering the sum of two inputs gives the sum of what
/// filtering each gives.
pub proof fn lemma_filtering_a_sum<S: Exact>(
    guide: Seq<S>,
    a: Seq<S>,
    b: Seq<S>,
    s: Seq<S>,
    w: int,
    h: int,
    r: int,
    epsilon: S,
)
    requires
        unrounded::<S>(),
        filterable(guide, w, h, r, epsilon),
        is_sum(a, b, s),
        s.len() == w * h,
    ensures
        is_sum(
            guided(guide, a, w, h, r, epsilon),
            guided(guide, b, w, h, r, epsilon),
            guided(guide, s, w, h, r, epsilon),
        ),
{
    lemma_products_are_linear(guide, a, b, s);
    lemma_means_are_linear(a, b, s, w, h, r);
    lemma_means_are_linear(
        products(guide, a),
        products(guide, b),
        products(guide, s),
        w,
        h,
        r,
    );
    let mean = box_means(guide, w, h, r);
    let (ma, mb, ms) = (box_means(a, w, h, r), box_means(b, w, h, r), box_means(s, w, h, r));
    let (ca, cb, cs) = (
        box_means(products(guide, a), w, h, r),
        box_means(products(guide, b), w, h, r),
        box_means(products(guide, s), w, h, r),
    );
    let (sa, sb, ss) = (
        slopes(guide, a, w, h, r, epsilon),
        slopes(guide, b, w, h, r, epsilon),
        slopes(guide, s, w, h, r, epsilon),
    );
    assert forall|i: int| 0 <= i < ss.len() implies #[trigger] ss[i] == sa[i].spec_plus(sb[i]) by {
        assert(cs[i] == ca[i].spec_plus(cb[i]));
        assert(ms[i] == ma[i].spec_plus(mb[i]));
        lemma_distributes(ma[i], mb[i], mean[i]);
        lemma_minus_is_linear(
            ca[i],
            cb[i],
            mean[i].spec_times(ma[i]),
            mean[i].spec_times(mb[i]),
        );
        assert(variances(guide, w, h, r)[i].spec_plus(epsilon) != S::spec_whole(0));
        lemma_over_is_linear(
            ca[i].spec_minus(mean[i].spec_times(ma[i])),
            cb[i].spec_minus(mean[i].spec_times(mb[i])),
            variances(guide, w, h, r)[i].spec_plus(epsilon),
        );
    }
    let (ia, ib, is) = (
        intercepts(guide, a, w, h, r, epsilon),
        intercepts(guide, b, w, h, r, epsilon),
        intercepts(guide, s, w, h, r, epsilon),
    );
    assert forall|i: int| 0 <= i < is.len() implies #[trigger] is[i] == ia[i].spec_plus(ib[i]) by {
        assert(ss[i] == sa[i].spec_plus(sb[i]));
        assert(ms[i] == ma[i].spec_plus(mb[i]));
        lemma_distributes(sa[i], sb[i], mean[i]);
        lemma_minus_is_linear(
            ma[i],
            mb[i],
            sa[i].spec_times(mean[i]),
            sb[i].spec_times(mean[i]),
        );
    }
    lemma_means_are_linear(sa, sb, ss, w, h, r);
    lemma_means_are_linear(ia, ib, is, w, h, r);
    let (ra, rb, rs) = (box_means(sa, w, h, r), box_means(sb, w, h, r), box_means(ss, w, h, r));
    let (qa, qb, qs) = (box_means(ia, w, h, r), box_means(ib, w, h, r), box_means(is, w, h, r));
    let (ga, gb, gs) = (
        guided(guide, a, w, h, r, epsilon),
        guided(guide, b, w, h, r, epsilon),
        guided(guide, s, w, h, r, epsilon),
    );
    assert forall|i: int| 0 <= i < gs.len() implies #[trigger] gs[i] == ga[i].spec_plus(gb[i]) by {
        assert(rs[i] == ra[i].spec_plus(rb[i]));
        assert(qs[i] == qa[i].spec_plus(qb[i]));
        lemma_distributes(ra[i], rb[i], guide[i]);
        lemma_four(
            ra[i].spec_times(guide[i]),
            rb[i].spec_times(guide[i]),
            qa[i],
            qb[i],
        );
    }
}

/// What is the same everywhere is not changed by filtering it, whatever the guide.
pub proof fn lemma_filtering_what_is_even<S: Exact>(
    guide: Seq<S>,
    a: Seq<S>,
    v: S,
    w: int,
    h: int,
    r: int,
    epsilon: S,
)
    requires
        unrounded::<S>(),
        filterable(guide, w, h, r, epsilon),
        is_even(a, v),
        a.len() == w * h,
    ensures
        is_even(guided(guide, a, w, h, r, epsilon), v),
{
    let zero = S::spec_whole(0);
    lemma_even_means(a, v, w, h, r);
    let p = products(guide, a);
    assert forall|i: int| 0 <= i < p.len() implies #[trigger] p[i] == v.spec_times(guide[i]) by {
        assert(a[i] == v);
        lemma_commutes(guide[i], v);
    }
    lemma_means_scale(guide, v, p, w, h, r);
    let mean = box_means(guide, w, h, r);
    let slope = slopes(guide, a, w, h, r, epsilon);
    assert forall|i: int| 0 <= i < slope.len() implies #[trigger] slope[i] == zero by {
        assert(box_means(p, w, h, r)[i] == v.spec_times(mean[i]));
        assert(box_means(a, w, h, r)[i] == v);
        lemma_commutes(v, mean[i]);
        lemma_less_itself(mean[i].spec_times(v));
        assert(variances(guide, w, h, r)[i].spec_plus(epsilon) != zero);
        lemma_over_is_linear(zero, zero, variances(guide, w, h, r)[i].spec_plus(epsilon));
    }
    let rest = intercepts(guide, a, w, h, r, epsilon);
    assert forall|i: int| 0 <= i < rest.len() implies #[trigger] rest[i] == v by {
        assert(slope[i] == zero);
        assert(box_means(a, w, h, r)[i] == v);
        lemma_nothing_times(mean[i]);
        lemma_less_itself(v);
    }
    lemma_even_means(slope, zero, w, h, r);
    lemma_even_means(rest, v, w, h, r);
    let out = guided(guide, a, w, h, r, epsilon);
    assert forall|i: int| 0 <= i < out.len() implies #[trigger] out[i] == v by {
        assert(box_means(slope, w, h, r)[i] == zero);
        assert(box_means(rest, w, h, r)[i] == v);
        lemma_nothing_times(guide[i]);
        S::lemma_plus_zero(v);
    }
}

/// Complementing the mask complements the result: what two frames that share a guide and a
/// mask get sums to one.
pub proof fn lemma_filtering_a_complement<S: Exact>(
    guide: Seq<S>,
    mask: Seq<S>,
    other: Seq<S>,
    w: int,
    h: int,
    r: int,
    epsilon: S,
    i: int,
)
    requires
        unrounded::<S>(),
        filterable(guide, w, h, r, epsilon),
        mask.len() == w * h,
        other.len() == w * h,
        forall|k: int|
            0 <= k < w * h ==> (#[trigger] mask[k]).spec_plus(other[k]) == S::spec_whole(1),
        0 <= i < w * h,
    ensures
        guided(guide, mask, w, h, r, epsilon)[i].spec_plus(
            guided(guide, other, w, h, r, epsilon)[i],
        ) == S::spec_whole(1),
{
    let one = S::spec_whole(1);
    let all = Seq::new((w * h) as nat, |k: int| one);
    assert forall|k: int| 0 <= k < all.len() implies #[trigger] all[k] == mask[k].spec_plus(
        other[k],
    ) by {
        assert(mask[k].spec_plus(other[k]) == one);
    }
    lemma_filtering_a_sum(guide, mask, other, all, w, h, r, epsilon);
    lemma_filtering_what_is_even(guide, all, one, w, h, r, epsilon);
    let out = guided(guide, all, w, h, r, epsilon);
    assert(out[i] == one);
    assert(out[i] == guided(guide, mask, w, h, r, epsilon)[i].spec_plus(
        guided(guide, other, w, h, r, epsilon)[i],
    ));
}

/// A multiple of the guide comes back as it is, where nothing is added to the variance.
proof fn lemma_filtering_a_multiple<S: Exact>(
    guide: Seq<S>,
    a: Seq<S>,
    c: S,
    w: int,
    h: int,
    r: int,
)
    requires
        unrounded::<S>(),
        filterable(guide, w, h, r, S::spec_whole(0)),
        is_multiple(guide, c, a),
    ensures
        guided(guide, a, w, h, r, S::spec_whole(0)) == a,
{
    let zero = S::spec_whole(0);
    let p = products(guide, a);
    let own = products(guide, guide);
    assert forall|i: int| 0 <= i < p.len() implies #[trigger] p[i] == c.spec_times(own[i]) by {
        assert(a[i] == c.spec_times(guide[i]));
        lemma_commutes(guide[i], c.spec_times(guide[i]));
        lemma_associates(c, guide[i], guide[i]);
    }
    lemma_means_scale(guide, c, a, w, h, r);
    lemma_means_scale(own, c, p, w, h, r);
    let mean = box_means(guide, w, h, r);
    let square = box_means(own, w, h, r);
    let slope = slopes(guide, a, w, h, r, zero);
    assert forall|i: int| 0 <= i < slope.len() implies #[trigger] slope[i] == c by {
        assert(box_means(p, w, h, r)[i] == c.spec_times(square[i]));
        assert(box_means(a, w, h, r)[i] == c.spec_times(mean[i]));
        let m = mean[i];
        lemma_commutes(m, c.spec_times(m));
        lemma_associates(c, m, m);
        lemma_times_minus(square[i], m.spec_times(m), c);
        let v = variances(guide, w, h, r)[i];
        assert(v.spec_plus(zero) != zero);
        lemma_less_itself(v);
        lemma_divides(c, v);
    }
    let rest = intercepts(guide, a, w, h, r, zero);
    assert forall|i: int| 0 <= i < rest.len() implies #[trigger] rest[i] == zero by {
        assert(slope[i] == c);
        assert(box_means(a, w, h, r)[i] == c.spec_times(mean[i]));
        lemma_less_itself(c.spec_times(mean[i]));
    }
    lemma_even_means(slope, c, w, h, r);
    lemma_even_means(rest, zero, w, h, r);
    let out = guided(guide, a, w, h, r, zero);
    assert forall|i: int| 0 <= i < out.len() implies #[trigger] out[i] == a[i] by {
        assert(box_means(slope, w, h, r)[i] == c);
        assert(box_means(rest, w, h, r)[i] == zero);
        assert(a[i] == c.spec_times(guide[i]));
        lemma_less_itself(c.spec_times(guide[i]));
    }
    assert(out =~= a);
}

/// What follows the guide is kept, edges and all: an input that rises and falls with it, or
/// against it, `c` times as much and from `d` on, comes back as it is where nothing is added
/// to the variance.
pub proof fn lemma_filtering_what_follows_the_guide<S: Exact>(
    guide: Seq<S>,
    input: Seq<S>,
    c: S,
    d: S,
    w: int,
    h: int,
    r: int,
)
    requires
        unrounded::<S>(),
        filterable(guide, w, h, r, S::spec_whole(0)),
        input.len() == w * h,
        forall|k: int|
            0 <= k < w * h ==> #[trigger] input[k] == c.spec_times(guide[k]).spec_plus(d),
    ensures
        guided(guide, input, w, h, r, S::spec_whole(0)) == input,
{
    let zero = S::spec_whole(0);
    let a = Seq::new((w * h) as nat, |k: int| c.spec_times(guide[k]));
    let b = Seq::new((w * h) as nat, |k: int| d);
    lemma_filtering_a_sum(guide, a, b, input, w, h, r, zero);
    lemma_filtering_a_multiple(guide, a, c, w, h, r);
    lemma_filtering_what_is_even(guide, b, d, w, h, r, zero);
    let out = guided(guide, input, w, h, r, zero);
    assert forall|k: int| 0 <= k < out.len() implies #[trigger] out[k] == input[k] by {
        assert(guided(guide, b, w, h, r, zero)[k] == d);
        assert(out[k] == guided(guide, a, w, h, r, zero)[k].spec_plus(
            guided(guide, b, w, h, r, zero)[k],
        ));
    }
    assert(out =~= input);
}

} // verus!
