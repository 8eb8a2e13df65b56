//! What coverage means: where the pixels that a warped frame covers are sampled.

use vstd::prelude::*;
use crate::image::{
    axis_end, axis_start, ceiling, centre_of, clamped, coverage_of, covers, larger, limited,
    to_u32, trimmed_end, trimmed_start, FrameInfo,
};
use crate::pipeline::Transform;
use crate::plane::source_point;
use crate::sample::{Fixed, Sample};

verus! {

/// A magnification between a two-hundred-and-fifty-sixth and sixteen thousand, and shifts of
/// at most two thousand million pixels.
pub open spec fn moderate(t: Transform<Fixed>) -> bool {
    &&& 0x100 <= t.scale.raw <= 0x4000_0000
    &&& -0x8000_0000_0000 <= t.dx.raw <= 0x8000_0000_0000
    &&& -0x8000_0000_0000 <= t.dy.raw <= 0x8000_0000_0000
}

/// Where a pixel of an axis is read from, in steps.
pub open spec fn source_on(scale: int, shift: int, size: int, p: int) -> int {
    (scale * (p * 65536 - size * 32768)) / 65536 + shift + size * 32768
}

/// The point of an axis that maps onto a coordinate of the frame, in steps, rounded down.
spec fn mapping_onto(scale: int, shift: int, size: int, at: int) -> int {
    size * 32768 + ((at - shift - size * 32768) * 65536) / scale
}

proof fn lemma_centre(size: int)
    requires
        0 <= size <= u32::MAX,
    ensures
        centre_of::<Fixed>(size).raw == size * 32768,
        Fixed::spec_whole(size as i64).raw == size * 65536,
{
    assert(Fixed::spec_whole(2).raw == 131072);
    assert(Fixed::spec_whole(size as i64).raw == size * 65536);
    vstd::arithmetic::div_mod::lemma_fundamental_div_mod_converse(
        size * 65536 * 65536,
        131072,
        size * 32768,
        0,
    );
}

/// A coordinate that goes through a transform, one step at a time.
#[verifier::spinoff_prover]
proof fn lemma_goes_through(scale: Fixed, shift: Fixed, size: int, p: int)
    requires
        0 <= scale.raw <= 0x4000_0000,
        -0x8000_0000_0000 <= shift.raw <= 0x8000_0000_0000,
        0 <= p < size <= u32::MAX,
    ensures
        scale.spec_times(Fixed::spec_whole(p as i64).spec_minus(centre_of::<Fixed>(size))).spec_plus(
            shift,
        ).spec_plus(centre_of::<Fixed>(size)).raw == source_on(
            scale.raw as int,
            shift.raw as int,
            size,
            p,
        ),
{
    lemma_centre(size);
    lemma_centre(p);
    let c = centre_of::<Fixed>(size);
    let v = Fixed::spec_whole(p as i64).spec_minus(c);
    assert(v.raw == p * 65536 - size * 32768);
    lemma_scaled(scale.raw as int, v.raw as int);
    let m = scale.spec_times(v);
    assert(m.raw == (scale.raw * v.raw) / 65536);
    let n = m.spec_plus(shift);
    assert(n.raw == m.raw + shift.raw);
    assert(n.spec_plus(c).raw == n.raw + c.raw);
}

/// The point a pixel is read from, one axis at a time.
pub(crate) proof fn lemma_source_on(t: Transform<Fixed>, w: int, h: int, x: int, y: int)
    requires
        moderate(t),
        0 <= x < w <= u32::MAX,
        0 <= y < h <= u32::MAX,
    ensures
        source_point(t, w, h, x, y).0.raw == source_on(t.scale.raw as int, t.dx.raw as int, w, x),
        source_point(t, w, h, x, y).1.raw == source_on(t.scale.raw as int, t.dy.raw as int, h, y),
{
    lemma_goes_through(t.scale, t.dx, w, x);
    lemma_goes_through(t.scale, t.dy, h, y);
}

/// A scaled coordinate stays inside the number range.
proof fn lemma_scaled(s: int, v: int)
    requires
        0 <= s <= 0x4000_0000,
        -0x1_0000_0000_0000 <= v <= 0x1_0000_0000_0000,
    ensures
        -0x4000_0000_0000_0000 <= (s * v) / 65536 <= 0x4000_0000_0000_0000,
{
    let p = s * v;
    assert(-0x4000_0000 * 0x1_0000_0000_0000 <= p <= 0x4000_0000 * 0x1_0000_0000_0000)
        by (nonlinear_arith)
        requires
            p == s * v,
            0 <= s <= 0x4000_0000,
            -0x1_0000_0000_0000 <= v <= 0x1_0000_0000_0000,
    ;
}

/// A coordinate over a scale stays inside the number range.
proof fn lemma_divided(s: int, v: int)
    requires
        0x100 <= s,
        -0x4_0000_0000_0000 <= v <= 0x4_0000_0000_0000,
    ensures
        -0x400_0000_0000_0000 <= (v * 65536) / s <= 0x400_0000_0000_0000,
{
    let n = v * 65536;
    let q = n / s;
    vstd::arithmetic::div_mod::lemma_fundamental_div_mod(n, s);
    assert(-0x400_0000_0000_0000 <= q <= 0x400_0000_0000_0000) by (nonlinear_arith)
        requires
            n == s * q + n % s,
            0 <= n % s < s,
            -0x4_0000_0000_0000 * 65536 <= n <= 0x4_0000_0000_0000 * 65536,
            0x100 <= s,
    ;
}

/// A coordinate of a frame, brought back through a transform.
#[verifier::spinoff_prover]
proof fn lemma_comes_back(scale: Fixed, v: Fixed, size: int)
    requires
        0x100 <= scale.raw <= 0x4000_0000,
        -0x4_0000_0000_0000 <= v.raw <= 0x4_0000_0000_0000,
        0 <= size <= u32::MAX,
    ensures
        centre_of::<Fixed>(size).spec_plus(v.spec_over(scale)).raw == size * 32768 + (v.raw * 65536)
            / scale.raw as int,
        -0x401_0000_0000_0000 <= size * 32768 + (v.raw * 65536) / scale.raw as int
            <= 0x401_0000_0000_0000,
{
    lemma_centre(size);
    lemma_divided(scale.raw as int, v.raw as int);
    let q = v.spec_over(scale);
    assert(q.raw == (v.raw * 65536) / scale.raw as int);
    assert(centre_of::<Fixed>(size).spec_plus(q).raw == size * 32768 + q.raw);
}

/// A bound rounded up, inside its axis.
#[verifier::spinoff_prover]
proof fn lemma_rounded_up(v: Fixed, size: int)
    requires
        -0x401_0000_0000_0000 <= v.raw <= 0x401_0000_0000_0000,
        0 <= size <= u32::MAX,
    ensures
        to_u32(
            limited(
                ceiling(v),
                Fixed::spec_whole(0),
                Fixed::spec_whole(size as i64),
            ).spec_index() as int,
        ) == clamped(-((-v.raw) / 65536), 0, size),
{
    lemma_centre(size);
    assert(Fixed::spec_whole(0).raw == 0);
    let under = Fixed::spec_whole(0).spec_minus(v);
    assert(under.raw == -v.raw);
    let q = (-v.raw) / 65536;
    assert(under.spec_floor().raw == q * 65536);
    assert(ceiling(v).raw == -(q * 65536));
    let l = limited(ceiling(v), Fixed::spec_whole(0), Fixed::spec_whole(size as i64));
    assert(l.raw == clamped(-q, 0, size) * 65536);
    assert(l.spec_index() == clamped(-q, 0, size));
}

/// The pixel after a bound rounded down, inside its axis.
#[verifier::spinoff_prover]
proof fn lemma_rounded_down(v: Fixed, size: int)
    requires
        -0x401_0000_0000_0000 <= v.raw <= 0x401_0000_0000_0000,
        0 <= size <= u32::MAX,
    ensures
        to_u32(
            limited(
                v.spec_floor().spec_plus(Fixed::spec_whole(1)),
                Fixed::spec_whole(0),
                Fixed::spec_whole(size as i64),
            ).spec_index() as int,
        ) == clamped(v.raw as int / 65536 + 1, 0, size),
{
    lemma_centre(size);
    assert(Fixed::spec_whole(0).raw == 0);
    assert(Fixed::spec_whole(1).raw == 65536);
    let q = v.raw as int / 65536;
    assert(v.spec_floor().raw == q * 65536);
    let next = v.spec_floor().spec_plus(Fixed::spec_whole(1));
    assert(next.raw == (q + 1) * 65536);
    let l = limited(next, Fixed::spec_whole(0), Fixed::spec_whole(size as i64));
    assert(l.raw == clamped(q + 1, 0, size) * 65536);
    assert(l.spec_index() == clamped(q + 1, 0, size));
}

/// The ends of an axis, written out.
#[verifier::spinoff_prover]
proof fn lemma_axis_ends(scale: Fixed, shift: Fixed, size: int)
    requires
        0x100 <= scale.raw <= 0x4000_0000,
        -0x8000_0000_0000 <= shift.raw <= 0x8000_0000_0000,
        0 < size <= u32::MAX,
    ensures
        ({
            let (s, d) = (scale.raw as int, shift.raw as int);
            let first = mapping_onto(s, d, size, 0);
            let last = mapping_onto(s, d, size, (size - 1) * 65536);
            &&& axis_start(scale, shift, size) == clamped(-((-first) / 65536), 0, size)
            &&& axis_end(scale, shift, size) == larger(
                clamped(last / 65536 + 1, 0, size),
                axis_start(scale, shift, size),
            )
        }),
{
    let (s, d) = (scale.raw as int, shift.raw as int);
    lemma_centre(size);
    let c = centre_of::<Fixed>(size);
    assert(Fixed::spec_whole(0).raw == 0);
    assert(Fixed::spec_whole(1).raw == 65536);
    let a = Fixed::spec_whole(0).spec_minus(shift).spec_minus(c);
    assert(a.raw == -d - size * 32768);
    lemma_comes_back(scale, a, size);
    lemma_rounded_up(c.spec_plus(a.spec_over(scale)), size);
    let b = Fixed::spec_whole(size as i64).spec_minus(Fixed::spec_whole(1)).spec_minus(
        shift,
    ).spec_minus(c);
    assert(b.raw == (size - 1) * 65536 - d - size * 32768);
    lemma_comes_back(scale, b, size);
    lemma_rounded_down(c.spec_plus(b.spec_over(scale)), size);
}

/// Where the pixels from a point on, or up to it, are read from: rounding down costs less
/// than a step for each unit of scale, and one more.
proof fn lemma_reads_from(s: int, d: int, size: int, p: int, at: int, k: int)
    requires
        0 < s,
        0 <= k,
    ensures
        p * 65536 >= mapping_onto(s, d, size, at) + k ==> source_on(s, d, size, p) >= at - 1 - s
            / 65536 + (s * k) / 65536,
        p * 65536 >= mapping_onto(s, d, size, at) + k && s == 65536 ==> source_on(s, d, size, p)
            >= at + k,
        p * 65536 <= mapping_onto(s, d, size, at) ==> source_on(s, d, size, p) <= at,
{
    let c = size * 32768;
    let a = (at - d - c) * 65536;
    let q = a / s;
    let v = p * 65536 - c;
    let m = (s * v) / 65536;
    vstd::arithmetic::div_mod::lemma_fundamental_div_mod(a, s);
    vstd::arithmetic::div_mod::lemma_mod_bound(a, s);
    if v >= q + k {
        assert(s * v >= s * q + s * k) by (nonlinear_arith)
            requires
                v >= q + k,
                s > 0,
        ;
        let n = s * k;
        assert(s * v >= a - s + 1 + n);
        assert(m >= (at - d - c) - 1 - s / 65536 + n / 65536);
        if s == 65536 {
            assert(65536 * v == s * v);
        }
    }
    if v <= q {
        assert(s * v <= s * q) by (nonlinear_arith)
            requires
                v <= q,
                s > 0,
        ;
        assert(s * v <= a);
    }
}

/// A covered pixel of an axis is sampled inside the frame.
proof fn lemma_axis_is_sampled_inside(scale: Fixed, shift: Fixed, size: int, p: int)
    requires
        0x100 <= scale.raw <= 0x4000_0000,
        -0x8000_0000_0000 <= shift.raw <= 0x8000_0000_0000,
        0 < size <= u32::MAX,
        ({
            let lo = axis_start(scale, shift, size);
            let hi = axis_end(scale, shift, size);
            trimmed_start(lo) <= p < trimmed_end(lo, hi, size)
        }),
    ensures
        ({
            let s = scale.raw as int;
            let at = source_on(s, shift.raw as int, size, p);
            &&& 0 <= p < size
            &&& at <= (size - 1) * 65536
            &&& at >= -1 - s / 65536
            &&& s == 65536 ==> at >= 0
            &&& axis_start(scale, shift, size) > 0 ==> at >= 0
        }),
{
    let (s, d) = (scale.raw as int, shift.raw as int);
    let (lo, hi) = (axis_start(scale, shift, size), axis_end(scale, shift, size));
    let first = mapping_onto(s, d, size, 0);
    let last = mapping_onto(s, d, size, (size - 1) * 65536);
    lemma_axis_ends(scale, shift, size);
    assert(0 <= p < size);
    assert(lo <= p < hi);
    assert(p * 65536 >= first);
    assert(p * 65536 <= last);
    lemma_reads_from(s, d, size, p, 0, 0);
    lemma_reads_from(s, d, size, p, (size - 1) * 65536, 0);
    assert(s * 0 == 0);
    if lo > 0 {
        assert(p * 65536 >= first + 131072);
        lemma_reads_from(s, d, size, p, 0, 131072);
        assert((s * 131072) / 65536 == 2 * s);
    }
}

/// A pixel of an axis that is sampled two pixels inside the frame is covered, where the frame
/// is only shifted.
proof fn lemma_axis_inside_is_covered(shift: Fixed, size: int, p: int)
    requires
        -0x8000_0000_0000 <= shift.raw <= 0x8000_0000_0000,
        0 <= p < size <= u32::MAX,
        131072 <= source_on(65536, shift.raw as int, size, p) <= (size - 3) * 65536,
    ensures
        ({
            let one = Fixed { raw: 65536 };
            let (lo, hi) = (axis_start(one, shift, size), axis_end(one, shift, size));
            trimmed_start(lo) <= p < trimmed_end(lo, hi, size)
        }),
{
    let one = Fixed { raw: 65536 };
    let d = shift.raw as int;
    lemma_axis_ends(one, shift, size);
    let first = mapping_onto(65536, d, size, 0);
    let last = mapping_onto(65536, d, size, (size - 1) * 65536);
    let (lo, hi) = (axis_start(one, shift, size), axis_end(one, shift, size));
    assert(source_on(65536, d, size, p) == p * 65536 + d);
    assert(first == -d);
    assert(last == (size - 1) * 65536 - d);
    assert(lo == 0 || lo + 2 <= p);
    assert(hi == size || p < hi - 2);
}

/// The trimmed bounds of an axis are whole numbers of 32 bits.
proof fn lemma_bounds_fit(lo: int, hi: int, size: int)
    requires
        0 <= lo <= size <= u32::MAX,
        0 <= hi <= size,
    ensures
        0 <= trimmed_start(lo) <= u32::MAX,
        0 <= trimmed_end(lo, hi, size) <= u32::MAX,
{
}

/// A covered pixel is sampled from inside the frame, whatever the transform: from at most its
/// last column and row, and from at least its first, where the frame falls short of that
/// edge or is only shifted. Where a scaled frame reaches the edge, rounding may put the
/// sample ahead of it, by at most a step for each unit of scale and one more.
pub proof fn lemma_covered_pixels_are_sampled_inside(
    t: Transform<Fixed>,
    info: FrameInfo,
    x: int,
    y: int,
)
    requires
        moderate(t),
        info.width > 0,
        info.height > 0,
        covers(coverage_of(t, info), x, y),
    ensures
        ({
            let (sx, sy) = source_point(t, info.width as int, info.height as int, x, y);
            let s = t.scale.raw as int;
            &&& 0 <= x < info.width
            &&& 0 <= y < info.height
            &&& sx.raw <= (info.width - 1) * 65536
            &&& sy.raw <= (info.height - 1) * 65536
            &&& sx.raw >= (if s == 65536 || coverage_of(t, info).x0 > 0 {
                0
            } else {
                -1 - s / 65536
            })
            &&& sy.raw >= (if s == 65536 || coverage_of(t, info).y0 > 0 {
                0
            } else {
                -1 - s / 65536
            })
        }),
{
    let (w, h) = (info.width as int, info.height as int);
    lemma_axis_ends(t.scale, t.dx, w);
    lemma_axis_ends(t.scale, t.dy, h);
    lemma_axis_is_sampled_inside(t.scale, t.dx, w, x);
    lemma_axis_is_sampled_inside(t.scale, t.dy, h, y);
    lemma_source_on(t, w, h, x, y);
}

/// A shifted frame covers every pixel that it fills from two pixels inside it: no more is
/// given up than the trim.
#[verifier::spinoff_prover]
pub proof fn lemma_pixels_well_inside_are_covered(
    t: Transform<Fixed>,
    info: FrameInfo,
    x: int,
    y: int,
)
    requires
        moderate(t),
        t.scale.raw == 65536,
        0 <= x < info.width,
        0 <= y < info.height,
        ({
            let (sx, sy) = source_point(t, info.width as int, info.height as int, x, y);
            &&& 131072 <= sx.raw <= (info.width - 3) * 65536
            &&& 131072 <= sy.raw <= (info.height - 3) * 65536
        }),
    ensures
        covers(coverage_of(t, info), x, y),
{
    let (w, h) = (info.width as int, info.height as int);
    let one = Fixed { raw: 65536 };
    assert(t.scale == one);
    lemma_source_on(t, w, h, x, y);
    lemma_axis_inside_is_covered(t.dx, w, x);
    lemma_axis_inside_is_covered(t.dy, h, y);
    lemma_axis_ends(one, t.dx, w);
    lemma_axis_ends(one, t.dy, h);
    lemma_bounds_fit(axis_start(one, t.dx, w), axis_end(one, t.dx, w), w);
    lemma_bounds_fit(axis_start(one, t.dy, h), axis_end(one, t.dy, h), h);
}

} // verus!
