//! What a debug view shows: the mean of each block, stretched from the darkest to the
//! brightest, and a target where the reference has it.

use vstd::prelude::*;
use crate::between::lemma_whole_shifts_move_grids;
use crate::covering::moderate;
use crate::grid::{
    block_total, brought_onto, flat_range, highest_of, lowest_of, stretched, view_factor, viewed,
};
use crate::layout::lemma_place;
use crate::pipeline::{inverse_of, Transform};
use crate::plane::{cell, lemma_cell, Sheet};
use crate::rounding::{bounded, lemma_difference, lemma_sum, lemma_whole};
use crate::sample::{Fixed, Sample};
use crate::shrinking::{lemma_share, lemma_shared};
use crate::windows::{block_sum, row_total};

verus! {

proof fn lemma_lowest(data: Seq<Fixed>, a: int, n: nat)
    requires
        1 <= n <= data.len(),
        0 <= a < data.len(),
        forall|i: int| 0 <= i < data.len() ==> data[a].raw <= (#[trigger] data[i]).raw,
    ensures
        lowest_of(data, n).raw >= data[a].raw,
        a < n ==> lowest_of(data, n).raw == data[a].raw,
    decreases n,
{
    if n > 1 {
        lemma_lowest(data, a, (n - 1) as nat);
    }
}

proof fn lemma_highest(data: Seq<Fixed>, b: int, n: nat)
    requires
        1 <= n <= data.len(),
        0 <= b < data.len(),
        forall|i: int| 0 <= i < data.len() ==> (#[trigger] data[i]).raw <= data[b].raw,
    ensures
        highest_of(data, n).raw <= data[b].raw,
        b < n ==> highest_of(data, n).raw == data[b].raw,
    decreases n,
{
    if n > 1 {
        lemma_highest(data, b, (n - 1) as nat);
    }
}

/// Stretching shows the darkest sample as zero and the brightest as one, and what lies between
/// them in proportion, rounded down to a step: nothing changes places. Where all samples are
/// the same nothing is changed.
#[verifier::spinoff_prover]
pub proof fn lemma_stretching_spans_the_visible_range(
    data: Seq<Fixed>,
    a: int,
    b: int,
    i: int,
    j: int,
)
    requires
        0 <= a < data.len(),
        0 <= b < data.len(),
        0 <= i < data.len(),
        0 <= j < data.len(),
        forall|k: int|
            0 <= k < data.len() ==> data[a].raw <= (#[trigger] data[k]).raw <= data[b].raw,
        bounded(data[a], 0x1000_0000_0000),
        bounded(data[b], 0x1000_0000_0000),
    ensures
        stretched(data).len() == data.len(),
        data[a] == data[b] ==> stretched(data) == data,
        data[a] != data[b] ==> {
            let range = data[b].raw - data[a].raw;
            let part = (data[i].raw - data[a].raw) * 65536;
            &&& stretched(data)[a].raw == 0
            &&& stretched(data)[b].raw == 65536
            &&& range * stretched(data)[i].raw <= part < range * stretched(data)[i].raw + range
            &&& data[i].raw <= data[j].raw ==> stretched(data)[i].raw <= stretched(data)[j].raw
        },
{
    lemma_lowest(data, a, data.len());
    lemma_highest(data, b, data.len());
    lemma_whole(1);
    lemma_difference(data[b], data[a]);
    lemma_whole(1_000_000_000_000);
    assert(0x1_0000_0000int / 65_536_000_000_000_000 == 0);
    assert(flat_range::<Fixed>().raw == 0);
    let (low, high) = (lowest_of(data, data.len()), highest_of(data, data.len()));
    assert(low == data[a] && high == data[b]);
    if data[a] != data[b] {
        let range = data[b].raw - data[a].raw;
        assert(range > 0);
        lemma_stretched(data[a], data[b], data[a]);
        lemma_stretched(data[a], data[b], data[b]);
        lemma_stretched(data[a], data[b], data[i]);
        lemma_stretched(data[a], data[b], data[j]);
        let (p, q) = (stretched(data)[i].raw as int, stretched(data)[j].raw as int);
        let (u, v) = ((data[i].raw - data[a].raw) * 65536, (data[j].raw - data[a].raw) * 65536);
        if u <= v {
            assert(p <= q) by (nonlinear_arith)
                requires
                    range * p <= u,
                    v < range * q + range,
                    u <= v,
                    range > 0,
            ;
        }
        let (z, o) = (stretched(data)[a].raw as int, stretched(data)[b].raw as int);
        assert(z == 0) by (nonlinear_arith)
            requires
                range * z <= 0 < range * z + range,
                range > 0,
        ;
        assert(o == 65536) by (nonlinear_arith)
            requires
                range * o <= range * 65536 < range * o + range,
                range > 0,
        ;
    }
}

proof fn lemma_stretched(low: Fixed, high: Fixed, v: Fixed)
    requires
        bounded(low, 0x1000_0000_0000),
        bounded(high, 0x1000_0000_0000),
        low.raw <= v.raw <= high.raw,
        low.raw < high.raw,
    ensures
        ({
            let range = high.raw - low.raw;
            let r = v.spec_minus(low).spec_over(high.spec_minus(low)).raw;
            range * r <= (v.raw - low.raw) * 65536 < range * r + range
        }),
{
    lemma_difference(v, low);
    lemma_difference(high, low);
    let (n, d) = ((v.raw - low.raw) * 65536, high.raw - low.raw);
    let q = n / d;
    assert(d * q <= n < d * q + d && 0 <= q <= 65536) by (nonlinear_arith)
        requires
            q == n / d,
            d > 0,
            0 <= n <= d * 65536,
    ;
}

/// The levels of a sheet.
pub open spec fn sheet_levels(s: Sheet<Fixed>) -> spec_fn(int, int) -> int {
    |u: int, v: int| cell(s, u, v).raw as int
}

#[verifier::spinoff_prover]
proof fn lemma_block_total(s: Sheet<Fixed>, x: int, y: int, f: int, k: nat)
    requires
        1 <= f <= 1024,
        0 <= x,
        0 <= y,
        x * f + f <= s.w,
        y * f + f <= s.h,
        s.data.len() == s.w * s.h,
        forall|i: int| 0 <= i < s.data.len() ==> 0 <= (#[trigger] s.data[i]).raw <= 0x100_0000_0000,
        k <= f * f,
    ensures
        block_total(s, x, y, f, k).raw == block_sum(
            sheet_levels(s),
            x * f,
            y * f,
            f as nat,
            (k as int / f) as nat,
        ) + row_total(sheet_levels(s), x * f, y * f + k as int / f, (k as int % f) as nat),
        0 <= block_total(s, x, y, f, k).raw <= k * 0x100_0000_0000,
    decreases k,
{
    let lv = sheet_levels(s);
    if k == 0 {
        lemma_whole(0);
        assert(0int / f == 0 && 0int % f == 0) by (nonlinear_arith)
            requires
                f >= 1,
        ;
    } else {
        let n = (k - 1) as nat;
        lemma_block_total(s, x, y, f, n);
        let (q, r) = (n as int / f, n as int % f);
        assert(n == f * q + r && 0 <= r < f && 0 <= q < f) by (nonlinear_arith)
            requires
                q == n as int / f,
                r == n as int % f,
                f >= 1,
                n < f * f,
        ;
        assert(0 <= x * f && 0 <= y * f) by (nonlinear_arith)
            requires
                0 <= x,
                0 <= y,
                f >= 1,
        ;
        lemma_place(x * f + r, y * f + q, s.w, s.h);
        assert(f * f <= 1024 * 1024) by (nonlinear_arith)
            requires
                1 <= f <= 1024,
        ;
        assert(lv(x * f + r, y * f + q) == cell(s, x * f + r, y * f + q).raw);
        lemma_sum(block_total(s, x, y, f, n), cell(s, x * f + r, y * f + q));
        if r + 1 < f {
            assert(k as int / f == q && k as int % f == r + 1) by {
                vstd::arithmetic::div_mod::lemma_fundamental_div_mod_converse(
                    k as int,
                    f,
                    q,
                    r + 1,
                );
            }
        } else {
            assert(f * (q + 1) == f * q + f) by (nonlinear_arith);
            assert(k as int / f == q + 1 && k as int % f == 0) by {
                vstd::arithmetic::div_mod::lemma_fundamental_div_mod_converse(
                    k as int,
                    f,
                    q + 1,
                    0,
                );
            }
        }
    }
}

/// A pixel of a view is the mean of the block of the grid that it stands for: as many rows as
/// columns, each sample once. What is lost is less than a step, and less than a step of the
/// share of a sample.
#[verifier::spinoff_prover]
pub proof fn lemma_views_average_their_blocks(s: Sheet<Fixed>, x: int, y: int)
    requires
        0 < s.w <= 1024 * 1400,
        0 < s.h <= 1024 * 1400,
        s.data.len() == s.w * s.h,
        view_factor(s.w, s.h) > 1,
        0 <= x < s.w / view_factor(s.w, s.h),
        0 <= y < s.h / view_factor(s.w, s.h),
        forall|i: int| 0 <= i < s.data.len() ==> 0 <= (#[trigger] s.data[i]).raw <= 0x100_0000_0000,
    ensures
        ({
            let f = view_factor(s.w, s.h);
            let n = f * f;
            let sum = block_sum(sheet_levels(s), x * f, y * f, f as nat, f as nat);
            let r = cell(viewed(s), x, y).raw;
            &&& viewed(s).w == s.w / f
            &&& viewed(s).h == s.h / f
            &&& 0 <= n * r <= sum
            &&& 65536 * (sum - n * r) < n * (sum + 65536)
            &&& 65536int % n == 0 ==> r == sum / n
        }),
{
    let f = view_factor(s.w, s.h);
    assert(1 < f <= 1024);
    let (cols, rows) = (s.w / f, s.h / f);
    vstd::arithmetic::div_mod::lemma_fundamental_div_mod(s.w, f);
    vstd::arithmetic::div_mod::lemma_fundamental_div_mod(s.h, f);
    vstd::arithmetic::div_mod::lemma_mod_bound(s.w, f);
    vstd::arithmetic::div_mod::lemma_mod_bound(s.h, f);
    assert(x * f + f <= s.w && y * f + f <= s.h) by (nonlinear_arith)
        requires
            s.w == f * cols + s.w % f,
            s.h == f * rows + s.h % f,
            0 <= s.w % f,
            0 <= s.h % f,
            x + 1 <= cols,
            y + 1 <= rows,
            f >= 1,
    ;
    let n = f * f;
    assert(1 <= n <= 1024 * 1024 && n / f == f && n % f == 0) by (nonlinear_arith)
        requires
            n == f * f,
            1 <= f <= 1024,
    ;
    lemma_block_total(s, x, y, f, n as nat);
    let sum = block_total(s, x, y, f, n as nat);
    lemma_whole(n);
    let d = Fixed::spec_whole(n as i64);
    lemma_share(d, n);
    lemma_shared(sum, Fixed::spec_whole(1).spec_over(d), n);
    lemma_cell(
        cols,
        rows,
        |x: int, y: int|
            block_total(s, x, y, f, (f * f) as nat).spec_times(
                Fixed::spec_whole(1).spec_over(Fixed::spec_whole((f * f) as i64)),
            ),
        x,
        y,
    );
}

/// An overlay shows the target where the reference has it: where the content of the target lies
/// whole pixels to the right of the reference's and below it, the overlay reads it from there.
#[verifier::spinoff_prover]
pub proof fn lemma_overlays_read_the_target_where_it_went(
    target: Sheet<Fixed>,
    t: Transform<Fixed>,
    right: int,
    down: int,
    x: int,
    y: int,
)
    requires
        moderate(t),
        moderate(inverse_of(t)),
        t.scale.raw == 65536,
        t.dx.raw == right * 65536,
        t.dy.raw == down * 65536,
        0 <= x < target.w <= u32::MAX,
        0 <= y < target.h <= u32::MAX,
        forall|i: int|
            0 <= i < target.data.len() ==> bounded(
                #[trigger] target.data[i],
                0x1000_0000_0000_0000,
            ),
        target.data.len() == target.w * target.h,
    ensures
        cell(brought_onto(target, t), x, y) == (if 0 <= x + right < target.w && 0 <= y + down
            < target.h {
            cell(target, x + right, y + down)
        } else {
            Fixed { raw: 0 }
        }),
{
    crate::between::lemma_shift_is_undone(t);
    lemma_whole_shifts_move_grids(target, inverse_of(t), -right, -down, x, y);
}

} // verus!
