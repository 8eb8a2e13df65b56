//! What goes into a correlation: every pixel of a block in its mean luminance, and every sample
//! of a grid under the window of its column and of its row.

use vstd::prelude::*;
use crate::grid::{block_light, coarse, row_light};
use crate::layout::{lemma_place, lemma_sample};
use crate::luma::{coefficient, luminance};
use crate::plane::{cell, lemma_cell, Sheet};
use crate::reading::rows_of;
use crate::registration::{mean_of, prepared};
use crate::rounding::{
    bounded, lemma_difference, lemma_part, lemma_product_of, lemma_sum, lemma_whole,
};
use crate::sample::{Fixed, Sample};
use crate::windows::{block_sum, lemma_blocks_agree, lemma_blocks_turn, row_total};

verus! {

/// How far a number is from zero.
pub open spec fn size_of(v: int) -> int {
    if v < 0 {
        -v
    } else {
        v
    }
}

proof fn lemma_coefficients()
    ensures
        coefficient::<Fixed>(0).raw == 13932,
        coefficient::<Fixed>(1).raw == 46871,
        coefficient::<Fixed>(2).raw == 4731,
{
    lemma_whole(2126);
    lemma_whole(7152);
    lemma_whole(722);
    lemma_whole(10000);
    assert((139_329_536int * 65536) / 655_360_000 == 13932);
    assert((468_713_472int * 65536) / 655_360_000 == 46871);
    assert((47_316_992int * 65536) / 655_360_000 == 4731);
}

/// Luminance is 0.2126 of red, 0.7152 of green and 0.0722 of blue, but for a 65536th of each and
/// three steps.
#[verifier::spinoff_prover]
pub proof fn lemma_luminance_weighs_the_channels(r: Fixed, g: Fixed, b: Fixed)
    requires
        bounded(r, 0x1000_0000_0000_0000),
        bounded(g, 0x1000_0000_0000_0000),
        bounded(b, 0x1000_0000_0000_0000),
    ensures
        ({
            let want = 2126 * r.raw + 7152 * g.raw + 722 * b.raw;
            let off = size_of(r.raw as int) + size_of(g.raw as int) + size_of(b.raw as int)
                + 3 * 65536;
            size_of(10000 * luminance(r, g, b).raw - want) * 65536 <= 10000 * off
        }),
        bounded(luminance(r, g, b), 0x3000_0000_0000_0000),
{
    lemma_coefficients();
    let m = 0x1000_0000_0000_0000int;
    let (p, q, s) = (coefficient::<Fixed>(0), coefficient::<Fixed>(1), coefficient::<Fixed>(2));
    lemma_part(r, p, m);
    lemma_part(g, q, m);
    lemma_part(b, s, m);
    lemma_sum(p.spec_times(r), q.spec_times(g));
    lemma_sum(p.spec_times(r).spec_plus(q.spec_times(g)), s.spec_times(b));
}

/// The luminance of a pixel of a frame of interleaved colours, in steps.
pub open spec fn light_at(frame: Seq<Fixed>, width: int) -> spec_fn(int, int) -> int {
    |x: int, y: int|
        {
            let i = (y * width + x) * 3;
            luminance(frame[i], frame[i + 1], frame[i + 2]).raw as int
        }
}

/// The light of a row of a block, without wrapping around.
proof fn lemma_row_light(
    frame: Seq<Fixed>,
    row: Seq<Fixed>,
    width: int,
    x: int,
    y: int,
    n: nat,
    m: int,
)
    requires
        0 <= x,
        x + n <= width,
        0 <= y,
        row.len() == width * 3,
        forall|k: int| 0 <= k < width * 3 ==> #[trigger] row[k] == frame[y * (width * 3) + k],
        forall|u: int| 0 <= u < width ==> -m <= #[trigger] light_at(frame, width)(u, y) <= m,
        0 <= m <= 0x1_0000_0000_0000,
        n <= 256,
    ensures
        row_light(row, x, n).raw == row_total(light_at(frame, width), x, y, n),
        -(n * m) <= row_total(light_at(frame, width), x, y, n) <= n * m,
    decreases n,
{
    let f = light_at(frame, width);
    if n == 0 {
        lemma_whole(0);
        assert(0 * m == 0) by (nonlinear_arith);
    } else {
        let k = (n - 1) as nat;
        lemma_row_light(frame, row, width, x, y, k, m);
        let u = x + n - 1;
        let at = 3 * u;
        assert(y * (width * 3) + at == (y * width + u) * 3) by (nonlinear_arith)
            requires
                at == 3 * u,
        ;
        assert(row[at] == frame[y * (width * 3) + at]);
        assert(row[at + 1] == frame[y * (width * 3) + (at + 1)]);
        assert(row[at + 2] == frame[y * (width * 3) + (at + 2)]);
        let v = luminance(row[at], row[at + 1], row[at + 2]);
        assert(f(u, y) == v.raw);
        assert(n * m == k * m + m) by (nonlinear_arith)
            requires
                n == k + 1,
        ;
        assert(k * m <= 256 * 0x1_0000_0000_0000) by (nonlinear_arith)
            requires
                0 <= k <= 256,
                0 <= m <= 0x1_0000_0000_0000,
        ;
        lemma_sum(row_light(row, x, k), v);
    }
}

/// The light of one row of a block, without wrapping around.
#[verifier::spinoff_prover]
proof fn lemma_block_row(
    frame: Seq<Fixed>,
    band: Seq<Fixed>,
    width: int,
    height: int,
    x: int,
    y: int,
    side: nat,
    k: int,
    m: int,
)
    requires
        0 <= x,
        x + side <= width,
        0 <= y,
        y + side <= height,
        0 <= k < side <= 256,
        band.len() == width * 3 * side,
        forall|j: int|
            0 <= j < width * 3 * side ==> #[trigger] band[j] == frame[y * (width * 3) + j],
        forall|u: int, v: int|
            0 <= u < width && 0 <= v < height ==> -m <= #[trigger] light_at(frame, width)(u, v)
                <= m,
        0 <= m <= 0x1_0000_0000_0000,
    ensures
        row_light(band.subrange(k * (width * 3), k * (width * 3) + width * 3), x, side).raw
            == row_total(light_at(frame, width), x, y + k, side),
        -(side * m) <= row_total(light_at(frame, width), x, y + k, side) <= side * m,
{
    let n = width * 3;
    let at = k * n;
    assert(0 <= at && at + n <= n * side) by (nonlinear_arith)
        requires
            at == k * n,
            0 <= k,
            k + 1 <= side,
            0 <= n,
    ;
    let row = band.subrange(at, at + n);
    assert forall|j: int| 0 <= j < n implies #[trigger] row[j] == frame[(y + k) * n + j] by {
        assert(row[j] == band[at + j]);
        assert(y * n + (at + j) == (y + k) * n + j) by (nonlinear_arith)
            requires
                at == k * n,
        ;
    }
    lemma_row_light(frame, row, width, x, y + k, side, m);
}

/// The light of a block, without wrapping around.
#[verifier::spinoff_prover]
proof fn lemma_block_light(
    frame: Seq<Fixed>,
    band: Seq<Fixed>,
    width: int,
    height: int,
    x: int,
    y: int,
    side: nat,
    rows: nat,
    m: int,
)
    requires
        0 <= x,
        x + side <= width,
        0 <= y,
        y + side <= height,
        rows <= side <= 256,
        band.len() == width * 3 * side,
        forall|k: int|
            0 <= k < width * 3 * side ==> #[trigger] band[k] == frame[y * (width * 3) + k],
        forall|u: int, v: int|
            0 <= u < width && 0 <= v < height ==> -m <= #[trigger] light_at(frame, width)(u, v)
                <= m,
        0 <= m <= 0x3000_0000_0000,
    ensures
        block_light(band, width * 3, x, side, rows).raw == block_sum(
            light_at(frame, width),
            x,
            y,
            side,
            rows,
        ),
        -(rows * (side * m)) <= block_sum(light_at(frame, width), x, y, side, rows) <= rows * (side
            * m),
    decreases rows,
{
    let n = width * 3;
    if rows == 0 {
        lemma_whole(0);
        assert(0 * (side * m) == 0) by (nonlinear_arith);
    } else {
        let k = (rows - 1) as nat;
        lemma_block_light(frame, band, width, height, x, y, side, k, m);
        let at = k * n;
        let row = band.subrange(at, at + n);
        lemma_block_row(frame, band, width, height, x, y, side, k as int, m);
        assert(rows * (side * m) == k * (side * m) + side * m) by (nonlinear_arith)
            requires
                rows == k + 1,
        ;
        let p = side * m;
        assert(0 <= p <= 0x30_0000_0000_0000) by (nonlinear_arith)
            requires
                p == side * m,
                0 <= side <= 256,
                0 <= m <= 0x3000_0000_0000,
        ;
        assert(0 <= k * p <= 0x3000_0000_0000_0000) by (nonlinear_arith)
            requires
                0 <= k <= 255,
                0 <= p <= 0x30_0000_0000_0000,
        ;
        lemma_sum(block_light(band, n, x, side, k), row_light(row, x, side));
    }
}

/// A cell of a frame brought down by a factor is the mean luminance of its block: of every
/// pixel of `scale` columns and `scale` rows, each once, rounded down to a step.
#[verifier::spinoff_prover]
pub proof fn lemma_cells_are_the_means_of_their_blocks(
    frame: Seq<Fixed>,
    width: int,
    height: int,
    scale: int,
    x: int,
    y: int,
)
    requires
        scale == 1 || scale == 2 || scale == 4 || scale == 8 || scale == 16 || scale == 32 || scale
            == 64 || scale == 128 || scale == 256,
        frame.len() == width * height * 3,
        0 <= x < width / scale,
        0 <= y < height / scale,
        forall|i: int| 0 <= i < frame.len() ==> bounded(#[trigger] frame[i], 0x1000_0000_0000),
    ensures
        cell(coarse(frame, width, height, scale), x, y).raw == block_sum(
            light_at(frame, width),
            x * scale,
            y * scale,
            scale as nat,
            scale as nat,
        ) / (scale * scale),
{
    let m = 0x3000_0000_0000int;
    let f = light_at(frame, width);
    let n = width * 3;
    lemma_inside(x, scale, width);
    lemma_inside(y, scale, height);
    assert forall|u: int, v: int| 0 <= u < width && 0 <= v < height implies -m <= #[trigger] f(u, v)
        <= m by {
        lemma_sample(u, v, 0, width, height, 3);
        lemma_sample(u, v, 2, width, height, 3);
        let i = (v * width + u) * 3;
        lemma_light_is_bounded(frame[i], frame[i + 1], frame[i + 2]);
    }
    let (px, py) = (x * scale, y * scale);
    let band = rows_of(frame, n, py, scale);
    assert(0 <= py * n && (py + scale) * n <= frame.len() && (py + scale) * n - py * n == n * scale)
        by (nonlinear_arith)
        requires
            0 <= py,
            py + scale <= height,
            0 <= n,
            frame.len() == width * height * 3,
            n == width * 3,
    ;
    lemma_block_light(frame, band, width, height, px, py, scale as nat, scale as nat, m);
    lemma_cell(
        width / scale,
        height / scale,
        |x: int, y: int|
            crate::grid::block_mean(rows_of(frame, n, y * scale, scale), n, scale, x),
        x,
        y,
    );
    lemma_whole(scale);
    lemma_whole(1);
    let side = Fixed::spec_whole(scale as i64);
    let light = block_light(band, n, px, scale as nat, scale as nat);
    lemma_shared_out(light, side, scale);
}

proof fn lemma_inside(x: int, scale: int, width: int)
    requires
        1 <= scale,
        0 <= x < width / scale,
    ensures
        0 <= x * scale,
        x * scale + scale <= width,
{
    vstd::arithmetic::div_mod::lemma_fundamental_div_mod(width, scale);
    vstd::arithmetic::div_mod::lemma_mod_bound(width, scale);
    let q = width / scale;
    assert(0 <= x * scale && x * scale + scale <= width) by (nonlinear_arith)
        requires
            width == scale * q + width % scale,
            0 <= width % scale,
            0 <= x,
            x + 1 <= q,
            1 <= scale,
    ;
}

proof fn lemma_light_is_bounded(r: Fixed, g: Fixed, b: Fixed)
    requires
        bounded(r, 0x1000_0000_0000),
        bounded(g, 0x1000_0000_0000),
        bounded(b, 0x1000_0000_0000),
    ensures
        bounded(luminance(r, g, b), 0x3000_0000_0000),
{
    lemma_coefficients();
    let m = 0x1000_0000_0000int;
    let (p, q, s) = (coefficient::<Fixed>(0), coefficient::<Fixed>(1), coefficient::<Fixed>(2));
    lemma_part(r, p, m);
    lemma_part(g, q, m);
    lemma_part(b, s, m);
    lemma_sum(p.spec_times(r), q.spec_times(g));
    lemma_sum(p.spec_times(r).spec_plus(q.spec_times(g)), s.spec_times(b));
}

/// A sum shared out over a block whose pixels divide 65536.
#[verifier::spinoff_prover]
proof fn lemma_shared_out(light: Fixed, side: Fixed, scale: int)
    requires
        scale == 1 || scale == 2 || scale == 4 || scale == 8 || scale == 16 || scale == 32 || scale
            == 64 || scale == 128 || scale == 256,
        side.raw == scale * 65536,
        Fixed::spec_whole(1).raw == 65536,
        bounded(light, 0x4000_0000_0000_0000),
    ensures
        light.spec_times(Fixed::spec_whole(1).spec_over(side.spec_times(side))).raw == light.raw
            as int / (scale * scale),
{
    let v = light.raw as int;
    let c = scale * scale;
    assert(c == 1 || c == 4 || c == 16 || c == 64 || c == 256 || c == 1024 || c == 4096 || c == 16384
        || c == 65536);
    assert((scale * 65536) * (scale * 65536) == (c * 65536) * 65536) by (nonlinear_arith)
        requires
            c == scale * scale,
    ;
    lemma_product_of(side, side);
    let d = side.spec_times(side);
    assert(d.raw == c * 65536);
    let inv = Fixed::spec_whole(1).spec_over(d);
    lemma_shares(c);
    assert(inv.raw == 65536int / c);
    lemma_part(light, inv, 0x4000_0000_0000_0000);
    assert((v * (65536int / c)) / 65536 == v / c) by {
        lemma_shares_of(v, c);
    }
}

proof fn lemma_shares(c: int)
    requires
        c == 1 || c == 4 || c == 16 || c == 64 || c == 256 || c == 1024 || c == 4096 || c == 16384
            || c == 65536,
    ensures
        (65536int * 65536) / (c * 65536) == 65536int / c,
        0 <= 65536int / c <= 65536,
{
    let all = 65536int * 65536;
    assert(all == 0x1_0000_0000);
    if c == 1 {
        assert(all / 65536 == 65536);
    } else if c == 4 {
        assert(all / 262144 == 16384);
    } else if c == 16 {
        assert(all / 1048576 == 4096);
    } else if c == 64 {
        assert(all / 4194304 == 1024);
    } else if c == 256 {
        assert(all / 16777216 == 256);
    } else if c == 1024 {
        assert(all / 67108864 == 64);
    } else if c == 4096 {
        assert(all / 268435456 == 16);
    } else if c == 16384 {
        assert(all / 1073741824 == 4);
    } else {
        assert(all / 0x1_0000_0000 == 1);
    }
}

proof fn lemma_shares_of(v: int, c: int)
    requires
        c == 1 || c == 4 || c == 16 || c == 64 || c == 256 || c == 1024 || c == 4096 || c == 16384
            || c == 65536,
    ensures
        (v * (65536int / c)) / 65536 == v / c,
{
    if c == 1 {
        assert((v * 65536) / 65536 == v / 1);
    } else if c == 4 {
        assert((v * 16384) / 65536 == v / 4);
    } else if c == 16 {
        assert((v * 4096) / 65536 == v / 16);
    } else if c == 64 {
        assert((v * 1024) / 65536 == v / 64);
    } else if c == 256 {
        assert((v * 256) / 65536 == v / 256);
    } else if c == 1024 {
        assert((v * 64) / 65536 == v / 1024);
    } else if c == 4096 {
        assert((v * 16) / 65536 == v / 4096);
    } else if c == 16384 {
        assert((v * 4) / 65536 == v / 16384);
    } else {
        assert((v * 1) / 65536 == v / 65536);
    }
}

/// Bringing a frame down prefers no axis: with rows and columns exchanged, so are the cells',
/// to the last step.
pub proof fn lemma_cells_turn(
    frame: Seq<Fixed>,
    turned: Seq<Fixed>,
    width: int,
    height: int,
    scale: int,
    x: int,
    y: int,
)
    requires
        scale == 1 || scale == 2 || scale == 4 || scale == 8 || scale == 16 || scale == 32 || scale
            == 64 || scale == 128 || scale == 256,
        frame.len() == width * height * 3,
        turned.len() == width * height * 3,
        0 <= x < width / scale,
        0 <= y < height / scale,
        forall|i: int| 0 <= i < frame.len() ==> bounded(#[trigger] frame[i], 0x1000_0000_0000),
        forall|i: int| 0 <= i < turned.len() ==> bounded(#[trigger] turned[i], 0x1000_0000_0000),
        forall|u: int, v: int|
            0 <= u < width && 0 <= v < height ==> #[trigger] light_at(turned, height)(v, u)
                == light_at(frame, width)(u, v),
    ensures
        cell(coarse(turned, height, width, scale), y, x) == cell(
            coarse(frame, width, height, scale),
            x,
            y,
        ),
{
    assert(width * height * 3 == height * width * 3) by (nonlinear_arith);
    lemma_cells_are_the_means_of_their_blocks(frame, width, height, scale, x, y);
    lemma_cells_are_the_means_of_their_blocks(turned, height, width, scale, y, x);
    lemma_inside(x, scale, width);
    lemma_inside(y, scale, height);
    let f = light_at(frame, width);
    let g = light_at(turned, height);
    let back = |v: int, u: int| f(u, v);
    let n = scale as nat;
    lemma_blocks_turn(f, back, x * scale, y * scale, n, n);
    assert forall|v: int, u: int|
        y * scale <= v < y * scale + n && x * scale <= u < x * scale + n implies #[trigger] g(v, u)
        == back(v, u) by {}
    lemma_blocks_agree(g, back, y * scale, x * scale, n, n);
}

/// A sample of a prepared grid is what its cell has over the mean, under the window of its
/// column and that of its row, rounded down by less than two steps; beyond the grid there is
/// nothing.
#[verifier::spinoff_prover]
pub proof fn lemma_prepared_samples_are_windowed(
    s: Sheet<Fixed>,
    across: Seq<Fixed>,
    down: Seq<Fixed>,
    fw: int,
    fh: int,
    x: int,
    y: int,
)
    requires
        s.data.len() == s.w * s.h,
        across.len() == s.w,
        down.len() == s.h,
        0 <= s.w,
        0 <= s.h,
        0 <= x < fw,
        0 <= y < fh,
        forall|i: int| 0 <= i < s.data.len() ==> bounded(#[trigger] s.data[i], 0x100_0000_0000_0000),
        forall|i: int| 0 <= i < across.len() ==> 0 <= (#[trigger] across[i]).raw <= 65536,
        forall|i: int| 0 <= i < down.len() ==> 0 <= (#[trigger] down[i]).raw <= 65536,
        bounded(mean_of(s.data), 0x100_0000_0000_0000),
    ensures
        x >= s.w || y >= s.h ==> prepared(s, across, down, fw, fh)[y * fw + x].raw == 0,
        x < s.w && y < s.h ==> ({
            let all = (s.data[y * s.w + x].raw - mean_of(s.data).raw) * across[x].raw * down[y].raw;
            all - 0x2_0000_0000 < 0x1_0000_0000 * prepared(s, across, down, fw, fh)[y * fw + x].raw
                <= all
        }),
{
    lemma_sample(x, y, 0, fw, fh, 1);
    lemma_whole(0);
    assert((y * fw + x) * 1 + 0 == y * fw + x);
    if x < s.w && y < s.h {
        lemma_place(x, y, s.w, s.h);
        let m = 0x200_0000_0000_0000int;
        let v = s.data[y * s.w + x];
        lemma_difference(v, mean_of(s.data));
        let d = v.spec_minus(mean_of(s.data));
        lemma_part(d, across[x], m);
        let p = d.spec_times(across[x]);
        lemma_part(p, down[y], m);
        let q = p.spec_times(down[y]);
        let (a, b) = (across[x].raw as int, down[y].raw as int);
        let e = d.raw * a;
        assert(e * b - 65536 * b <= 65536 * (p.raw * b) <= e * b) by (nonlinear_arith)
            requires
                e - 65536 < 65536 * p.raw <= e,
                0 <= b,
        ;
        assert(d.raw * a * b == e * b);
    }
}

} // verus!
