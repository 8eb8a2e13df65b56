//! Planes stored row after row.

use rayon::iter::{IntoParallelIterator, ParallelIterator};
use vstd::arithmetic::div_mod::{lemma_fundamental_div_mod, lemma_fundamental_div_mod_converse};
use vstd::prelude::*;

verus! {

/// The place of column `x` of row `y` lies inside a plane of `w` by `h`, and `x` and `y`
/// can be read back from it.
pub proof fn lemma_place(x: int, y: int, w: int, h: int)
    requires
        0 <= x < w,
        0 <= y < h,
    ensures
        0 <= y * w + x < w * h,
        (y * w + x) % w == x,
        (y * w + x) / w == y,
        y * w + w <= w * h,
        0 <= y * w,
{
    assert(y * w + w <= w * h) by (nonlinear_arith)
        requires
            0 <= y < h,
            0 < w,
    ;
    assert(0 <= y * w) by (nonlinear_arith)
        requires
            0 <= y,
            0 < w,
    ;
    lemma_fundamental_div_mod_converse(y * w + x, w, y, x);
}

/// Every place inside a plane has a column and a row.
pub proof fn lemma_column_and_row(i: int, w: int, h: int)
    requires
        0 <= i < w * h,
        0 <= w,
        0 <= h,
    ensures
        0 <= i % w < w,
        0 <= i / w < h,
        (i / w) * w + i % w == i,
{
    assert(w > 0) by (nonlinear_arith)
        requires
            0 <= i < w * h,
            0 <= w,
            0 <= h,
    ;
    lemma_fundamental_div_mod(i, w);
    assert((i / w) * w == w * (i / w)) by (nonlinear_arith);
    assert(0 <= i / w < h) by (nonlinear_arith)
        requires
            0 <= i < w * h,
            w > 0,
            i == w * (i / w) + i % w,
            0 <= i % w < w,
    ;
}

/// Where a sample of an interleaved image stands: pixels row after row, and in each pixel
/// its channels.
pub open spec fn column(i: int, w: int, c: int) -> int {
    (i / c) % w
}

pub open spec fn row(i: int, w: int, c: int) -> int {
    (i / c) / w
}

pub open spec fn channel(i: int, c: int) -> int {
    i % c
}

/// The place of a channel of a pixel.
pub open spec fn place(x: int, y: int, ch: int, w: int, c: int) -> int {
    (y * w + x) * c + ch
}

/// The image of `w` by `h` pixels of `c` channels whose samples `f` gives.
pub open spec fn image_of<S>(w: int, h: int, c: int, f: spec_fn(int, int, int) -> S) -> Seq<S> {
    Seq::new((w * h * c) as nat, |i: int| f(column(i, w, c), row(i, w, c), channel(i, c)))
}

/// A sample's place gives back its pixel and channel, and lies inside the image.
pub proof fn lemma_sample(x: int, y: int, ch: int, w: int, h: int, c: int)
    requires
        0 <= x < w,
        0 <= y < h,
        0 <= ch < c,
    ensures
        0 <= place(x, y, ch, w, c) < w * h * c,
        column(place(x, y, ch, w, c), w, c) == x,
        row(place(x, y, ch, w, c), w, c) == y,
        channel(place(x, y, ch, w, c), c) == ch,
        place(x, y, ch, w, c) == y * (w * c) + (x * c + ch),
        0 <= x * c + ch < w * c,
        (x * c + ch) / c == x,
        (x * c + ch) % c == ch,
{
    lemma_place(x, y, w, h);
    let p = y * w + x;
    lemma_place(ch, p, c, w * h);
    assert(c * (w * h) == w * h * c) by (nonlinear_arith);
    lemma_place(ch, x, c, w);
    assert(c * w == w * c) by (nonlinear_arith);
    assert((y * w + x) * c == y * (w * c) + x * c) by (nonlinear_arith);
}

/// Every place inside an image belongs to one channel of one pixel.
pub proof fn lemma_place_of(i: int, w: int, h: int, c: int)
    requires
        0 <= i < w * h * c,
        0 <= w,
        0 <= h,
        0 <= c,
    ensures
        0 <= column(i, w, c) < w,
        0 <= row(i, w, c) < h,
        0 <= channel(i, c) < c,
        place(column(i, w, c), row(i, w, c), channel(i, c), w, c) == i,
{
    assert(c * (w * h) == w * h * c) by (nonlinear_arith);
    assert(0 <= w * h) by (nonlinear_arith)
        requires
            0 <= w,
            0 <= h,
    ;
    lemma_column_and_row(i, c, w * h);
    lemma_column_and_row(i / c, w, h);
}

/// The results of `f` for `0..count`, in that order, computed across threads by
/// `rayon::iter::ParallelIterator::map` over the range and `collect`. Collecting an
/// indexed parallel iterator keeps the order of the indices, whichever thread finishes
/// first.
#[verifier::external_body]
pub(crate) fn in_parallel<T: Send, F: Fn(usize) -> T + Sync + Send>(count: usize, f: F) -> (out:
    Vec<T>)
    requires
        forall|i: usize| i < count ==> call_requires(f, (i,)),
    ensures
        out@.len() == count,
        forall|i: usize| i < count ==> call_ensures(f, (i,), #[trigger] out@[i as int]),
{
    (0..count).into_par_iter().map(f).collect()
}

/// The samples of one row, as `f` gives them.
pub open spec fn row_holds<S>(
    line: Seq<S>,
    w: int,
    c: int,
    y: int,
    f: spec_fn(int, int, int) -> S,
) -> bool {
    &&& line.len() == w * c
    &&& forall|x: int, ch: int|
        0 <= x < w && 0 <= ch < c ==> #[trigger] line[x * c + ch] == f(x, y, ch)
}

/// One row of an image.
fn fill_row<S: Copy, F: Fn(usize, usize, usize) -> S>(
    w: usize,
    c: usize,
    y: usize,
    f: &F,
    Ghost(g): Ghost<spec_fn(int, int, int) -> S>,
) -> (out: Vec<S>)
    requires
        w * c <= usize::MAX,
        forall|x: usize, ch: usize|
            x < w && ch < c ==> #[trigger] call_requires(f, (x, y, ch)),
        forall|x: usize, ch: usize, r: S|
            x < w && ch < c && #[trigger] call_ensures(f, (x, y, ch), r) ==> r == g(
                x as int,
                y as int,
                ch as int,
            ),
    ensures
        row_holds(out@, w as int, c as int, y as int, g),
{
    let mut out: Vec<S> = Vec::new();
    let mut x: usize = 0;
    while x < w
        invariant
            x <= w,
            w * c <= usize::MAX,
            out@.len() == x * c,
            forall|x: usize, ch: usize|
                x < w && ch < c ==> #[trigger] call_requires(f, (x, y, ch)),
            forall|x: usize, ch: usize, r: S|
                x < w && ch < c && #[trigger] call_ensures(f, (x, y, ch), r) ==> r == g(
                    x as int,
                    y as int,
                    ch as int,
                ),
            forall|u: int, v: int|
                0 <= u < x && 0 <= v < c ==> #[trigger] out@[u * c + v] == g(u, y as int, v),
        decreases w - x,
    {
        let mut ch: usize = 0;
        while ch < c
            invariant
                x < w,
                ch <= c,
                out@.len() == x * c + ch,
                forall|x: usize, ch: usize|
                    x < w && ch < c ==> #[trigger] call_requires(f, (x, y, ch)),
                forall|x: usize, ch: usize, r: S|
                    x < w && ch < c && #[trigger] call_ensures(f, (x, y, ch), r) ==> r == g(
                        x as int,
                        y as int,
                        ch as int,
                    ),
                forall|u: int, v: int|
                    0 <= u <= x && 0 <= v < c && (u < x || v < ch) ==> #[trigger] out@[u * c + v]
                        == g(u, y as int, v),
            decreases c - ch,
        {
            let value = f(x, y, ch);
            let ghost before = out@;
            out.push(value);
            proof {
                assert forall|u: int, v: int|
                    0 <= u <= x && 0 <= v < c && (u < x || v < ch + 1) implies #[trigger] out@[u * c
                    + v] == g(u, y as int, v) by {
                    if u < x {
                        lemma_place(v, u, c as int, x as int);
                        assert(c * x == x * c) by (nonlinear_arith);
                        assert(before[u * c + v] == g(u, y as int, v));
                    } else if v < ch {
                        assert(before[u * c + v] == g(u, y as int, v));
                    }
                }
            }
            ch += 1;
        }
        assert((x + 1) * c == x * c + c) by (nonlinear_arith);
        x += 1;
    }
    out
}

/// An image filled from the coordinates of its samples, its rows across threads.
pub(crate) fn fill<S: Copy + Send + Sync, F: Fn(usize, usize, usize) -> S + Sync + Send>(
    w: usize,
    h: usize,
    c: usize,
    f: F,
    Ghost(g): Ghost<spec_fn(int, int, int) -> S>,
) -> (out: Vec<S>)
    requires
        w * c <= usize::MAX,
        w * h * c <= usize::MAX,
        forall|x: usize, y: usize, ch: usize|
            x < w && y < h && ch < c ==> #[trigger] call_requires(f, (x, y, ch)),
        forall|x: usize, y: usize, ch: usize, r: S|
            x < w && y < h && ch < c && #[trigger] call_ensures(f, (x, y, ch), r) ==> r == g(
                x as int,
                y as int,
                ch as int,
            ),
    ensures
        out@ == image_of(w as int, h as int, c as int, g),
{
    let f_ref = &f;
    let rows = in_parallel(
        h,
        (|y: usize| -> (line: Vec<S>)
            requires
                y < h,
            ensures
                row_holds(line@, w as int, c as int, y as int, g),
        {
            fill_row(w, c, y, f_ref, Ghost(g))
        }),
    );
    let stride: usize = w * c;
    let mut out: Vec<S> = Vec::new();
    let mut y: usize = 0;
    let ghost whole = image_of(w as int, h as int, c as int, g);
    assert(h * stride == w * h * c) by (nonlinear_arith)
        requires
            stride == w * c,
    ;
    while y < h
        invariant
            y <= h,
            stride == w * c,
            h * stride == w * h * c,
            w * h * c <= usize::MAX,
            rows@.len() == h,
            forall|y: int|
                0 <= y < h ==> row_holds((#[trigger] rows@[y])@, w as int, c as int, y, g),
            out@.len() == y * stride,
            whole == image_of(w as int, h as int, c as int, g),
            forall|i: int| 0 <= i < out@.len() ==> out@[i] == whole[i],
        decreases h - y,
    {
        let line = &rows[y];
        let mut j: usize = 0;
        assert(y * stride + stride <= h * stride) by (nonlinear_arith)
            requires
                y < h,
        ;
        while j < stride
            invariant
                y < h,
                j <= stride,
                stride == w * c,
                h * stride == w * h * c,
                y * stride + stride <= h * stride,
                w * h * c <= usize::MAX,
                row_holds(line@, w as int, c as int, y as int, g),
                out@.len() == y * stride + j,
                whole == image_of(w as int, h as int, c as int, g),
                forall|i: int| 0 <= i < out@.len() ==> out@[i] == whole[i],
            decreases stride - j,
        {
            proof {
                assert(c * w == w * c) by (nonlinear_arith);
                lemma_column_and_row(j as int, c as int, w as int);
                let (x, ch) = (j as int / c as int, j as int % c as int);
                assert(0 <= y * stride) by (nonlinear_arith);
                lemma_sample(x, y as int, ch, w as int, h as int, c as int);
                assert(line@[x * c + ch] == g(x, y as int, ch));
                assert(whole[y * stride + j] == g(x, y as int, ch));
            }
            out.push(line[j]);
            j += 1;
        }
        assert((y + 1) * stride == y * stride + stride) by (nonlinear_arith);
        y += 1;
    }
    assert(out@ =~= whole);
    out
}

} // verus!
