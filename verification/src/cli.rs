//! What the headless runner decides: where results go, what it reports, and which debug
//! images it writes.

use vstd::prelude::*;
use crate::grid::MAX_EDGE;
use crate::image::{larger, lemma_two_to_grows, two_to, FrameInfo};
use crate::pipeline::Transform;
use crate::sample::Sample;

verus! {

/// Where a stack's result goes.
#[derive(Debug, PartialEq, Eq)]
pub enum Destination {
    /// To the path that was given, verbatim.
    Given,
    /// Into the directory that was given, under this name.
    Inside(String),
    /// Into the current directory, under this name.
    Here(String),
}

/// Where a stack's result goes: a single stack with an explicit path uses it, several
/// stacks share a directory, and without either the name follows the stack.
pub fn destination(output_given: bool, input_given: bool, count: usize, stack: &str) -> (r:
    Destination)
    ensures
        match r {
            Destination::Given => output_given && input_given && count == 1,
            Destination::Inside(name) => {
                &&& output_given
                &&& !(input_given && count == 1)
                &&& name@ == stack@ + ".tif"@
            },
            Destination::Here(name) => !output_given && name@ == stack@ + "_fused.tif"@,
        },
{
    if !output_given {
        let mut name = stack.to_owned();
        name.append("_fused.tif");
        Destination::Here(name)
    } else if input_given && count == 1 {
        Destination::Given
    } else {
        let mut name = stack.to_owned();
        name.append(".tif");
        Destination::Inside(name)
    }
}

/// Stacks with different names do not overwrite each other's results.
pub proof fn lemma_results_do_not_collide(a: Seq<char>, b: Seq<char>, ending: Seq<char>)
    requires
        a != b,
    ensures
        a + ending != b + ending,
{
    if a + ending == b + ending {
        assert((a + ending).len() == (b + ending).len());
        assert(a.len() == b.len());
        assert forall|i: int| 0 <= i < a.len() implies a[i] == b[i] by {
            assert((a + ending)[i] == (b + ending)[i]);
        }
        assert(a =~= b);
    }
}

/// Is this report worth a line? Every tenth frame and the last one are.
pub fn reports(verbose: bool, done: usize, total: usize) -> (r: bool)
    ensures
        r == (verbose && (done as int % 10 == 0 || done == total)),
{
    verbose && (done % 10 == 0 || done == total)
}

/// The frames that debug images are written for: first, middle and last.
///
/// A sample rather than all of them; the ends carry the largest accumulated transforms,
/// which is where alignment problems show first.
pub fn debug_samples(n: usize) -> (r: Vec<usize>)
    requires
        n > 0,
    ensures
        r@ == seq![0usize, (n / 2) as usize, (n - 1) as usize],
        forall|i: int| 0 <= i < r@.len() ==> r@[i] < n,
{
    let mut out: Vec<usize> = Vec::new();
    out.push(0);
    out.push(n / 2);
    out.push(n - 1);
    assert(out@ =~= seq![0usize, (n / 2) as usize, (n - 1) as usize]);
    out
}

/// Does an edge, halved this often, fit what is legible on screen?
pub open spec fn fits_at(edge: int, level: nat) -> bool {
    edge / two_to(level) <= MAX_EDGE
}

/// How often the alignment overlay is halved: no more than it takes to fit the screen. It
/// is chosen for legibility, not tied to the registration level.
pub fn overlay_level(info: FrameInfo) -> (r: u32)
    ensures
        r < 32,
        fits_at(larger(info.width as int, info.height as int), r as nat),
        forall|k: nat| k < r ==> !#[trigger] fits_at(larger(info.width as int, info.height as int), k),
{
    let edge = if info.width > info.height {
        info.width
    } else {
        info.height
    };
    let mut level: u32 = 0;
    let mut size: u32 = edge;
    assert(edge as int / two_to(0) == edge);
    while size > MAX_EDGE
        invariant
            level < 32,
            edge == larger(info.width as int, info.height as int),
            size == edge as int / two_to(level as nat),
            forall|k: nat|
                k < level ==> !#[trigger] fits_at(larger(info.width as int, info.height as int), k),
        decreases size,
    {
        proof {
            let (p, e) = (two_to(level as nat), edge as int);
            lemma_powers_fit(level as nat);
            assert(two_to((level + 1) as nat) == 2 * p);
            assert(e / (2 * p) == (e / p) / 2) by (nonlinear_arith)
                requires
                    p >= 1,
                    e >= 0,
            ;
            assert(2 * p <= e) by (nonlinear_arith)
                requires
                    e / p >= 2,
                    p >= 1,
                    e >= 0,
            ;
            if level == 31 {
                lemma_last_power();
            }
            assert(!fits_at(larger(info.width as int, info.height as int), level as nat));
        }
        size = size / 2;
        level += 1;
    }
    level
}

/// The power of two that just fits `u32`.
proof fn lemma_last_power()
    ensures
        two_to(31) == 0x8000_0000,
{
    reveal_with_fuel(two_to, 33);
}

/// The powers of two below the thirty-second fit `u32`.
proof fn lemma_powers_fit(k: nat)
    requires
        k < 32,
    ensures
        1 <= two_to(k) <= 0x8000_0000,
{
    lemma_two_to_grows(k, 31);
    lemma_last_power();
}

/// A transform at a lower resolution. Translations come down with the pixels; scale is a
/// ratio and stays.
pub fn at_level<S: Sample>(t: Transform<S>, level: u32) -> (r: Transform<S>)
    requires
        level < 32,
    ensures
        r == (Transform {
            scale: t.scale,
            dx: t.dx.spec_over(S::spec_whole(two_to(level as nat) as i64)),
            dy: t.dy.spec_over(S::spec_whole(two_to(level as nat) as i64)),
        }),
{
    let mut size: i64 = 1;
    let mut k: u32 = 0;
    while k < level
        invariant
            k <= level < 32,
            size == two_to(k as nat),
        decreases level - k,
    {
        proof {
            assert(two_to((k + 1) as nat) == 2 * two_to(k as nat));
            lemma_powers_fit((k + 1) as nat);
        }
        size = size * 2;
        k += 1;
    }
    let shrink = S::whole(size);
    Transform { scale: t.scale, dx: t.dx.over(shrink), dy: t.dy.over(shrink) }
}

/// The smaller of two samples.
pub open spec fn lesser<S: Sample>(a: S, b: S) -> S {
    if a.spec_exceeds(b) {
        b
    } else {
        a
    }
}

/// The greater of two samples.
pub open spec fn greater<S: Sample>(a: S, b: S) -> S {
    if b.spec_exceeds(a) {
        b
    } else {
        a
    }
}

/// The least and the greatest scale of the first `n` transforms.
pub open spec fn range_of<S: Sample>(t: Seq<Transform<S>>, n: int) -> (S, S)
    decreases n,
{
    if n <= 1 {
        (t[0].scale, t[0].scale)
    } else {
        let before = range_of(t, n - 1);
        (lesser(before.0, t[n - 1].scale), greater(before.1, t[n - 1].scale))
    }
}

/// How far the scales of a stack reach, for the report on its registration.
pub fn scale_range<S: Sample>(transforms: &[Transform<S>]) -> (r: (S, S))
    requires
        transforms@.len() > 0,
    ensures
        r == range_of(transforms@, transforms@.len() as int),
{
    let mut lo = transforms[0].scale;
    let mut hi = transforms[0].scale;
    let mut i: usize = 1;
    while i < transforms.len()
        invariant
            1 <= i <= transforms@.len(),
            (lo, hi) == range_of(transforms@, i as int),
        decreases transforms@.len() - i,
    {
        let s = transforms[i].scale;
        if lo.exceeds(s) {
            lo = s;
        }
        if s.exceeds(hi) {
            hi = s;
        }
        i += 1;
    }
    (lo, hi)
}

} // verus!
