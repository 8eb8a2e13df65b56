//! What the operations of [`Fixed`] come to, in whole numbers of steps, where nothing wraps
//! around.

use vstd::prelude::*;
use crate::sample::{Fixed, Sample};

verus! {

/// Is a sample at most `m` steps from zero?
pub open spec fn bounded(v: Fixed, m: int) -> bool {
    -m <= v.raw <= m
}

pub(crate) proof fn lemma_sum(a: Fixed, b: Fixed)
    requires
        i64::MIN <= a.raw + b.raw <= i64::MAX,
    ensures
        a.spec_plus(b).raw == a.raw + b.raw,
{
}

pub(crate) proof fn lemma_difference(a: Fixed, b: Fixed)
    requires
        i64::MIN <= a.raw - b.raw <= i64::MAX,
    ensures
        a.spec_minus(b).raw == a.raw - b.raw,
{
}

/// A product is rounded down to a step.
pub(crate) proof fn lemma_product_of(a: Fixed, b: Fixed)
    requires
        i64::MIN <= (a.raw * b.raw) / 65536 <= i64::MAX,
    ensures
        a.spec_times(b).raw == (a.raw * b.raw) / 65536,
{
}

/// A product with a number between zero and one is no further from zero.
pub(crate) proof fn lemma_part(v: Fixed, f: Fixed, m: int)
    requires
        bounded(v, m),
        0 <= f.raw <= 65536,
        0 <= m <= 0x4000_0000_0000_0000,
    ensures
        v.spec_times(f).raw == (v.raw * f.raw) / 65536,
        f.spec_times(v).raw == (v.raw * f.raw) / 65536,
        bounded(v.spec_times(f), m),
        v.raw * f.raw - 65536 < 65536 * v.spec_times(f).raw <= v.raw * f.raw,
{
    let (a, b) = (v.raw as int, f.raw as int);
    let p = a * b;
    assert(-65536 * m <= p <= 65536 * m) by (nonlinear_arith)
        requires
            -m <= a <= m,
            0 <= b <= 65536,
            p == a * b,
            0 <= m,
    ;
    assert(b * a == p) by (nonlinear_arith)
        requires
            p == a * b,
    ;
    lemma_product_of(v, f);
    lemma_product_of(f, v);
}

/// A whole number is that many times 65536 steps.
pub(crate) proof fn lemma_whole(n: int)
    requires
        -0x4000_0000_0000 <= n <= 0x4000_0000_0000,
    ensures
        Fixed::spec_whole(n as i64).raw == n * 65536,
{
}

} // verus!
