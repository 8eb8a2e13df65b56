//! Luminance of linear-light RGB, by the Rec. 709 coefficients.

use vstd::prelude::*;
use crate::sample::Sample;

verus! {

/// The coefficient of a channel, in ten-thousandths.
pub open spec fn ten_thousandths(ch: int) -> i64 {
    if ch == 0 {
        2126
    } else if ch == 1 {
        7152
    } else {
        722
    }
}

/// The coefficient of a channel.
pub open spec fn coefficient<S: Sample>(ch: int) -> S {
    S::spec_whole(ten_thousandths(ch)).spec_over(S::spec_whole(10000))
}

/// The luminance of a pixel.
pub open spec fn luminance<S: Sample>(r: S, g: S, b: S) -> S {
    coefficient::<S>(0).spec_times(r).spec_plus(coefficient::<S>(1).spec_times(g)).spec_plus(
        coefficient::<S>(2).spec_times(b),
    )
}

pub fn weight<S: Sample>(ch: usize) -> (r: S)
    requires
        ch < 3,
    ensures
        r == coefficient::<S>(ch as int),
{
    let n: i64 = if ch == 0 {
        2126
    } else if ch == 1 {
        7152
    } else {
        722
    };
    S::whole(n).over(S::whole(10000))
}

/// The luminance of a pixel.
pub fn luma<S: Sample>(r: S, g: S, b: S) -> (v: S)
    ensures
        v == luminance(r, g, b),
{
    weight::<S>(0).times(r).plus(weight::<S>(1).times(g)).plus(weight::<S>(2).times(b))
}

} // verus!
