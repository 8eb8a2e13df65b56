//! The arithmetic a pixel is made of.
//!
//! Every stage is written once, over any [`Sample`]. What a stage guarantees is then a
//! statement about which operations it performs, on which samples, in which order.
//! Rounding makes order matter: a sum taken in another order is another picture.
//!
//! [`Exact`] samples lose nothing to rounding. The identities that make the pyramid and
//! the wavelet transform reversible are proved for them.

use vstd::arithmetic::div_mod::{
    lemma_div_multiples_vanish, lemma_fundamental_div_mod, lemma_fundamental_div_mod_converse,
};
use vstd::prelude::*;

verus! {

/// One channel of one pixel.
///
/// Each operation has a twin, under the same name behind `spec_`, that contracts speak of.
/// The operation returns what its twin says.
pub trait Sample: Copy + Sized + Send + Sync {
    spec fn spec_whole(n: i64) -> Self;

    spec fn spec_lowest() -> Self;

    spec fn spec_plus(self, other: Self) -> Self;

    spec fn spec_minus(self, other: Self) -> Self;

    spec fn spec_times(self, other: Self) -> Self;

    spec fn spec_over(self, other: Self) -> Self;

    spec fn spec_exceeds(self, other: Self) -> bool;

    spec fn spec_floor(self) -> Self;

    spec fn spec_index(self) -> i64;

    /// The sample nearest to a whole number.
    fn whole(n: i64) -> (r: Self)
        ensures
            r == Self::spec_whole(n),
    ;

    /// The seed of a running maximum.
    fn lowest() -> (r: Self)
        ensures
            r == Self::spec_lowest(),
    ;

    fn plus(self, other: Self) -> (r: Self)
        ensures
            r == self.spec_plus(other),
    ;

    fn minus(self, other: Self) -> (r: Self)
        ensures
            r == self.spec_minus(other),
    ;

    fn times(self, other: Self) -> (r: Self)
        ensures
            r == self.spec_times(other),
    ;

    fn over(self, other: Self) -> (r: Self)
        ensures
            r == self.spec_over(other),
    ;

    /// Strictly greater.
    fn exceeds(self, other: Self) -> (r: bool)
        ensures
            r == self.spec_exceeds(other),
    ;

    /// The largest whole number that is not greater.
    fn floor(self) -> (r: Self)
        ensures
            r == self.spec_floor(),
    ;

    /// The whole part as an integer, saturating at the ends of its range.
    fn index(self) -> (r: i64)
        ensures
            r == self.spec_index(),
    ;
}

/// Samples whose sums and differences undo each other.
pub trait Exact: Sample {
    proof fn lemma_minus_plus(a: Self, b: Self)
        ensures
            a.spec_minus(b).spec_plus(b) == a,
    ;

    proof fn lemma_plus_minus(a: Self, b: Self)
        ensures
            a.spec_plus(b).spec_minus(b) == a,
    ;

    proof fn lemma_plus_commutes(a: Self, b: Self)
        ensures
            a.spec_plus(b) == b.spec_plus(a),
    ;

    proof fn lemma_plus_associates(a: Self, b: Self, c: Self)
        ensures
            a.spec_plus(b).spec_plus(c) == a.spec_plus(b.spec_plus(c)),
    ;

    proof fn lemma_plus_zero(a: Self)
        ensures
            Self::spec_whole(0).spec_plus(a) == a,
    ;
}

/// The value of a `Fixed` step, as a power of two: sixteen fractional bits.
pub const FRACTION: i64 = 65536;

/// A fixed-point sample: whole numbers of sixty-five-thousandths, wrapping around.
///
/// Sums and differences are exact, so two runs agree to the last bit on any machine.
#[derive(Clone, Copy, Debug, PartialEq, Eq, Structural)]
pub struct Fixed {
    pub raw: i64,
}

/// A whole number brought back into the range of `i64`, modulo its size.
pub open spec fn wrap(n: int) -> i64 {
    (((n + 0x8000_0000_0000_0000) % 0x1_0000_0000_0000_0000) - 0x8000_0000_0000_0000) as i64
}

fn wrapped(n: i128) -> (r: i64)
    requires
        -0x4000_0000_0000_0000_0000_0000_0000_0000 <= n <= 0x4000_0000_0000_0000_0000_0000_0000_0000,
    ensures
        r == wrap(n as int),
{
    let shifted: i128 = n + 0x8000_0000_0000_0000;
    let m: i128 = 0x1_0000_0000_0000_0000;
    let low: i128 = rem(shifted, m);
    (low - 0x8000_0000_0000_0000) as i64
}

/// The remainder that is never negative.
pub(crate) fn rem(n: i128, m: i128) -> (r: i128)
    requires
        m > 0,
        n > i128::MIN,
    ensures
        r == n as int % m as int,
        0 <= r < m,
{
    if n >= 0 {
        n % m
    } else {
        let t: i128 = (-n) % m;
        proof {
            let q = (-n) as int / m as int;
            lemma_fundamental_div_mod((-n) as int, m as int);
            assert((-q) * m == -(m * q)) by (nonlinear_arith);
            if t == 0 {
                lemma_fundamental_div_mod_converse(n as int, m as int, -q, 0);
            } else {
                assert((-q - 1) * m == -(m * q) - m) by (nonlinear_arith);
                lemma_fundamental_div_mod_converse(n as int, m as int, -q - 1, m - t);
            }
        }
        if t == 0 {
            0
        } else {
            m - t
        }
    }
}

/// The quotient rounded towards smaller numbers.
fn quotient(n: i128, m: i128) -> (r: i128)
    requires
        m > 0,
        -0x7000_0000_0000_0000_0000_0000_0000_0000 <= n <= 0x7000_0000_0000_0000_0000_0000_0000_0000,
    ensures
        r == n as int / m as int,
        n >= 0 ==> 0 <= r <= n,
        n < 0 ==> n <= r <= 0,
{
    let low = rem(n, m);
    proof {
        lemma_fundamental_div_mod(n as int, m as int);
        let q = n as int / m as int;
        assert(n >= 0 ==> 0 <= q <= n) by (nonlinear_arith)
            requires
                n == m * q + low,
                0 <= low < m,
                m > 0,
        ;
        assert(n < 0 ==> n <= q <= 0) by (nonlinear_arith)
            requires
                n == m * q + low,
                0 <= low < m,
                m > 0,
        ;
        lemma_div_multiples_vanish(q, m as int);
        assert(n >= 0 ==> n - low >= 0) by (nonlinear_arith)
            requires
                n == m * q + low,
                n >= 0 ==> 0 <= q,
                m > 0,
        ;
    }
    if n >= 0 {
        (n - low) / m
    } else if low == 0 {
        let up: i128 = -n;
        proof {
            let q = n as int / m as int;
            assert(up == m * (-q)) by (nonlinear_arith)
                requires
                    n == m * q + low,
                    low == 0,
                    up == -n,
            ;
            lemma_div_multiples_vanish(-q, m as int);
        }
        -(up / m)
    } else {
        let up: i128 = -n;
        proof {
            let q = n as int / m as int;
            assert((-q - 1) * m == -(m * q) - m) by (nonlinear_arith);
            lemma_fundamental_div_mod_converse(up as int, m as int, -q - 1, m - low);
        }
        -(up / m) - 1
    }
}

impl Sample for Fixed {
    open spec fn spec_whole(n: i64) -> Self {
        Fixed { raw: wrap(n * FRACTION) }
    }

    open spec fn spec_lowest() -> Self {
        Fixed { raw: i64::MIN }
    }

    open spec fn spec_plus(self, other: Self) -> Self {
        Fixed { raw: wrap(self.raw + other.raw) }
    }

    open spec fn spec_minus(self, other: Self) -> Self {
        Fixed { raw: wrap(self.raw - other.raw) }
    }

    open spec fn spec_times(self, other: Self) -> Self {
        Fixed { raw: wrap((self.raw * other.raw) / FRACTION as int) }
    }

    /// Division by zero is not a fixed-point value: it gives zero.
    open spec fn spec_over(self, other: Self) -> Self {
        if other.raw > 0 {
            Fixed { raw: wrap((self.raw * FRACTION) / other.raw as int) }
        } else if other.raw < 0 {
            Fixed { raw: wrap((-self.raw * FRACTION) / (-other.raw)) }
        } else {
            Fixed { raw: 0 }
        }
    }

    open spec fn spec_exceeds(self, other: Self) -> bool {
        self.raw > other.raw
    }

    open spec fn spec_floor(self) -> Self {
        Fixed { raw: wrap((self.raw as int / FRACTION as int) * FRACTION) }
    }

    open spec fn spec_index(self) -> i64 {
        (self.raw as int / FRACTION as int) as i64
    }

    fn whole(n: i64) -> (r: Self) {
        proof {
            lemma_product(n as int, FRACTION as int);
        }
        Fixed { raw: wrapped(n as i128 * FRACTION as i128) }
    }

    fn lowest() -> (r: Self) {
        Fixed { raw: i64::MIN }
    }

    fn plus(self, other: Self) -> (r: Self) {
        Fixed { raw: wrapped(self.raw as i128 + other.raw as i128) }
    }

    fn minus(self, other: Self) -> (r: Self) {
        Fixed { raw: wrapped(self.raw as i128 - other.raw as i128) }
    }

    fn times(self, other: Self) -> (r: Self) {
        proof {
            lemma_product(self.raw as int, other.raw as int);
        }
        Fixed { raw: wrapped(quotient(self.raw as i128 * other.raw as i128, FRACTION as i128)) }
    }

    fn over(self, other: Self) -> (r: Self) {
        if other.raw > 0 {
            proof {
                lemma_product(self.raw as int, FRACTION as int);
            }
            Fixed { raw: wrapped(quotient(self.raw as i128 * FRACTION as i128, other.raw as i128)) }
        } else if other.raw < 0 {
            let (n, m): (i128, i128) = (-(self.raw as i128), -(other.raw as i128));
            proof {
                lemma_product(n as int, FRACTION as int);
            }
            Fixed { raw: wrapped(quotient(n * FRACTION as i128, m)) }
        } else {
            Fixed { raw: 0 }
        }
    }

    fn exceeds(self, other: Self) -> (r: bool) {
        self.raw > other.raw
    }

    fn floor(self) -> (r: Self) {
        let whole: i128 = quotient(self.raw as i128, FRACTION as i128);
        Fixed { raw: wrapped(whole * FRACTION as i128) }
    }

    fn index(self) -> (r: i64) {
        quotient(self.raw as i128, FRACTION as i128) as i64
    }
}

/// A product of two 64-bit numbers stays well inside 128 bits.
proof fn lemma_product(a: int, b: int)
    requires
        -0x8000_0000_0000_0000 <= a <= 0x8000_0000_0000_0000,
        -0x8000_0000_0000_0000 <= b <= 0x8000_0000_0000_0000,
    ensures
        -0x4000_0000_0000_0000_0000_0000_0000_0000 <= a * b
            <= 0x4000_0000_0000_0000_0000_0000_0000_0000,
{
    assert(-0x4000_0000_0000_0000_0000_0000_0000_0000 <= a * b
        <= 0x4000_0000_0000_0000_0000_0000_0000_0000) by (nonlinear_arith)
        requires
            -0x8000_0000_0000_0000 <= a <= 0x8000_0000_0000_0000,
            -0x8000_0000_0000_0000 <= b <= 0x8000_0000_0000_0000,
    ;
}

impl Exact for Fixed {
    proof fn lemma_minus_plus(a: Self, b: Self) {
    }

    proof fn lemma_plus_minus(a: Self, b: Self) {
    }

    proof fn lemma_plus_commutes(a: Self, b: Self) {
    }

    proof fn lemma_plus_associates(a: Self, b: Self, c: Self) {
    }

    proof fn lemma_plus_zero(a: Self) {
    }
}

/// Wrapping a part of a sum around changes nothing once the sum is.
#[verifier::spinoff_prover]
pub(crate) proof fn lemma_wrapped_sum(a: int, b: int)
    ensures
        wrap(wrap(a) + b) == wrap(a + b),
{
    let size = 0x1_0000_0000_0000_0000int;
    let bias = 0x8000_0000_0000_0000int;
    let turns = (a + bias) / size;
    vstd::arithmetic::div_mod::lemma_fundamental_div_mod(a + bias, size);
    assert(wrap(a) == a - size * turns);
    vstd::arithmetic::div_mod::lemma_mod_multiples_vanish(-turns, a + b + bias, size);
}

/// A multiple of a number that was wrapped around is a multiple of the number, wrapped
/// around.
#[verifier::spinoff_prover]
pub(crate) proof fn lemma_wrapped_multiple(m: int, n: int)
    ensures
        wrap(m * wrap(n)) == wrap(m * n),
{
    let size = 0x1_0000_0000_0000_0000int;
    let bias = 0x8000_0000_0000_0000int;
    let turns = (n + bias) / size;
    vstd::arithmetic::div_mod::lemma_fundamental_div_mod(n + bias, size);
    assert(wrap(n) == n - size * turns);
    assert(m * (n - size * turns) == m * n - size * (m * turns)) by (nonlinear_arith);
    vstd::arithmetic::div_mod::lemma_mod_multiples_vanish(-(m * turns), m * n + bias, size);
    assert(size * -(m * turns) == -(size * (m * turns))) by (nonlinear_arith);
}

} // verus!
