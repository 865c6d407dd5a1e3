//! Integers for sums that may be too large for one machine word.

use vstd::prelude::*;

verus! {

/// What the upper part of a [`Wide`] counts: 2^64.
pub const UNIT: i128 = 0x1_0000_0000_0000_0000;

/// An integer: `high` times [`UNIT`], and `low`.
#[derive(Clone, Copy, Debug, PartialEq, Eq, Structural)]
pub struct Wide {
    pub high: i128,
    pub low: u64,
}

impl View for Wide {
    type V = int;

    open spec fn view(&self) -> int {
        self.high * UNIT + self.low
    }
}

impl Wide {
    /// Zero.
    pub fn zero() -> (r: Wide)
        ensures
            r@ == 0,
    {
        Wide { high: 0, low: 0 }
    }

    /// An integer as it is.
    pub fn from_i128(n: i128) -> (r: Wide)
        requires
            n > i128::MIN / 4,
            n < i128::MAX / 4,
        ensures
            r@ == n,
            -UNIT * UNIT <= r.high <= UNIT * UNIT,
    {
        let high: i128 = crate::number::floor_div(n, UNIT);
        proof {
            let (a, b, h) = (n as int, UNIT as int, high as int);
            vstd::arithmetic::div_mod::lemma_fundamental_div_mod(a, b);
            vstd::arithmetic::div_mod::lemma_mod_bound(a, b);
            assert(h * b == b * h) by (nonlinear_arith);
            assert(-b * b <= h <= b * b) by (nonlinear_arith)
                requires
                    0 <= a - h * b < b,
                    -b * b <= a <= b * b,
                    b > 0,
            ;
        }
        let low: i128 = n - high * UNIT;
        Wide { high, low: low as u64 }
    }

    /// The sum with another integer.
    pub fn plus(self, n: i128) -> (r: Wide)
        requires
            -0x4000_0000_0000_0000_0000_0000_0000_0000 <= self.high
                <= 0x4000_0000_0000_0000_0000_0000_0000_0000,
            -0x1_0000_0000_0000_0000_0000_0000 <= n <= 0x1_0000_0000_0000_0000_0000_0000,
        ensures
            r@ == self@ + n,
            self.high - 0x2_0000_0000 <= r.high <= self.high + 0x2_0000_0000,
    {
        let up: i128 = crate::number::floor_div(n, UNIT);
        proof {
            let (a, b, h) = (n as int, UNIT as int, up as int);
            vstd::arithmetic::div_mod::lemma_fundamental_div_mod(a, b);
            vstd::arithmetic::div_mod::lemma_mod_bound(a, b);
            assert(h * b == b * h) by (nonlinear_arith);
        }
        let low: i128 = self.low as i128 + (n - up * UNIT);
        if low >= UNIT {
            Wide { high: self.high + up + 1, low: (low - UNIT) as u64 }
        } else {
            Wide { high: self.high + up, low: low as u64 }
        }
    }

    /// Whether this is less than another integer.
    pub fn below(self, other: Wide) -> (r: bool)
        ensures
            r == (self@ < other@),
    {
        if self.high != other.high {
            self.high < other.high
        } else {
            self.low < other.low
        }
    }

    /// As one machine word, where it fits.
    pub fn to_i128(self) -> (r: Option<i128>)
        ensures
            match r {
                Some(n) => n == self@,
                None => self@ < i128::MIN || self@ > i128::MAX,
            },
    {
        if self.high < -0x8000_0000_0000_0000 || self.high > 0x7fff_ffff_ffff_ffff {
            None
        } else {
            Some(self.high * UNIT + self.low as i128)
        }
    }
}

} // verus!
