//! Stored numbers: IEEE 754 single precision, by their bits.

use vstd::arithmetic::power2::{lemma2_to64, lemma_pow2_adds, lemma_pow2_pos, lemma_pow2_unfold, pow2};
use vstd::prelude::*;

verus! {

/// A single-precision number, by its bits: a sign, eight of exponent and 23 of
/// fraction.
#[derive(Clone, Copy, Debug, PartialEq, Eq, Structural)]
pub struct Binary32 {
    pub bits: u32,
}

/// The bits of an infinite magnitude; larger ones are not numbers.
pub const INFINITE: u32 = 0x7f80_0000;

/// The bits of one.
pub const ONE: u32 = 0x3f80_0000;

/// The bits of two thousand.
pub const TWO_THOUSAND: u32 = 0x44fa_0000;

/// The sign bit.
pub const SIGN: u32 = 0x8000_0000;

/// A finite magnitude by its bits, in units of the smallest that is not zero,
/// of which 2 to the 149th are one.
pub open spec fn units(m: int) -> int {
    let exponent = m / 0x80_0000;
    let fraction = m % 0x80_0000;
    if exponent == 0 {
        fraction
    } else {
        (0x80_0000 + fraction) * pow2((exponent - 1) as nat)
    }
}

impl Binary32 {
    /// The bits but for the sign.
    pub open spec fn magnitude(self) -> int {
        if self.bits >= SIGN {
            self.bits - SIGN
        } else {
            self.bits as int
        }
    }

    /// Whether this is a number, and a finite one.
    pub open spec fn finite(self) -> bool {
        self.magnitude() < INFINITE
    }

    /// The value of a finite number, times 2 to the 149th.
    pub open spec fn scaled(self) -> int {
        if self.bits >= SIGN {
            -units(self.magnitude())
        } else {
            units(self.magnitude())
        }
    }

    /// Whether this is a finite number that is not below zero.
    pub open spec fn non_negative(self) -> bool {
        self.finite() && self.scaled() >= 0
    }

    /// Whether this lies between zero and one, both included.
    pub open spec fn in_unit(self) -> bool {
        self.finite() && 0 <= self.scaled() <= pow2(149)
    }

    /// Whether this is at least two thousand, perhaps infinite.
    pub open spec fn is_two_thousand_or_more(self) -> bool {
        self.bits == INFINITE || (self.finite() && self.scaled() >= 2000 * pow2(149))
    }

    /// Whether this is a number, and a finite one.
    pub fn is_finite(self) -> (r: bool)
        ensures
            r == self.finite(),
    {
        if self.bits >= SIGN {
            self.bits - SIGN < INFINITE
        } else {
            self.bits < INFINITE
        }
    }

    /// Whether this is a finite number that is not below zero.
    pub fn is_non_negative(self) -> (r: bool)
        ensures
            r == self.non_negative(),
    {
        proof {
            lemma_units_positive(self.magnitude());
        }
        self.bits < INFINITE || self.bits == SIGN
    }

    /// Whether this is a finite number above zero.
    pub fn is_positive(self) -> (r: bool)
        ensures
            r == (self.finite() && self.scaled() > 0),
    {
        proof {
            lemma_units_positive(self.magnitude());
        }
        0 < self.bits && self.bits < INFINITE
    }

    /// Whether this lies between zero and one, both included.
    pub fn is_in_unit(self) -> (r: bool)
        ensures
            r == self.in_unit(),
    {
        proof {
            lemma_units_positive(self.magnitude());
            lemma_one();
            lemma_pow2_pos(149);
            if self.bits < ONE {
                law_bits_order_magnitudes(self.bits as int, ONE as int);
            } else if ONE < self.bits < INFINITE {
                law_bits_order_magnitudes(ONE as int, self.bits as int);
            }
        }
        self.bits <= ONE || self.bits == SIGN
    }

    /// Whether this is at least two thousand, perhaps infinite.
    pub fn reaches_two_thousand(self) -> (r: bool)
        ensures
            r == self.is_two_thousand_or_more(),
    {
        proof {
            lemma_units_positive(self.magnitude());
            lemma_two_thousand();
            lemma_pow2_pos(149);
            if self.bits < TWO_THOUSAND {
                law_bits_order_magnitudes(self.bits as int, TWO_THOUSAND as int);
            } else if TWO_THOUSAND < self.bits < INFINITE {
                law_bits_order_magnitudes(TWO_THOUSAND as int, self.bits as int);
            }
        }
        TWO_THOUSAND <= self.bits && self.bits <= INFINITE
    }
}

proof fn lemma_units_positive(m: int)
    requires
        m >= 0,
    ensures
        units(m) >= 0,
        m > 0 ==> units(m) > 0,
        m == 0 ==> units(m) == 0,
{
    let exponent = m / 0x80_0000;
    if exponent > 0 {
        lemma_pow2_pos((exponent - 1) as nat);
        let (f, p) = (m % 0x80_0000, pow2((exponent - 1) as nat) as int);
        assert((0x80_0000 + f) * p > 0) by (nonlinear_arith)
            requires
                f >= 0,
                p > 0,
        ;
    }
}

proof fn lemma_next_bits(m: int)
    requires
        m >= 0,
    ensures
        units(m) < units(m + 1),
{
    let e = m / 0x80_0000;
    let f = m % 0x80_0000;
    if f < 0x7f_ffff {
        assert((m + 1) / 0x80_0000 == e);
        assert((m + 1) % 0x80_0000 == f + 1);
        if e > 0 {
            let p = pow2((e - 1) as nat) as int;
            lemma_pow2_pos((e - 1) as nat);
            assert((0x80_0000 + f) * p < (0x80_0000 + f + 1) * p) by (nonlinear_arith)
                requires
                    p > 0,
            ;
        }
    } else {
        assert((m + 1) / 0x80_0000 == e + 1);
        assert((m + 1) % 0x80_0000 == 0);
        if e > 0 {
            let p = pow2((e - 1) as nat) as int;
            lemma_pow2_pos((e - 1) as nat);
            lemma_pow2_unfold(e as nat);
            assert(pow2(e as nat) == 2 * p);
            assert((0x80_0000 + 0x7f_ffff) * p < 0x80_0000 * (2 * p)) by (nonlinear_arith)
                requires
                    p > 0,
            ;
        } else {
            lemma2_to64();
        }
    }
}

/// Larger magnitudes have larger bits.
pub proof fn law_bits_order_magnitudes(a: int, b: int)
    requires
        0 <= a < b,
    ensures
        units(a) < units(b),
    decreases b - a,
{
    lemma_next_bits(b - 1);
    if a < b - 1 {
        law_bits_order_magnitudes(a, b - 1);
    }
}

proof fn lemma_one()
    ensures
        units(ONE as int) == pow2(149),
{
    lemma2_to64();
    lemma_pow2_adds(23, 126);
    assert(0x3f80_0000int / 0x80_0000 == 127);
    assert(0x3f80_0000int % 0x80_0000 == 0);
}

proof fn lemma_two_thousand()
    ensures
        units(TWO_THOUSAND as int) == 2000 * pow2(149),
{
    lemma2_to64();
    lemma_pow2_adds(13, 136);
    assert(0x44fa_0000int / 0x80_0000 == 137);
    assert(0x44fa_0000int % 0x80_0000 == 0x7a_0000);
    let p = pow2(136) as int;
    assert((0x80_0000 + 0x7a_0000) * p == 2000 * (8192 * p)) by (nonlinear_arith);
}

} // verus!
