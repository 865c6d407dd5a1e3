//! Natural numbers of any size.

use vstd::arithmetic::power::{lemma_pow_positive, pow};
use vstd::prelude::*;

verus! {

/// What each digit counts of the one after it: 2^32.
pub const BASE: u64 = 0x1_0000_0000;

/// The number that digits write, the least significant first.
pub open spec fn number_of(digits: Seq<u32>) -> int
    decreases digits.len(),
{
    if digits.len() == 0 {
        0
    } else {
        number_of(digits.skip(1)) * BASE + digits[0]
    }
}

/// A natural number.
#[derive(Clone, Debug)]
pub struct Big {
    pub digits: Vec<u32>,
}

impl View for Big {
    type V = int;

    open spec fn view(&self) -> int {
        number_of(self.digits@)
    }
}

proof fn lemma_push(s: Seq<u32>, d: u32)
    ensures
        number_of(s.push(d)) == number_of(s) + d * pow(BASE as int, s.len()),
    decreases s.len(),
{
    reveal(pow);
    if s.len() == 0 {
        assert(s.push(d).skip(1) =~= Seq::<u32>::empty());
        assert(number_of(s.push(d).skip(1)) == 0);
        assert(s.push(d)[0] == d);
        assert(pow(BASE as int, 0) == 1);
    } else {
        lemma_push(s.skip(1), d);
        assert(s.push(d).skip(1) =~= s.skip(1).push(d));
        assert(s.push(d)[0] == s[0]);
        let (p, q, b) = (pow(BASE as int, (s.len() - 1) as nat), d as int, BASE as int);
        assert(pow(BASE as int, s.len()) == b * p);
        assert((q * p) * b == q * (b * p)) by (nonlinear_arith);
    }
}

proof fn lemma_bounds(s: Seq<u32>)
    ensures
        0 <= number_of(s) < pow(BASE as int, s.len()),
    decreases s.len(),
{
    reveal(pow);
    if s.len() > 0 {
        lemma_bounds(s.skip(1));
        assert(pow(BASE as int, s.len()) == BASE * pow(BASE as int, (s.len() - 1) as nat));
    }
}

impl Big {
    /// A number that fits a machine word.
    pub fn from_u128(n: u128) -> (r: Big)
        ensures
            r@ == n,
    {
        let d0: u32 = (n % 0x1_0000_0000) as u32;
        let n1: u128 = n / 0x1_0000_0000;
        let d1: u32 = (n1 % 0x1_0000_0000) as u32;
        let n2: u128 = n1 / 0x1_0000_0000;
        let d2: u32 = (n2 % 0x1_0000_0000) as u32;
        let n3: u128 = n2 / 0x1_0000_0000;
        let d3: u32 = n3 as u32;
        let digits: Vec<u32> = vec![d0, d1, d2, d3];
        proof {
            let s = digits@;
            assert(s =~= seq![d0, d1, d2, d3]);
            assert(s.skip(1) =~= seq![d1, d2, d3]);
            assert(s.skip(1).skip(1) =~= seq![d2, d3]);
            assert(s.skip(1).skip(1).skip(1) =~= seq![d3]);
            assert(s.skip(1).skip(1).skip(1).skip(1) =~= Seq::<u32>::empty());
            assert(number_of(Seq::<u32>::empty()) == 0);
            assert(number_of(s.skip(1).skip(1).skip(1)) == d3);
            assert(number_of(s.skip(1).skip(1)) == d3 * BASE + d2);
            assert(number_of(s.skip(1)) == (d3 * BASE + d2) * BASE + d1);
        }
        Big { digits }
    }

    /// The same number again.
    pub fn copy(&self) -> (r: Big)
        ensures
            r@ == self@,
    {
        Big { digits: vstd::slice::slice_to_vec(self.digits.as_slice()) }
    }

    /// The product with a digit.
    fn times_digit(&self, k: u32) -> (r: Big)
        ensures
            r@ == self@ * k,
    {
        let mut out: Vec<u32> = Vec::new();
        let mut carry: u64 = 0;
        let mut i: usize = 0;
        let ghost b = BASE as int;
        proof {
            reveal(pow);
            assert(self.digits@.take(0) =~= Seq::<u32>::empty());
            assert(pow(b, 0) == 1);
        }
        while i < self.digits.len()
            invariant
                i <= self.digits@.len(),
                b == BASE,
                out@.len() == i,
                carry < BASE,
                number_of(out@) + carry * pow(b, i as nat) == number_of(
                    self.digits@.take(i as int),
                ) * k,
            decreases self.digits@.len() - i,
        {
            let d: u32 = self.digits[i];
            proof {
                let (x, y) = (d as int, k as int);
                assert(0 <= x * y <= 0xffff_ffff * 0xffff_ffff) by (nonlinear_arith)
                    requires
                        0 <= x <= 0xffff_ffff,
                        0 <= y <= 0xffff_ffff,
                ;
            }
            let m: u64 = d as u64 * k as u64 + carry;
            let low: u32 = (m % BASE) as u32;
            proof {
                reveal(pow);
                let t = self.digits@.take(i as int);
                assert(self.digits@.take(i + 1) =~= t.push(d));
                lemma_push(t, d);
                lemma_push(out@, low);
                let p = pow(b, i as nat);
                assert(pow(b, (i + 1) as nat) == b * p);
                let (c, x, y, l, u, v) = (
                    carry as int,
                    d as int,
                    k as int,
                    low as int,
                    (m / BASE) as int,
                    number_of(t),
                );
                assert(u * b + l == x * y + c);
                let o = number_of(out@);
                assert(o + l * p + u * (b * p) == (v + x * p) * y) by (nonlinear_arith)
                    requires
                        u * b + l == x * y + c,
                        o + c * p == v * y,
                ;
            }
            out.push(low);
            carry = m / BASE;
            i = i + 1;
        }
        proof {
            assert(self.digits@.take(i as int) =~= self.digits@);
            lemma_push(out@, carry as u32);
        }
        out.push(carry as u32);
        Big { digits: out }
    }

    /// The product with the base.
    fn shifted(self) -> (r: Big)
        ensures
            r@ == self@ * BASE,
    {
        let mut digits = self.digits;
        let ghost before = digits@;
        digits.insert(0, 0);
        assert(digits@.skip(1) =~= before);
        Big { digits }
    }

    /// The sum with another number.
    pub fn plus(&self, other: &Big) -> (r: Big)
        ensures
            r@ == self@ + other@,
    {
        let mut out: Vec<u32> = Vec::new();
        let mut carry: u64 = 0;
        let mut i: usize = 0;
        let ghost b = BASE as int;
        let ghost (s, t) = (self.digits@, other.digits@);
        proof {
            reveal(pow);
            assert(pow(b, 0) == 1);
            assert(padded(s, 0) =~= Seq::<u32>::empty());
            assert(padded(t, 0) =~= Seq::<u32>::empty());
        }
        while i < self.digits.len() || i < other.digits.len()
            invariant
                b == BASE,
                s == self.digits@,
                t == other.digits@,
                i <= s.len() || i <= t.len(),
                out@.len() == i,
                carry <= 1,
                number_of(out@) + carry * pow(b, i as nat) == number_of(padded(s, i as nat))
                    + number_of(padded(t, i as nat)),
            decreases s.len() + t.len() - i,
        {
            let x: u32 = self.digit(i);
            let y: u32 = other.digit(i);
            let m: u64 = x as u64 + y as u64 + carry;
            let low: u32 = (m % BASE) as u32;
            proof {
                reveal(pow);
                assert(padded(s, (i + 1) as nat) =~= padded(s, i as nat).push(x));
                assert(padded(t, (i + 1) as nat) =~= padded(t, i as nat).push(y));
                lemma_push(padded(s, i as nat), x);
                lemma_push(padded(t, i as nat), y);
                lemma_push(out@, low);
                let p = pow(b, i as nat);
                assert(pow(b, (i + 1) as nat) == b * p);
                let (c, xx, yy, l, u) = (
                    carry as int,
                    x as int,
                    y as int,
                    low as int,
                    (m / BASE) as int,
                );
                assert(u * b + l == xx + yy + c);
                assert(l * p + u * (b * p) == xx * p + yy * p + c * p) by (nonlinear_arith)
                    requires
                        u * b + l == xx + yy + c,
                ;
            }
            out.push(low);
            carry = m / BASE;
            i = i + 1;
        }
        proof {
            lemma_padded(s, i as nat);
            lemma_padded(t, i as nat);
            lemma_push(out@, carry as u32);
        }
        out.push(carry as u32);
        Big { digits: out }
    }

    /// Digit `i`; zero behind the last.
    fn digit(&self, i: usize) -> (r: u32)
        ensures
            r == padded(self.digits@, (i + 1) as nat)[i as int],
    {
        if i < self.digits.len() {
            self.digits[i]
        } else {
            0
        }
    }

    /// The product with another number.
    pub fn times(&self, other: &Big) -> (r: Big)
        ensures
            r@ == self@ * other@,
    {
        let mut out = Big { digits: Vec::new() };
        let mut i: usize = other.digits.len();
        let ghost t = other.digits@;
        assert(t.skip(i as int) =~= Seq::<u32>::empty());
        assert(self@ * 0 == 0) by (nonlinear_arith);
        while i > 0
            invariant
                i <= t.len(),
                t == other.digits@,
                out@ == self@ * number_of(t.skip(i as int)),
            decreases i,
        {
            i = i - 1;
            let ghost before = out@;
            let part = self.times_digit(other.digits[i]);
            let raised = out.shifted();
            out = raised.plus(&part);
            proof {
                assert(t.skip(i as int).skip(1) =~= t.skip(i + 1));
                assert(t.skip(i as int)[0] == t[i as int]);
                let (x, y, d, b) = (self@, number_of(t.skip(i + 1)), t[i as int] as int, BASE as int);
                assert((x * y) * b + x * d == x * (y * b + d)) by (nonlinear_arith);
            }
        }
        assert(t.skip(0) =~= t);
        out
    }

    /// The product with a machine word.
    pub fn times_word(&self, n: u128) -> (r: Big)
        ensures
            r@ == self@ * n,
    {
        self.times(&Big::from_u128(n))
    }

    /// Whether this is less than another number.
    pub fn below(&self, other: &Big) -> (r: bool)
        ensures
            r == (self@ < other@),
    {
        let mut i: usize = self.digits.len();
        if other.digits.len() > i {
            i = other.digits.len();
        }
        let ghost (s, t) = (self.digits@, other.digits@);
        proof {
            lemma_padded(s, i as nat);
            lemma_padded(t, i as nat);
        }
        while i > 0
            invariant
                s == self.digits@,
                t == other.digits@,
                self@ - other@ == number_of(padded(s, i as nat)) - number_of(padded(t, i as nat)),
            decreases i,
        {
            i = i - 1;
            let x: u32 = self.digit(i);
            let y: u32 = other.digit(i);
            proof {
                assert(padded(s, (i + 1) as nat) =~= padded(s, i as nat).push(x));
                assert(padded(t, (i + 1) as nat) =~= padded(t, i as nat).push(y));
                lemma_push(padded(s, i as nat), x);
                lemma_push(padded(t, i as nat), y);
                lemma_bounds(padded(s, i as nat));
                lemma_bounds(padded(t, i as nat));
                let p = pow(BASE as int, i as nat);
                let (xx, yy) = (x as int, y as int);
                assert(xx < yy ==> xx * p + p <= yy * p) by (nonlinear_arith)
                    requires
                        p > 0,
                ;
                assert(yy < xx ==> yy * p + p <= xx * p) by (nonlinear_arith)
                    requires
                        p > 0,
                ;
            }
            if x != y {
                return x < y;
            }
        }
        false
    }
}

/// The first `n` digits, filled up with zeros.
pub open spec fn padded(s: Seq<u32>, n: nat) -> Seq<u32> {
    Seq::new(
        n,
        |i: int|
            if i < s.len() {
                s[i]
            } else {
                0u32
            },
    )
}

proof fn lemma_padded(s: Seq<u32>, n: nat)
    requires
        n >= s.len(),
    ensures
        number_of(padded(s, n)) == number_of(s),
    decreases n,
{
    if n == s.len() {
        assert(padded(s, n) =~= s);
    } else {
        let m = (n - 1) as nat;
        lemma_padded(s, m);
        assert(padded(s, n) =~= padded(s, m).push(0));
        lemma_push(padded(s, m), 0);
        lemma_pow_positive(BASE as int, m);
        let p = pow(BASE as int, m);
        assert(0 * p == 0) by (nonlinear_arith);
    }
}

} // verus!
