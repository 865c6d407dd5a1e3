//! Numbers as beatmap files write them.
//!
//! A decimal number is kept exactly, as a count of ticks: there are
//! [`TICKS`] of them in one unit, and digits beyond the last tick are dropped.
//! A larger magnitude than [`LIMIT`] ticks counts as [`LIMIT`], as long as it is
//! finite in double precision.

use crate::text::position;
use vstd::arithmetic::div_mod::lemma_div_denominator;
use vstd::arithmetic::power::{lemma_pow_adds, lemma_pow_positive, pow};
use vstd::prelude::*;
use vstd::slice::slice_subrange;

verus! {

/// Ticks in one unit.
pub const TICKS: i128 = 1_000_000_000_000;

/// The largest magnitude of a decimal number, in ticks: beyond the integers
/// that double precision tells apart. A finite number beyond it counts as it.
pub const LIMIT: i128 = 10_000_000_000_000_000_000_000_000_000;

/// The largest exponent that is told apart from a larger one; no text is
/// long enough to bring a number beyond it back into range.
pub const EXPONENT_LIMIT: i128 = 1_000_000_000_000_000_000_000_000_000_000;

/// A decimal number read from text.
#[derive(Clone, Copy, Debug, PartialEq, Eq, Structural)]
pub enum Number {
    /// The text reads "nan".
    NotANumber,
    /// A number that is infinite in double precision; whether it is negative.
    Infinite(bool),
    /// A count of ticks, at most [`LIMIT`] either way.
    Ticks(i128),
}

impl Number {
    /// The ticks of a number, where it is one; an infinite one has [`LIMIT`].
    pub open spec fn ticks(self) -> Option<i128> {
        match self {
            Number::NotANumber => None,
            Number::Infinite(negative) => Some(
                if negative {
                    (-LIMIT) as i128
                } else {
                    LIMIT
                },
            ),
            Number::Ticks(t) => Some(t),
        }
    }

    /// The ticks of a number, where it is one; an infinite one has [`LIMIT`].
    pub fn to_ticks(self) -> (r: Option<i128>)
        ensures
            r == self.ticks(),
    {
        match self {
            Number::NotANumber => None,
            Number::Infinite(negative) => if negative {
                Some(-LIMIT)
            } else {
                Some(LIMIT)
            },
            Number::Ticks(t) => Some(t),
        }
    }
}

/// Whether a character is an ASCII digit.
pub open spec fn is_digit(c: char) -> bool {
    '0' <= c <= '9'
}

/// The value of an ASCII digit.
pub open spec fn digit(c: char) -> nat {
    (c as int - '0' as int) as nat
}

/// Whether a text consists of ASCII digits alone.
pub open spec fn all_digits(s: Seq<char>) -> bool {
    forall|i: int| 0 <= i < s.len() ==> is_digit(#[trigger] s[i])
}

/// The value of a text of digits, the most significant first.
pub open spec fn digits_value(s: Seq<char>) -> nat
    decreases s.len(),
{
    if s.len() == 0 {
        0
    } else {
        digits_value(s.drop_last()) * 10 + digit(s.last())
    }
}

/// The value of an unsigned integer: digits, perhaps after a plus sign.
pub open spec fn unsigned_value(s: Seq<char>) -> Option<nat> {
    let body = if s.len() > 0 && s[0] == '+' {
        s.skip(1)
    } else {
        s
    };
    if body.len() > 0 && all_digits(body) {
        Some(digits_value(body))
    } else {
        None
    }
}

/// The value of an unsigned integer that is at most `max`.
pub open spec fn unsigned_up_to(s: Seq<char>, max: u64) -> Option<u64> {
    match unsigned_value(s) {
        Some(v) if v <= max => Some(v as u64),
        _ => None,
    }
}

/// The value of a signed integer: digits, perhaps after a sign.
pub open spec fn signed_value(s: Seq<char>) -> Option<int> {
    let signed = s.len() > 0 && (s[0] == '+' || s[0] == '-');
    let body = if signed {
        s.skip(1)
    } else {
        s
    };
    if body.len() > 0 && all_digits(body) {
        Some(
            if s[0] == '-' {
                -digits_value(body)
            } else {
                digits_value(body) as int
            },
        )
    } else {
        None
    }
}

/// `d` times ten to the power `x`, rounded towards zero.
pub open spec fn scaled(d: nat, x: int) -> int {
    if x >= 0 {
        d * pow(10, x as nat)
    } else {
        d as int / pow(10, (-x) as nat)
    }
}

/// The smaller of two integers.
pub open spec fn least(a: int, b: int) -> int {
    if a <= b {
        a
    } else {
        b
    }
}

/// The position of the exponent mark, or the length.
pub open spec fn exponent_mark(s: Seq<char>) -> int {
    least(position(s, 'e'), position(s, 'E'))
}

/// The value of an exponent, at most [`EXPONENT_LIMIT`] either way.
pub open spec fn exponent_value(s: Seq<char>) -> Option<int> {
    match signed_value(s) {
        Some(v) => Some(
            if v > EXPONENT_LIMIT {
                EXPONENT_LIMIT as int
            } else if v < -EXPONENT_LIMIT {
                -EXPONENT_LIMIT as int
            } else {
                v
            },
        ),
        None => None,
    }
}

/// Where double precision ends: half a step above its largest number, from
/// where on numbers round to infinity.
pub open spec fn infinite_from() -> int {
    (pow(2, 54) - 1) * pow(2, 970)
}

/// The number of digits around an optional point, times ten to the power `x`.
pub open spec fn mantissa(s: Seq<char>, x: int) -> Option<Number> {
    let point = position(s, '.');
    let whole = s.take(point);
    let part = if point < s.len() {
        s.skip(point + 1)
    } else {
        Seq::empty()
    };
    let value = digits_value(whole + part);
    if all_digits(whole + part) && (whole + part).len() > 0 {
        Some(
            if scaled(value, x - part.len()) >= infinite_from() {
                Number::Infinite(false)
            } else {
                Number::Ticks(least(LIMIT as int, scaled(value, x + 12 - part.len())) as i128)
            },
        )
    } else {
        None
    }
}

/// What an unsigned decimal number is.
pub open spec fn magnitude(s: Seq<char>) -> Option<Number> {
    let mark = exponent_mark(s);
    if mark < s.len() {
        match exponent_value(s.skip(mark + 1)) {
            Some(x) => mantissa(s.take(mark), x),
            None => None,
        }
    } else {
        mantissa(s, 0)
    }
}

/// A character in lower case, as far as ASCII goes.
pub open spec fn lower(c: char) -> char {
    if 'A' <= c <= 'Z' {
        ((c as int) + 32) as char
    } else {
        c
    }
}

/// A text in lower case, as far as ASCII goes.
pub open spec fn lowered(s: Seq<char>) -> Seq<char> {
    Seq::new(s.len(), |i: int| lower(s[i]))
}

/// The negative of a number.
pub open spec fn negated(n: Number) -> Number {
    match n {
        Number::NotANumber => n,
        Number::Infinite(negative) => Number::Infinite(!negative),
        Number::Ticks(t) => Number::Ticks((-t) as i128),
    }
}

/// What a text is as a decimal number.
pub open spec fn decimal(s: Seq<char>) -> Option<Number> {
    let signed = s.len() > 0 && (s[0] == '+' || s[0] == '-');
    let body = if signed {
        s.skip(1)
    } else {
        s
    };
    let size = if lowered(body) == "nan"@ {
        Some(Number::NotANumber)
    } else if lowered(body) == "inf"@ || lowered(body) == "infinity"@ {
        Some(Number::Infinite(false))
    } else {
        magnitude(body)
    };
    match size {
        Some(n) => Some(
            if s[0] == '-' {
                negated(n)
            } else {
                n
            },
        ),
        None => None,
    }
}

/// Whether a character is an ASCII digit.
fn digit_char(c: char) -> (b: bool)
    ensures
        b == is_digit(c),
{
    '0' <= c && c <= '9'
}

/// The value of an ASCII digit.
fn digit_of(c: char) -> (d: u64)
    requires
        is_digit(c),
    ensures
        d == digit(c),
        d <= 9,
{
    c as u64 - '0' as u64
}

/// Whether a text consists of ASCII digits alone.
pub fn only_digits(s: &[char]) -> (b: bool)
    ensures
        b == all_digits(s@),
{
    let mut i: usize = 0;
    while i < s.len()
        invariant
            i <= s@.len(),
            forall|j: int| 0 <= j < i ==> is_digit(#[trigger] s@[j]),
        decreases s@.len() - i,
    {
        if !digit_char(s[i]) {
            assert(!is_digit(s@[i as int]));
            return false;
        }
        i = i + 1;
    }
    true
}

/// A longer text of digits is worth at least as much.
proof fn lemma_value_grows(s: Seq<char>, k: int)
    requires
        0 <= k <= s.len(),
    ensures
        digits_value(s.take(k)) <= digits_value(s),
    decreases s.len(),
{
    if k == s.len() {
        assert(s.take(k) =~= s);
    } else {
        lemma_value_grows(s.drop_last(), k);
        assert(s.drop_last().take(k) =~= s.take(k));
    }
}

/// The value of a text of digits, if it is at most `max`.
pub fn digits_up_to(s: &[char], max: u64) -> (r: Option<u64>)
    requires
        all_digits(s@),
    ensures
        r == (if digits_value(s@) <= max {
            Some(digits_value(s@) as u64)
        } else {
            None
        }),
{
    let mut acc: u64 = 0;
    let mut i: usize = 0;
    assert(s@.take(0) =~= Seq::<char>::empty());
    while i < s.len()
        invariant
            i <= s@.len(),
            all_digits(s@),
            acc == digits_value(s@.take(i as int)),
            acc <= max,
        decreases s@.len() - i,
    {
        let d = digit_of(s[i]);
        proof {
            assert(s@.take(i + 1).drop_last() =~= s@.take(i as int));
            assert(digits_value(s@.take(i + 1)) == acc * 10 + d);
            lemma_value_grows(s@, i + 1);
        }
        if d > max || acc > (max - d) / 10 {
            return None;
        }
        acc = acc * 10 + d;
        i = i + 1;
    }
    assert(s@.take(i as int) =~= s@);
    Some(acc)
}

/// Reads an unsigned integer of at most `max`.
pub fn parse_unsigned(s: &[char], max: u64) -> (r: Option<u64>)
    ensures
        r == unsigned_up_to(s@, max),
        r matches Some(v) ==> v <= max,
{
    let from: usize = if s.len() > 0 && s[0] == '+' {
        1
    } else {
        0
    };
    let body = slice_subrange(s, from, s.len());
    assert(body@ =~= (if s@.len() > 0 && s@[0] == '+' {
        s@.skip(1)
    } else {
        s@
    }));
    if body.len() == 0 || !only_digits(body) {
        return None;
    }
    digits_up_to(body, max)
}

/// Reads a signed integer in the range of `i64`.
pub fn parse_signed(s: &[char]) -> (r: Option<i64>)
    ensures
        r == (match signed_value(s@) {
            Some(v) if i64::MIN <= v <= i64::MAX => Some(v as i64),
            _ => None,
        }),
{
    let from: usize = if s.len() > 0 && (s[0] == '+' || s[0] == '-') {
        1
    } else {
        0
    };
    let body = slice_subrange(s, from, s.len());
    assert(body@ =~= (if s@.len() > 0 && (s@[0] == '+' || s@[0] == '-') {
        s@.skip(1)
    } else {
        s@
    }));
    if body.len() == 0 || !only_digits(body) {
        return None;
    }
    if s[0] == '-' {
        match digits_up_to(body, 9_223_372_036_854_775_808) {
            Some(v) => Some((-(v as i128)) as i64),
            None => None,
        }
    } else {
        match digits_up_to(body, 9_223_372_036_854_775_807) {
            Some(v) => Some(v as i64),
            None => None,
        }
    }
}

/// The value of a text of digits, or `cap` where it is larger.
fn digits_capped(s: &[char], cap: i128) -> (r: i128)
    requires
        all_digits(s@),
        0 <= cap <= EXPONENT_LIMIT,
    ensures
        r == least(digits_value(s@) as int, cap as int),
{
    let mut acc: i128 = 0;
    let mut i: usize = 0;
    assert(s@.take(0) =~= Seq::<char>::empty());
    while i < s.len()
        invariant
            i <= s@.len(),
            all_digits(s@),
            0 <= cap <= EXPONENT_LIMIT,
            acc == least(digits_value(s@.take(i as int)) as int, cap as int),
        decreases s@.len() - i,
    {
        let d = digit_of(s[i]);
        proof {
            assert(s@.take(i + 1).drop_last() =~= s@.take(i as int));
        }
        acc = acc * 10 + d as i128;
        if acc > cap {
            acc = cap;
        }
        i = i + 1;
    }
    assert(s@.take(i as int) =~= s@);
    acc
}

/// Reads an exponent.
fn parse_exponent(s: &[char]) -> (r: Option<i128>)
    ensures
        match r {
            Some(v) => exponent_value(s@) == Some(v as int),
            None => exponent_value(s@) is None,
        },
        r matches Some(v) ==> -EXPONENT_LIMIT <= v <= EXPONENT_LIMIT,
{
    let from: usize = if s.len() > 0 && (s[0] == '+' || s[0] == '-') {
        1
    } else {
        0
    };
    let body = slice_subrange(s, from, s.len());
    assert(body@ =~= (if s@.len() > 0 && (s@[0] == '+' || s@[0] == '-') {
        s@.skip(1)
    } else {
        s@
    }));
    if body.len() == 0 || !only_digits(body) {
        return None;
    }
    let v = digits_capped(body, EXPONENT_LIMIT);
    if s[0] == '-' {
        Some(-v)
    } else {
        Some(v)
    }
}

/// Dropping the last `n` digits divides by ten to the power `n`.
proof fn lemma_prefix_value(s: Seq<char>, n: nat)
    requires
        all_digits(s),
        n <= s.len(),
    ensures
        digits_value(s.take(s.len() - n)) == digits_value(s) as int / pow(10, n),
    decreases n,
{
    reveal(pow);
    if n == 0 {
        assert(s.take(s.len() as int) =~= s);
    } else {
        let m = (n - 1) as nat;
        lemma_prefix_value(s.drop_last(), m);
        assert(s.drop_last().take(s.len() - 1 - m) =~= s.take(s.len() - n));
        lemma_pow_positive(10, m);
        lemma_div_denominator(digits_value(s) as int, 10, pow(10, m));
        assert(is_digit(s[s.len() - 1]));
        assert(digits_value(s) as int / 10 == digits_value(s.drop_last()));
    }
}

/// A number that is less than ten to the power of its digits.
proof fn lemma_value_bound(s: Seq<char>)
    requires
        all_digits(s),
    ensures
        digits_value(s) < pow(10, s.len()),
    decreases s.len(),
{
    reveal(pow);
    if s.len() > 0 {
        lemma_value_bound(s.drop_last());
        assert(is_digit(s[s.len() - 1]));
    }
}

/// Cutting a text of digits to `p` of them, or filling it up with zeros.
proof fn lemma_scaled_is_prefix(s: Seq<char>, p: int)
    requires
        all_digits(s),
    ensures
        p <= 0 ==> scaled(digits_value(s), p - s.len()) == 0,
        0 <= p <= s.len() ==> scaled(digits_value(s), p - s.len()) == digits_value(s.take(p)),
        p >= s.len() ==> scaled(digits_value(s), p - s.len()) == digits_value(s) * pow(
            10,
            (p - s.len()) as nat,
        ),
{
    let v = digits_value(s);
    if p >= s.len() && p >= 0 {
        reveal(pow);
        assert(s.take(s.len() as int) =~= s);
    } else if p >= 0 {
        lemma_prefix_value(s, (s.len() - p) as nat);
    }
    if p <= 0 {
        lemma_value_bound(s);
        let n = (s.len() - p) as nat;
        lemma_pow_positive(10, (-p) as nat);
        lemma_pow_adds(10, s.len(), (-p) as nat);
        assert(pow(10, s.len()) <= pow(10, n)) by (nonlinear_arith)
            requires
                pow(10, n) == pow(10, s.len()) * pow(10, (-p) as nat),
                pow(10, (-p) as nat) >= 1,
                pow(10, s.len()) > 0,
        ;
        if p < s.len() {
            assert(v as int / pow(10, n) == 0) by (nonlinear_arith)
                requires
                    0 <= v < pow(10, n),
            ;
        }
        if p - s.len() < 0 {
            assert(scaled(v, p - s.len()) == v as int / pow(10, n));
        } else {
            let one = pow(10, 0);
            assert(v * one == 0) by (nonlinear_arith)
                requires
                    v == 0,
            ;
        }
    }
}

/// The first `p` digits of a text, filled up with zeros; at most [`LIMIT`].
fn leading_ticks(s: &[char], p: i128) -> (r: i128)
    requires
        all_digits(s@),
    ensures
        r == least(LIMIT as int, scaled(digits_value(s@), p - s@.len())),
{
    proof {
        lemma_scaled_is_prefix(s@, p as int);
        assert(s@.take(0) =~= Seq::<char>::empty());
    }
    let mut acc: i128 = 0;
    let mut i: usize = 0;
    while i < s.len() && (i as i128) < p
        invariant
            i <= s@.len(),
            i == 0 || i <= p,
            all_digits(s@),
            acc == least(digits_value(s@.take(i as int)) as int, LIMIT as int),
        decreases s@.len() - i,
    {
        let d = digit_of(s[i]);
        proof {
            assert(s@.take(i + 1).drop_last() =~= s@.take(i as int));
        }
        acc = acc * 10 + d as i128;
        if acc > LIMIT {
            acc = LIMIT;
        }
        i = i + 1;
    }
    if (i as i128) < p {
        assert(s@.take(i as int) =~= s@);
        let mut j: i128 = i as i128;
        let ghost v = digits_value(s@) as int;
        proof {
            reveal(pow);
        }
        while j < p && acc != 0 && acc != LIMIT
            invariant
                s@.len() <= j <= p,
                v == digits_value(s@),
                0 <= acc <= LIMIT,
                acc == least(v * pow(10, (j - s@.len()) as nat), LIMIT as int),
                acc == 0 ==> v == 0,
            decreases p - j,
        {
            proof {
                lemma_pow_positive(10, (j - s@.len()) as nat);
                reveal(pow);
                assert(pow(10, (j + 1 - s@.len()) as nat) == 10 * pow(
                    10,
                    (j - s@.len()) as nat,
                ));
                assert(v * pow(10, (j + 1 - s@.len()) as nat) == 10 * (v * pow(
                    10,
                    (j - s@.len()) as nat,
                ))) by (nonlinear_arith)
                    requires
                        pow(10, (j + 1 - s@.len()) as nat) == 10 * pow(
                            10,
                            (j - s@.len()) as nat,
                        ),
                ;
            }
            acc = acc * 10;
            if acc > LIMIT {
                acc = LIMIT;
            }
            j = j + 1;
        }
        proof {
            let a = (j - s@.len()) as nat;
            let b = (p - j) as nat;
            lemma_pow_adds(10, a, b);
            lemma_pow_positive(10, a);
            lemma_pow_positive(10, b);
            assert(v * pow(10, (a + b) as nat) == (v * pow(10, a)) * pow(10, b)) by (nonlinear_arith)
                requires
                    pow(10, (a + b) as nat) == pow(10, a) * pow(10, b),
            ;
            assert(scaled(digits_value(s@), p - s@.len()) == v * pow(10, (a + b) as nat));
            if v == 0 {
                assert(v * pow(10, (a + b) as nat) == 0) by (nonlinear_arith)
                    requires
                        v == 0,
                ;
                assert(v * pow(10, a) == 0) by (nonlinear_arith)
                    requires
                        v == 0,
                ;
            } else if j < p {
                assert(acc == LIMIT);
                assert((v * pow(10, a)) * pow(10, b) >= v * pow(10, a)) by (nonlinear_arith)
                    requires
                        v * pow(10, a) >= 0,
                        pow(10, b) >= 1,
                ;
            } else {
                assert(a + b == a);
            }
        }
    }
    acc
}

/// Zeros before a text of digits add nothing.
proof fn lemma_leading_zeros(s: Seq<char>, z: int)
    requires
        0 <= z <= s.len(),
        forall|i: int| 0 <= i < z ==> #[trigger] s[i] == '0',
    ensures
        digits_value(s.skip(z)) == digits_value(s),
    decreases s.len(),
{
    if z == s.len() {
        assert(s.skip(z) =~= Seq::<char>::empty());
        lemma_zeros(s);
    } else {
        lemma_leading_zeros(s.drop_last(), z);
        assert(s.skip(z).drop_last() =~= s.drop_last().skip(z));
    }
}

proof fn lemma_zeros(s: Seq<char>)
    requires
        forall|i: int| 0 <= i < s.len() ==> #[trigger] s[i] == '0',
    ensures
        digits_value(s) == 0,
    decreases s.len(),
{
    if s.len() > 0 {
        lemma_zeros(s.drop_last());
        assert(s[s.len() - 1] == '0');
    }
}

/// A number that does not start with zero has its full length.
proof fn lemma_value_is_long(s: Seq<char>)
    requires
        all_digits(s),
        s.len() > 0,
        s[0] != '0',
    ensures
        digits_value(s) >= pow(10, (s.len() - 1) as nat),
    decreases s.len(),
{
    reveal(pow);
    if s.len() == 1 {
        assert(is_digit(s[0]));
        assert(digits_value(s.drop_last()) == 0);
    } else {
        assert forall|i: int| 0 <= i < s.drop_last().len() implies is_digit(
            #[trigger] s.drop_last()[i],
        ) by {
            assert(is_digit(s[i]));
        }
        lemma_value_is_long(s.drop_last());
        assert(is_digit(s[s.len() - 1]));
    }
}

/// Powers of ten against powers of two.
proof fn lemma_tens_and_twos(n: nat)
    ensures
        pow(10, n) >= pow(2, 3 * n),
        pow(10, 3 * n) <= pow(2, 10 * n),
    decreases n,
{
    reveal(pow);
    if n > 0 {
        let m = (n - 1) as nat;
        lemma_tens_and_twos(m);
        lemma_pow_adds(2, 3 * m, 3);
        lemma_pow_adds(2, 10 * m, 10);
        lemma_pow_adds(10, 3 * m, 3);
        lemma_pow_positive(2, 3 * m);
        lemma_pow_positive(2, 10 * m);
        lemma_pow_positive(10, 3 * m);
        assert(pow(2, 3) == 8) by {
            reveal_with_fuel(pow, 4);
        }
        assert(pow(2, 10) == 1024) by {
            reveal_with_fuel(pow, 11);
        }
        assert(pow(10, 3) == 1000) by {
            reveal_with_fuel(pow, 4);
        }
        assert(3 * m + 3 == 3 * n && 10 * m + 10 == 10 * n);
    }
}

proof fn lemma_powers_grow(b: int, n: nat, m: nat)
    requires
        b >= 1,
        n <= m,
    ensures
        0 < pow(b, n) <= pow(b, m),
{
    lemma_pow_positive(b, n);
    lemma_pow_positive(b, (m - n) as nat);
    lemma_pow_adds(b, n, (m - n) as nat);
    let (x, y) = (pow(b, n), pow(b, (m - n) as nat));
    assert(x <= x * y) by (nonlinear_arith)
        requires
            x > 0,
            y >= 1,
    ;
}

/// Numbers of 306 digits are finite, and numbers of 343 digits are not.
proof fn lemma_infinite_from()
    ensures
        pow(10, 306) <= infinite_from() <= pow(10, 342),
        pow(2, 970) > 0,
        pow(2, 54) == 18_014_398_509_481_984,
{
    lemma_tens_and_twos(102);
    lemma_tens_and_twos(342);
    assert(pow(2, 54) == 18_014_398_509_481_984) by {
        reveal_with_fuel(pow, 28);
        lemma_pow_adds(2, 27, 27);
    }
    assert(pow(2, 50) == 1_125_899_906_842_624) by {
        reveal_with_fuel(pow, 26);
        lemma_pow_adds(2, 25, 25);
    }
    assert(pow(2, 56) == 72_057_594_037_927_936) by {
        reveal_with_fuel(pow, 29);
        lemma_pow_adds(2, 28, 28);
    }
    lemma_pow_adds(2, 50, 970);
    lemma_pow_adds(2, 56, 970);
    lemma_pow_positive(2, 970);
    let u = pow(2, 970);
    assert(pow(2, 1020) == 1_125_899_906_842_624 * u);
    assert(pow(2, 1026) == 72_057_594_037_927_936 * u);
    assert(infinite_from() == 18_014_398_509_481_983 * u);
}

/// The value of digits, the most significant first.
spec fn figures_value(v: Seq<u8>) -> nat
    decreases v.len(),
{
    if v.len() == 0 {
        0
    } else {
        figures_value(v.drop_last()) * 10 + v.last() as nat
    }
}

spec fn are_figures(v: Seq<u8>) -> bool {
    forall|i: int| 0 <= i < v.len() ==> #[trigger] v[i] <= 9
}

/// Halves a number, rounding down.
fn halve(v: &mut Vec<u8>)
    requires
        are_figures(old(v)@),
    ensures
        are_figures(final(v)@),
        final(v)@.len() == old(v)@.len(),
        figures_value(final(v)@) == figures_value(old(v)@) / 2,
{
    let ghost before = v@;
    let mut carry: u8 = 0;
    let mut i: usize = 0;
    assert(v@.take(0) =~= Seq::<u8>::empty());
    while i < v.len()
        invariant
            i <= v@.len(),
            v@.len() == before.len(),
            are_figures(before),
            are_figures(v@),
            carry <= 1,
            forall|j: int| i <= j < v@.len() ==> #[trigger] v@[j] == before[j],
            2 * figures_value(v@.take(i as int)) + carry == figures_value(before.take(i as int)),
        decreases v@.len() - i,
    {
        assert(v@[i as int] == before[i as int] && before[i as int] <= 9);
        let c: u8 = carry * 10 + v[i];
        let ghost kept = v@.take(i as int);
        v.set(i, c / 2);
        carry = c % 2;
        proof {
            assert(v@.take(i + 1).drop_last() =~= kept);
            assert(before.take(i + 1).drop_last() =~= before.take(i as int));
            assert(v@.take(i + 1).last() == c / 2);
        }
        i = i + 1;
    }
    assert(v@.take(i as int) =~= v@);
    assert(before.take(i as int) =~= before);
}

/// Whether the first `p` digits of a text, filled up with zeros, are infinite
/// in double precision.
fn is_infinite(s: &[char], p: i128) -> (r: bool)
    requires
        all_digits(s@),
        -2 * EXPONENT_LIMIT <= p <= 2 * EXPONENT_LIMIT,
    ensures
        r == (scaled(digits_value(s@), p - s@.len()) >= infinite_from()),
{
    proof {
        lemma_infinite_from();
        lemma_pow_positive(10, 306);
    }
    let mut z: usize = 0;
    while z < s.len() && s[z] == '0'
        invariant
            z <= s@.len(),
            forall|i: int| 0 <= i < z ==> #[trigger] s@[i] == '0',
        decreases s@.len() - z,
    {
        z = z + 1;
    }
    let ghost t = s@.skip(z as int);
    let ghost q = p - z;
    let ghost whole = scaled(digits_value(s@), p - s@.len());
    proof {
        lemma_leading_zeros(s@, z as int);
        assert(all_digits(t)) by {
            assert forall|i: int| 0 <= i < t.len() implies is_digit(#[trigger] t[i]) by {
                assert(t[i] == s@[z + i]);
            }
        }
        assert(p - s@.len() == q - t.len());
        lemma_scaled_is_prefix(t, q);
        lemma_first_figures(t, q);
    }
    if z == s.len() {
        proof {
            assert(t =~= Seq::<char>::empty());
            assert(digits_value(t) == 0);
            lemma_scaled_zero(p - s@.len());
        }
        return false;
    }
    let n: i128 = p - z as i128;
    assert(t[0] == s@[z as int]);
    if n <= 306 {
        proof {
            if n > 0 {
                lemma_powers_grow(10, n as nat, 306);
            }
        }
        return false;
    }
    if n >= 343 {
        proof {
            lemma_powers_grow(10, 342, (n - 1) as nat);
        }
        return true;
    }
    let mut v: Vec<u8> = Vec::new();
    let mut k: usize = 0;
    while k < n as usize
        invariant
            k <= n <= 342,
            n == q,
            z < s@.len(),
            t == s@.skip(z as int),
            all_digits(s@),
            all_digits(t),
            v@ == first_figures(t, k as nat),
        decreases n - k,
    {
        if k < s.len() - z {
            assert(t[k as int] == s@[z + k]);
            v.push(digit_of(s[z + k]) as u8);
        } else {
            v.push(0);
        }
        k = k + 1;
        assert(first_figures(t, k as nat).drop_last() =~= first_figures(t, (k - 1) as nat));
        assert(v@ =~= first_figures(t, k as nat));
    }
    let ghost all = figures_value(v@) as int;
    assert(all == whole);
    let mut j: usize = 0;
    proof {
        reveal(pow);
        assert(pow(2, 0) == 1);
        lemma_figures_bound(t, n as nat);
    }
    while j < 970
        invariant
            j <= 970,
            are_figures(v@),
            figures_value(v@) == all / pow(2, j as nat),
            all >= 0,
        decreases 970 - j,
    {
        proof {
            lemma_pow_positive(2, j as nat);
            reveal(pow);
            assert(pow(2, (j + 1) as nat) == 2 * pow(2, j as nat));
            lemma_div_denominator(all, pow(2, j as nat), 2);
            assert(pow(2, j as nat) * 2 == pow(2, (j + 1) as nat));
        }
        halve(&mut v);
        j = j + 1;
    }
    let r = reaches(v.as_slice(), 18_014_398_509_481_983);
    proof {
        let u = pow(2, 970);
        assert((all / u >= 18_014_398_509_481_983) == (all >= 18_014_398_509_481_983 * u))
            by (nonlinear_arith)
            requires
                u > 0,
        ;
    }
    r
}

/// The first `n` digits of a text, filled up with zeros.
spec fn first_figures(s: Seq<char>, n: nat) -> Seq<u8> {
    Seq::new(
        n,
        |i: int|
            if i < s.len() {
                digit(s[i]) as u8
            } else {
                0u8
            },
    )
}

proof fn lemma_scaled_zero(x: int)
    ensures
        scaled(0, x) == 0,
{
    if x >= 0 {
        let p = pow(10, x as nat);
        assert(0 * p == 0) by (nonlinear_arith);
    } else {
        lemma_pow_positive(10, (-x) as nat);
        let p = pow(10, (-x) as nat);
        assert(0int / p == 0) by (nonlinear_arith)
            requires
                p > 0,
        ;
    }
}

proof fn lemma_figures_bound(s: Seq<char>, n: nat)
    requires
        all_digits(s),
    ensures
        are_figures(first_figures(s, n)),
{
    assert forall|i: int| 0 <= i < n implies #[trigger] first_figures(s, n)[i] <= 9 by {
        if i < s.len() {
            assert(is_digit(s[i]));
        }
    }
}

/// The value of the first digits of a text, filled up with zeros.
proof fn lemma_figures_value(s: Seq<char>, n: nat)
    requires
        all_digits(s),
    ensures
        n <= s.len() ==> figures_value(first_figures(s, n)) == digits_value(s.take(n as int)),
        n >= s.len() ==> figures_value(first_figures(s, n)) == digits_value(s) * pow(
            10,
            (n - s.len()) as nat,
        ),
    decreases n,
{
    reveal(pow);
    if n == 0 {
        assert(s.take(0) =~= Seq::<char>::empty());
    } else {
        let m = (n - 1) as nat;
        lemma_figures_value(s, m);
        assert(first_figures(s, n).drop_last() =~= first_figures(s, m));
        if n <= s.len() {
            assert(s.take(n as int).drop_last() =~= s.take(m as int));
            assert(is_digit(s[m as int]));
            if n == s.len() {
                assert(s.take(n as int) =~= s);
            }
        } else {
            let (d, x) = (digits_value(s) as int, pow(10, (m - s.len()) as nat));
            assert(pow(10, (n - s.len()) as nat) == 10 * x);
            assert(d * (10 * x) == (d * x) * 10) by (nonlinear_arith);
        }
    }
}

/// What the first `q` digits of a text are worth, and how much at least and at
/// most.
proof fn lemma_first_figures(s: Seq<char>, q: int)
    requires
        all_digits(s),
    ensures
        q <= 0 ==> scaled(digits_value(s), q - s.len()) == 0,
        q >= 0 ==> scaled(digits_value(s), q - s.len()) == figures_value(
            first_figures(s, q as nat),
        ),
        q >= 0 ==> scaled(digits_value(s), q - s.len()) < pow(10, q as nat),
        q > 0 && s.len() > 0 && s[0] != '0' ==> scaled(digits_value(s), q - s.len()) >= pow(
            10,
            (q - 1) as nat,
        ),
{
    lemma_scaled_is_prefix(s, q);
    if q >= 0 {
        lemma_figures_value(s, q as nat);
        if q <= s.len() {
            let t = s.take(q);
            assert(all_digits(t)) by {
                assert forall|i: int| 0 <= i < t.len() implies is_digit(#[trigger] t[i]) by {
                    assert(t[i] == s[i]);
                }
            }
            lemma_value_bound(t);
            if q > 0 && s[0] != '0' {
                lemma_value_is_long(t);
            }
        } else {
            let k = (q - s.len()) as nat;
            lemma_value_bound(s);
            lemma_pow_positive(10, k);
            lemma_pow_adds(10, s.len(), k);
            let (d, x, y) = (digits_value(s) as int, pow(10, k), pow(10, s.len()));
            assert(d * x < y * x) by (nonlinear_arith)
                requires
                    d < y,
                    x > 0,
            ;
            if s.len() > 0 && s[0] != '0' {
                lemma_value_is_long(s);
                let w = pow(10, (s.len() - 1) as nat);
                lemma_pow_adds(10, (s.len() - 1) as nat, k);
                assert(d * x >= w * x) by (nonlinear_arith)
                    requires
                        d >= w,
                        x > 0,
                ;
            }
        }
    }
}

/// Whether a number is at least `bound`.
fn reaches(v: &[u8], bound: u64) -> (r: bool)
    requires
        are_figures(v@),
        bound <= 100_000_000_000_000_000,
    ensures
        r == (figures_value(v@) >= bound),
{
    let mut acc: u64 = 0;
    let mut i: usize = 0;
    assert(v@.take(0) =~= Seq::<u8>::empty());
    while i < v.len()
        invariant
            i <= v@.len(),
            are_figures(v@),
            bound <= 100_000_000_000_000_000,
            acc == least(figures_value(v@.take(i as int)) as int, bound as int),
        decreases v@.len() - i,
    {
        assert(v@.take(i + 1).drop_last() =~= v@.take(i as int));
        assert(v@[i as int] <= 9);
        acc = acc * 10 + v[i] as u64;
        if acc > bound {
            acc = bound;
        }
        i = i + 1;
    }
    assert(v@.take(i as int) =~= v@);
    acc == bound
}

/// Reads digits around an optional point.
fn parse_mantissa(s: &[char], x: i128) -> (r: Option<Number>)
    requires
        -EXPONENT_LIMIT <= x <= EXPONENT_LIMIT,
    ensures
        r == mantissa(s@, x as int),
        r matches Some(Number::Ticks(v)) ==> 0 <= v <= LIMIT,
{
    assert(s@.skip(0) =~= s@);
    let point = crate::text::find(s, 0, '.');
    let mut digits: Vec<char> = Vec::new();
    let mut i: usize = 0;
    while i < s.len()
        invariant
            point <= s@.len(),
            i <= s@.len(),
            digits@ == (if i <= point {
                s@.take(i as int)
            } else {
                s@.take(point as int) + s@.subrange(point + 1, i as int)
            }),
        decreases s@.len() - i,
    {
        if i != point {
            digits.push(s[i]);
        }
        i = i + 1;
        assert(digits@ =~= (if i <= point {
            s@.take(i as int)
        } else {
            s@.take(point as int) + s@.subrange(point + 1, i as int)
        }));
    }
    let ghost part = if point < s@.len() {
        s@.skip(point + 1)
    } else {
        Seq::empty()
    };
    assert(digits@ =~= s@.take(point as int) + part);
    if digits.len() == 0 || !only_digits(digits.as_slice()) {
        return None;
    }
    assert(x + point - digits@.len() == x - part.len());
    if is_infinite(digits.as_slice(), x + point as i128) {
        return Some(Number::Infinite(false));
    }
    let v = leading_ticks(digits.as_slice(), x + 12 + point as i128);
    proof {
        assert(x + 12 + point - digits@.len() == x + 12 - part.len());
        let d = digits_value(digits@);
        let e = x + 12 - part.len();
        if e < 0 {
            lemma_pow_positive(10, (-e) as nat);
            assert(d as int / pow(10, (-e) as nat) >= 0) by (nonlinear_arith)
                requires
                    pow(10, (-e) as nat) > 0,
                    d >= 0,
            ;
        } else {
            lemma_pow_positive(10, e as nat);
            assert(d * pow(10, e as nat) >= 0) by (nonlinear_arith)
                requires
                    pow(10, e as nat) > 0,
                    d >= 0,
            ;
        }
    }
    Some(Number::Ticks(v))
}

/// Reads an unsigned decimal number.
fn parse_magnitude(s: &[char]) -> (r: Option<Number>)
    ensures
        r == magnitude(s@),
        r matches Some(Number::Ticks(v)) ==> 0 <= v <= LIMIT,
{
    assert(s@.skip(0) =~= s@);
    let small = crate::text::find(s, 0, 'e');
    let large = crate::text::find(s, 0, 'E');
    let mark = if small <= large {
        small
    } else {
        large
    };
    if mark < s.len() {
        let tail = slice_subrange(s, mark + 1, s.len());
        let head = slice_subrange(s, 0, mark);
        assert(tail@ =~= s@.skip(mark + 1));
        assert(head@ =~= s@.take(mark as int));
        match parse_exponent(tail) {
            Some(x) => parse_mantissa(head, x),
            None => None,
        }
    } else {
        parse_mantissa(s, 0)
    }
}

/// A character in lower case, as far as ASCII goes.
pub fn lower_char(c: char) -> (r: char)
    ensures
        r == lower(c),
{
    if 'A' <= c && c <= 'Z' {
        ((c as u8) + 32) as char
    } else {
        c
    }
}

/// A text in lower case, as far as ASCII goes.
pub fn lower_chars(s: &[char]) -> (r: Vec<char>)
    ensures
        r@ == lowered(s@),
{
    let mut out: Vec<char> = Vec::new();
    let mut i: usize = 0;
    while i < s.len()
        invariant
            i <= s@.len(),
            out@ =~= lowered(s@).take(i as int),
        decreases s@.len() - i,
    {
        out.push(lower_char(s[i]));
        i = i + 1;
    }
    assert(out@ =~= lowered(s@));
    out
}

/// Reads a decimal number.
pub fn parse_decimal(s: &[char]) -> (r: Option<Number>)
    ensures
        r == decimal(s@),
        r matches Some(Number::Ticks(v)) ==> -LIMIT <= v <= LIMIT,
{
    let from: usize = if s.len() > 0 && (s[0] == '+' || s[0] == '-') {
        1
    } else {
        0
    };
    let body = slice_subrange(s, from, s.len());
    assert(body@ =~= (if s@.len() > 0 && (s@[0] == '+' || s@[0] == '-') {
        s@.skip(1)
    } else {
        s@
    }));
    let word = lower_chars(body);
    proof {
        reveal_strlit("nan");
        reveal_strlit("inf");
        reveal_strlit("infinity");
        lemma_number_needs_text(body@);
    }
    let size = if crate::text::is_word(word.as_slice(), "nan") {
        Some(Number::NotANumber)
    } else if crate::text::is_word(word.as_slice(), "inf") || crate::text::is_word(
        word.as_slice(),
        "infinity",
    ) {
        Some(Number::Infinite(false))
    } else {
        parse_magnitude(body)
    };
    match size {
        Some(n) => {
            assert(lowered(body@).len() == body@.len());
            assert(body@.len() > 0) by {
                if body@.len() == 0 {
                    assert(lowered(body@) =~= Seq::<char>::empty());
                    assert("nan"@.len() == 3 && "inf"@.len() == 3 && "infinity"@.len() == 8);
                }
            }
            if s[0] != '-' {
                return Some(n);
            }
            match n {
                Number::NotANumber => Some(n),
                Number::Infinite(negative) => Some(Number::Infinite(!negative)),
                Number::Ticks(v) => Some(Number::Ticks(-v)),
            }
        },
        None => None,
    }
}

/// The ticks of the number that a text gives, where it gives one.
pub open spec fn ticks_in(s: Seq<char>) -> Option<i128> {
    match decimal(s) {
        Some(n) => n.ticks(),
        None => None,
    }
}

/// Reads a number in ticks.
pub fn read_ticks(s: &[char]) -> (r: Option<i128>)
    ensures
        r == ticks_in(s@),
        r matches Some(t) ==> -LIMIT <= t <= LIMIT,
{
    match parse_decimal(s) {
        Some(n) => n.to_ticks(),
        None => None,
    }
}

/// An empty text is no number.
proof fn lemma_number_needs_text(s: Seq<char>)
    ensures
        magnitude(s) is Some ==> s.len() > 0,
{
    crate::text::lemma_position(s, 'e');
    crate::text::lemma_position(s, 'E');
    crate::text::lemma_position(s, '.');
    if s.len() == 0 {
        assert(s.take(0) + Seq::<char>::empty() =~= Seq::<char>::empty());
    }
}

/// A decimal number never exceeds the limit.
pub proof fn lemma_decimal_bound(s: Seq<char>)
    ensures
        decimal(s) matches Some(Number::Ticks(t)) ==> -LIMIT <= t <= LIMIT,
{
    assert forall|d: nat, x: int| #[trigger] scaled(d, x) >= 0 by {
        if x >= 0 {
            lemma_pow_positive(10, x as nat);
            let p = pow(10, x as nat);
            assert(d * p >= 0) by (nonlinear_arith)
                requires
                    d >= 0,
                    p > 0,
            ;
        } else {
            lemma_pow_positive(10, (-x) as nat);
            let p = pow(10, (-x) as nat);
            assert(d as int / p >= 0) by (nonlinear_arith)
                requires
                    d >= 0,
                    p > 0,
            ;
        }
    }
}

/// A number written in decimal, without leading zeros.
pub open spec fn decimal_text(n: nat) -> Seq<char>
    decreases n,
{
    if n < 10 {
        seq![('0' as int + n) as char]
    } else {
        decimal_text(n / 10).push(('0' as int + n % 10) as char)
    }
}

/// What is written in decimal reads back as the same number.
pub proof fn law_decimal_text_reads_back(n: nat)
    ensures
        all_digits(decimal_text(n)),
        decimal_text(n).len() > 0,
        unsigned_value(decimal_text(n)) == Some(n),
{
    lemma_decimal_text(n);
    let s = decimal_text(n);
    assert(is_digit(s[0]));
}

proof fn lemma_decimal_text(n: nat)
    ensures
        all_digits(decimal_text(n)),
        decimal_text(n).len() > 0,
        digits_value(decimal_text(n)) == n,
    decreases n,
{
    if n < 10 {
        let s = decimal_text(n);
        assert(s.drop_last() =~= Seq::<char>::empty());
        assert(digits_value(s.drop_last()) == 0);
    } else {
        lemma_decimal_text(n / 10);
        let s = decimal_text(n);
        assert(s.drop_last() =~= decimal_text(n / 10));
    }
}

/// Writes a number in decimal.
pub fn write_large(n: u128) -> (r: Vec<char>)
    ensures
        r@ == decimal_text(n as nat),
    decreases n,
{
    let d: u8 = 48 + (n % 10) as u8;
    if n < 10 {
        let r: Vec<char> = vec![d as char];
        assert(r@ =~= decimal_text(n as nat));
        r
    } else {
        let mut r = write_large(n / 10);
        r.push(d as char);
        r
    }
}

/// Writes a number in decimal.
pub fn write_decimal(n: u64) -> (r: Vec<char>)
    ensures
        r@ == decimal_text(n as nat),
{
    write_large(n as u128)
}

/// `a` divided by a positive `d`, rounded down.
pub fn floor_div(a: i128, d: i128) -> (r: i128)
    requires
        d > 0,
        a > i128::MIN / 4,
        a < i128::MAX / 4,
        d < i128::MAX / 4,
    ensures
        r == a as int / d as int,
{
    if a >= 0 {
        a / d
    } else {
        let q: i128 = (-a + (d - 1)) / d;
        proof {
            let n = -(a as int);
            let e = d as int;
            let b = (n + e - 1) / e;
            assert(b == -((-n) / e)) by (nonlinear_arith)
                requires
                    e > 0,
                    b == (n + e - 1) / e,
            ;
            assert(0 <= b <= n) by (nonlinear_arith)
                requires
                    e > 0,
                    n > 0,
                    b == (n + e - 1) / e,
            ;
        }
        -q
    }
}

} // verus!
