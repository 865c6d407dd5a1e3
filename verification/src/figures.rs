//! What written numbers are worth.

use crate::number::{
    all_digits, decimal, decimal_text, digit, digits_value, exponent_mark, infinite_from, is_digit,
    law_decimal_text_reads_back, lowered, mantissa, scaled, signed_value, unsigned_up_to, Number,
};
use crate::text::{lemma_position, lemma_position_is, position};
use vstd::arithmetic::power::{lemma_pow_adds, lemma_pow_increases, lemma_pow_positive, pow};
use vstd::prelude::*;

verus! {

/// Digits behind others shift those by ten each.
pub proof fn law_digits_shift(a: Seq<char>, b: Seq<char>)
    ensures
        digits_value(a + b) == digits_value(a) * pow(10, b.len()) + digits_value(b),
    decreases b.len(),
{
    if b.len() == 0 {
        assert(a + b =~= a);
        vstd::arithmetic::power::lemma_pow0(10);
    } else {
        let front = b.drop_last();
        law_digits_shift(a, front);
        assert((a + b).drop_last() =~= a + front);
        assert((a + b).last() == b.last());
        vstd::arithmetic::power::lemma_pow1(10);
        lemma_pow_adds(10, front.len(), 1);
        let (x, p, y) = (digits_value(a) as int, pow(10, front.len()), digits_value(front) as int);
        assert((x * p + y) * 10 == x * (p * 10) + y * 10) by (nonlinear_arith);
    }
}

proof fn lemma_small(s: Seq<char>)
    requires
        all_digits(s),
    ensures
        digits_value(s) < pow(10, s.len()),
    decreases s.len(),
{
    if s.len() == 0 {
        vstd::arithmetic::power::lemma_pow0(10);
    } else {
        let front = s.drop_last();
        assert forall|i: int| 0 <= i < front.len() implies is_digit(#[trigger] front[i]) by {
            assert(front[i] == s[i]);
        }
        lemma_small(front);
        vstd::arithmetic::power::lemma_pow1(10);
        lemma_pow_adds(10, front.len(), 1);
        assert(is_digit(s[s.len() - 1]));
    }
}

/// One digit is worth itself, and leading zeros are worth nothing.
pub proof fn law_single_digits(c: char, s: Seq<char>)
    requires
        is_digit(c),
    ensures
        digits_value(seq![c]) == c as int - '0' as int,
        digits_value(seq!['0'] + s) == digits_value(s),
{
    let (x, z) = (seq![c], seq!['0']);
    assert(x.drop_last() =~= Seq::empty());
    assert(z.drop_last() =~= Seq::empty());
    assert(digits_value(Seq::<char>::empty()) == 0);
    assert(digits_value(z) == digits_value(z.drop_last()) * 10 + digit(z.last()));
    assert(digits_value(x) == digits_value(x.drop_last()) * 10 + digit(x.last()));
    law_digits_shift(z, s);
}

/// A whole number is read just where a text consists of digits, perhaps after a
/// plus sign, and is no larger than allowed; a minus sign makes it negative where
/// signs are allowed.
pub proof fn law_whole_numbers_are_read(s: Seq<char>, max: u64)
    requires
        s.len() > 0,
        all_digits(s),
    ensures
        unsigned_up_to(s, max) == (if digits_value(s) <= max {
            Some(digits_value(s) as u64)
        } else {
            None
        }),
        unsigned_up_to(seq!['+'] + s, max) == unsigned_up_to(s, max),
        unsigned_up_to(seq!['-'] + s, max) is None,
        signed_value(s) == Some(digits_value(s) as int),
        signed_value(seq!['+'] + s) == Some(digits_value(s) as int),
        signed_value(seq!['-'] + s) == Some(-(digits_value(s) as int)),
        unsigned_up_to(Seq::empty(), max) is None,
{
    assert(is_digit(s[0]));
    assert((seq!['+'] + s).skip(1) =~= s);
    assert((seq!['-'] + s).skip(1) =~= s);
    let m = seq!['-'] + s;
    assert(m[0] == '-' && !is_digit(m[0]));
    assert(!all_digits(m));
}

proof fn lemma_infinite()
    ensures
        infinite_from() > 10_000_000_000_000_000,
{
    lemma_pow_positive(2, 970);
    lemma_pow_increases(2, 54, 54);
    assert(pow(2, 54) == 18_014_398_509_481_984) by {
        vstd::arithmetic::power2::lemma2_to64();
        vstd::arithmetic::power2::lemma_pow2(54);
        vstd::arithmetic::power2::lemma_pow2(32);
        vstd::arithmetic::power2::lemma_pow2(22);
        lemma_pow_adds(2, 32, 22);
    }
    let (a, b) = (pow(2, 54) - 1, pow(2, 970));
    assert(a * b >= a) by (nonlinear_arith)
        requires
            a > 0,
            b >= 1,
    ;
}

/// Whether a text is digits, perhaps around a point.
pub open spec fn is_plain(s: Seq<char>) -> bool {
    forall|i: int| 0 <= i < s.len() ==> is_digit(#[trigger] s[i]) || s[i] == '.'
}

proof fn lemma_plain(s: Seq<char>)
    requires
        is_plain(s),
        s.len() > 0,
    ensures
        decimal(s) == mantissa(s, 0),
{
    let c = s[0];
    assert(is_digit(c) || c == '.');
    reveal_strlit("nan");
    reveal_strlit("inf");
    reveal_strlit("infinity");
    let low = lowered(s);
    assert(low[0] == c);
    assert("nan"@[0] == 'n' && "inf"@[0] == 'i' && "infinity"@[0] == 'i');
    lemma_position(s, 'e');
    lemma_position(s, 'E');
    let (p, q) = (position(s, 'e'), position(s, 'E'));
    if p < s.len() {
        assert(is_digit(s[p]) || s[p] == '.');
    }
    if q < s.len() {
        assert(is_digit(s[q]) || s[q] == '.');
    }
    assert(exponent_mark(s) == s.len());
}

/// A text of digits with up to twelve more behind a point is worth the whole and
/// the part; so many ticks make one.
pub proof fn law_decimals_are_read(whole: Seq<char>, part: Seq<char>)
    requires
        whole.len() > 0,
        all_digits(whole),
        all_digits(part),
        part.len() <= 12,
        digits_value(whole) < 10_000_000_000_000_000,
    ensures
        decimal(whole + seq!['.'] + part) == Some(
            Number::Ticks(
                (digits_value(whole) * 1_000_000_000_000 + digits_value(part) * pow(
                    10,
                    (12 - part.len()) as nat,
                )) as i128,
            ),
        ),
        part.len() == 0 ==> decimal(whole) == Some(
            Number::Ticks((digits_value(whole) * 1_000_000_000_000) as i128),
        ),
{
    let s = whole + seq!['.'] + part;
    let n = whole.len() as int;
    let k = part.len();
    let (v, f) = (digits_value(whole) as int, digits_value(part) as int);
    assert forall|i: int| 0 <= i < s.len() implies is_digit(#[trigger] s[i]) || s[i] == '.' by {
        if i < n {
            assert(s[i] == whole[i]);
        } else if i > n {
            assert(s[i] == part[i - n - 1]);
        }
    }
    lemma_plain(s);
    assert forall|i: int| 0 <= i < n implies s[i] != '.' by {
        assert(s[i] == whole[i]);
        assert(is_digit(whole[i]));
    }
    lemma_position_is(s, '.', n);
    assert(s.take(n) =~= whole);
    assert(s.skip(n + 1) =~= part);
    assert forall|i: int| 0 <= i < (whole + part).len() implies is_digit(
        #[trigger] (whole + part)[i],
    ) by {
        if i < n {
            assert((whole + part)[i] == whole[i]);
        } else {
            assert((whole + part)[i] == part[i - n]);
        }
    }
    law_digits_shift(whole, part);
    lemma_small(part);
    lemma_pow_positive(10, k);
    lemma_infinite();
    let p = pow(10, k);
    let value = v * p + f;
    let m = (12 - k) as nat;
    let q = pow(10, m);
    lemma_pow_adds(10, k, m);
    assert(pow(10, 12) == 1_000_000_000_000) by {
        reveal_with_fuel(pow, 13);
    }
    assert(value / p == v) by (nonlinear_arith)
        requires
            value == v * p + f,
            0 <= f < p,
    ;
    assert(value * q == v * (p * q) + f * q) by (nonlinear_arith)
        requires
            value == v * p + f,
    ;
    lemma_pow_positive(10, m);
    assert(f * q < p * q) by (nonlinear_arith)
        requires
            0 <= f < p,
            q > 0,
    ;
    assert(f * q >= 0) by (nonlinear_arith)
        requires
            f >= 0,
            q > 0,
    ;
    assert(scaled(value as nat, 0 - k) == v) by {
        if k == 0 {
            vstd::arithmetic::power::lemma_pow0(10);
        }
    }
    assert(scaled(value as nat, 12 - k) == value * q);
    if k == 0 {
        vstd::arithmetic::power::lemma_pow0(10);
        assert(is_plain(whole));
        lemma_plain(whole);
        lemma_position_is(whole, '.', n);
        assert(whole.take(n) =~= whole);
        assert(whole + Seq::<char>::empty() =~= whole);
        assert(scaled(v as nat, 0) == v * 1);
        assert(scaled(v as nat, 12) == v * 1_000_000_000_000);
    }
}

/// What is written in decimal is read as that many whole units.
pub proof fn law_written_numbers_are_read(n: nat)
    requires
        n < 10_000_000_000_000_000,
    ensures
        decimal(decimal_text(n)) == Some(Number::Ticks((n * 1_000_000_000_000) as i128)),
{
    law_decimal_text_reads_back(n);
    let s = decimal_text(n);
    assert(is_digit(s[0]));
    assert(digits_value(s) == n);
    law_decimals_are_read(s, Seq::empty());
}

/// A minus sign turns a number around, a plus sign leaves it; what is no number
/// stays none behind a sign.
pub proof fn law_signs_turn_numbers(s: Seq<char>)
    requires
        s.len() > 0,
        s[0] != '+' && s[0] != '-',
    ensures
        decimal(seq!['+'] + s) == decimal(s),
        match decimal(s) {
            Some(Number::Ticks(t)) => decimal(seq!['-'] + s) == Some(Number::Ticks((-t) as i128)),
            Some(Number::Infinite(negative)) => decimal(seq!['-'] + s) == Some(
                Number::Infinite(!negative),
            ),
            Some(Number::NotANumber) => decimal(seq!['-'] + s) == Some(Number::NotANumber),
            None => decimal(seq!['-'] + s) is None,
        },
{
    assert((seq!['+'] + s).skip(1) =~= s);
    assert((seq!['-'] + s).skip(1) =~= s);
}

} // verus!
