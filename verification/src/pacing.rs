//! A file at another clock rate, told line by line: what moves, how far, and
//! what stays.

use crate::figures::{law_decimals_are_read, law_whole_numbers_are_read};
use crate::moving::{lacks, law_joined_splits_back, law_split_joins_back};
use crate::number::{
    all_digits, decimal, decimal_text, digits_value, is_digit, law_decimal_text_reads_back,
    signed_value, Number, TICKS,
};
use crate::parser::is_hold;
use crate::rate::{
    at_rate, beat_text, kind_of, last_digits, moved_end, moved_lines, moved_time, origin_from,
    section_before, ticks_text, time_text, usable, whole_text, without_zeros,
};
use crate::text::{begins_with, split, trimmed};
use crate::types::Ratio;
use vstd::arithmetic::power::{lemma_pow_adds, pow};
use vstd::prelude::*;

verus! {

/// Whether the last line before line `i` that starts with a bracket is this
/// header.
pub open spec fn in_section(lines: Seq<Seq<char>>, i: int, header: Seq<char>) -> bool {
    exists|j: int|
        0 <= j < i && begins_with(trimmed(#[trigger] lines[j]), "["@) && trimmed(lines[j]) == header
            && forall|k: int| j < k < i ==> !begins_with(trimmed(#[trigger] lines[k]), "["@)
}

proof fn lemma_in_section(lines: Seq<Seq<char>>, n: int, header: Seq<char>)
    requires
        0 <= n <= lines.len(),
        header.len() > 0,
    ensures
        in_section(lines, n, header) <==> section_before(lines, n) == header,
    decreases n,
{
    if n > 0 {
        lemma_in_section(lines, n - 1, header);
        if begins_with(trimmed(lines[n - 1]), "["@) {
            if in_section(lines, n, header) {
                let j = choose|j: int|
                    0 <= j < n && begins_with(trimmed(#[trigger] lines[j]), "["@) && trimmed(
                        lines[j],
                    ) == header && forall|k: int|
                        j < k < n ==> !begins_with(trimmed(#[trigger] lines[k]), "["@);
                assert(j == n - 1);
            }
        } else {
            if in_section(lines, n, header) {
                let j = choose|j: int|
                    0 <= j < n && begins_with(trimmed(#[trigger] lines[j]), "["@) && trimmed(
                        lines[j],
                    ) == header && forall|k: int|
                        j < k < n ==> !begins_with(trimmed(#[trigger] lines[k]), "["@);
                assert(j < n - 1);
                assert(begins_with(trimmed(lines[j]), "["@));
            }
            if in_section(lines, n - 1, header) {
                let j = choose|j: int|
                    0 <= j < n - 1 && begins_with(trimmed(#[trigger] lines[j]), "["@) && trimmed(
                        lines[j],
                    ) == header && forall|k: int|
                        j < k < n - 1 ==> !begins_with(trimmed(#[trigger] lines[k]), "["@);
                assert(begins_with(trimmed(lines[j]), "["@));
            }
        }
    } else {
        assert(section_before(lines, n) == Seq::<char>::empty());
    }
}

/// Whether a line says something: it is neither empty nor a comment, and does
/// not start with a bracket.
pub open spec fn is_entry(line: Seq<char>) -> bool {
    let t = trimmed(line);
    t.len() > 0 && !begins_with(t, "["@) && !begins_with(t, "//"@)
}

/// Whether a text is the whole number of milliseconds, rounded down, that a time
/// lies behind the first note at a clock rate, and a second more.
pub open spec fn is_moved_time(old: Seq<char>, new: Seq<char>, origin: int, rate: Ratio) -> bool {
    decimal(trimmed(old)) matches Some(Number::Ticks(t)) ==> (signed_value(new) matches Some(v) && {
        let unit = rate.num * 1_000_000_000_000;
        (v - 1000) * unit <= (t - origin) * rate.den < (v - 999) * unit
    })
}

proof fn lemma_whole_text(v: int)
    ensures
        signed_value(whole_text(v)) == Some(v),
        lacks(whole_text(v), ','),
        lacks(whole_text(v), ':'),
{
    let n = if v >= 0 {
        v as nat
    } else {
        (-v) as nat
    };
    law_decimal_text_reads_back(n);
    let s = decimal_text(n);
    assert(is_digit(s[0]));
    assert(digits_value(s) == n);
    law_whole_numbers_are_read(s, 0);
    assert forall|i: int| 0 <= i < s.len() implies #[trigger] s[i] != ',' && s[i] != ':' by {
        assert(is_digit(s[i]));
    }
}

proof fn lemma_moved_time(s: Seq<char>, origin: int, rate: Ratio)
    requires
        usable(rate),
    ensures
        is_moved_time(s, time_text(s, origin, rate), origin, rate),
        lacks(time_text(s, origin, rate), ','),
        lacks(time_text(s, origin, rate), ':'),
{
    reveal_strlit("-inf");
    reveal_strlit("inf");
    reveal_strlit("NaN");
    if let Some(Number::Ticks(t)) = decimal(trimmed(s)) {
        let v = moved_time(t as int, origin, rate);
        lemma_whole_text(v);
        let unit = rate.num * TICKS;
        let x = (t - origin) * rate.den;
        assert(unit > 0) by (nonlinear_arith)
            requires
                unit == rate.num * TICKS,
                rate.num > 0,
                TICKS > 0,
        ;
        assert((x / unit) * unit <= x < (x / unit + 1) * unit) by (nonlinear_arith)
            requires
                unit > 0,
        ;
    }
}

/// Whether a line is the one of a file moved to a clock rate: a note has its time
/// moved, and a hold its end, a timing point its time and its beat, a break its
/// two times. All other parts, and all other lines, are as they were.
pub open spec fn is_moved(
    lines: Seq<Seq<char>>,
    i: int,
    new: Seq<char>,
    origin: int,
    rate: Ratio,
) -> bool {
    let old = lines[i];
    let (a, b) = (split(old, ','), split(new, ','));
    let note = is_entry(old) && in_section(lines, i, "[HitObjects]"@) && a.len() >= 5;
    let point = is_entry(old) && in_section(lines, i, "[TimingPoints]"@) && a.len() >= 2;
    let pause = is_entry(old) && in_section(lines, i, "[Events]"@) && a.len() >= 3 && (trimmed(a[0])
        == "2"@ || trimmed(a[0]) == "Break"@);
    let hold = note && is_hold(kind_of(a[3])) && a.len() >= 6 && a[5].len() > 0;
    &&& b.len() == a.len()
    &&& !note && !point && !pause ==> new == old
    &&& note ==> is_moved_time(a[2], b[2], origin, rate) && forall|k: int|
        0 <= k < a.len() && k != 2 && !(hold && k == 5) ==> #[trigger] b[k] == a[k]
    &&& hold ==> is_moved_end(a[5], b[5], origin, rate)
    &&& point ==> is_moved_time(a[0], b[0], origin, rate) && is_moved_beat(a[1], b[1], rate)
        && forall|k: int| 2 <= k < a.len() ==> #[trigger] b[k] == a[k]
    &&& pause ==> is_moved_time(a[1], b[1], origin, rate) && is_moved_time(
        a[2],
        b[2],
        origin,
        rate,
    ) && b[0] == a[0] && forall|k: int| 3 <= k < a.len() ==> #[trigger] b[k] == a[k]
}

proof fn lemma_moved_line(lines: Seq<Seq<char>>, i: int, origin: int, rate: Ratio)
    requires
        usable(rate),
        0 <= i < lines.len(),
    ensures
        is_moved(lines, i, moved_lines(lines, origin, rate)[i], origin, rate),
{
    let old = lines[i];
    let a = split(old, ',');
    reveal_strlit("[HitObjects]");
    reveal_strlit("[TimingPoints]");
    reveal_strlit("[Events]");
    lemma_in_section(lines, i, "[HitObjects]"@);
    lemma_in_section(lines, i, "[TimingPoints]"@);
    lemma_in_section(lines, i, "[Events]"@);
    assert("[HitObjects]"@.len() == 12 && "[TimingPoints]"@.len() == 14 && "[Events]"@.len() == 8);
    law_split_joins_back(old, ',');
    if is_entry(old) && in_section(lines, i, "[HitObjects]"@) && a.len() >= 5 {
        let timed = a.update(2, time_text(a[2], origin, rate));
        lemma_moved_time(a[2], origin, rate);
        if is_hold(kind_of(a[3])) && a.len() >= 6 && a[5].len() > 0 {
            lemma_moved_end(a[5], origin, rate);
            let ended = timed.update(5, moved_end(a[5], origin, rate));
            assert forall|k: int| 0 <= k < ended.len() implies lacks(#[trigger] ended[k], ',') by {
                assert(lacks(a[k], ','));
            }
            law_joined_splits_back(ended, ',');
        } else {
            assert forall|k: int| 0 <= k < timed.len() implies lacks(#[trigger] timed[k], ',') by {
                assert(lacks(a[k], ','));
            }
            law_joined_splits_back(timed, ',');
        }
    }
    if is_entry(old) && in_section(lines, i, "[TimingPoints]"@) && a.len() >= 2 {
        let timed = a.update(0, time_text(a[0], origin, rate)).update(1, beat_text(a[1], rate));
        lemma_moved_time(a[0], origin, rate);
        lemma_moved_beat(a[1], rate);
        assert forall|k: int| 0 <= k < timed.len() implies lacks(#[trigger] timed[k], ',') by {
            assert(lacks(a[k], ','));
        }
        law_joined_splits_back(timed, ',');
    }
    if is_entry(old) && in_section(lines, i, "[Events]"@) && a.len() >= 3 {
        let timed = a.update(1, time_text(a[1], origin, rate)).update(
            2,
            time_text(a[2], origin, rate),
        );
        lemma_moved_time(a[1], origin, rate);
        lemma_moved_time(a[2], origin, rate);
        assert forall|k: int| 0 <= k < timed.len() implies lacks(#[trigger] timed[k], ',') by {
            assert(lacks(a[k], ','));
        }
        law_joined_splits_back(timed, ',');
    }
}

/// Whether the extras of a hold have their first part moved, and the others as
/// they were.
pub open spec fn is_moved_end(old: Seq<char>, new: Seq<char>, origin: int, rate: Ratio) -> bool {
    let (a, b) = (split(old, ':'), split(new, ':'));
    &&& b.len() == a.len()
    &&& is_moved_time(a[0], b[0], origin, rate)
    &&& forall|k: int| 1 <= k < a.len() ==> #[trigger] b[k] == a[k]
}

proof fn lemma_moved_end(s: Seq<char>, origin: int, rate: Ratio)
    requires
        usable(rate),
    ensures
        is_moved_end(s, moved_end(s, origin, rate), origin, rate),
        lacks(s, ',') ==> lacks(moved_end(s, origin, rate), ','),
{
    let a = split(s, ':');
    law_split_joins_back(s, ':');
    lemma_moved_time(a[0], origin, rate);
    let b = a.update(0, time_text(a[0], origin, rate));
    assert forall|k: int| 0 <= k < b.len() implies lacks(#[trigger] b[k], ':') by {
        assert(lacks(a[k], ':'));
    }
    law_joined_splits_back(b, ':');
    if lacks(s, ',') {
        crate::moving::lemma_pieces_lack(s, ':', ',');
        assert forall|k: int| 0 <= k < b.len() implies lacks(#[trigger] b[k], ',') by {
            assert(lacks(a[k], ','));
        }
        crate::moving::lemma_joined_lacks(b, ':', ',');
    }
}

/// Whether a positive beat is scaled by a clock rate, rounded down to the tick;
/// any other number stays as it was written.
pub open spec fn is_moved_beat(old: Seq<char>, new: Seq<char>, rate: Ratio) -> bool {
    match decimal(trimmed(old)) {
        Some(Number::Ticks(t)) => if t > 0 {
            exists|u: int| #[trigger]
                is_written(new, u) && u * rate.num <= t * rate.den < (u + 1) * rate.num
        } else {
            new == old
        },
        Some(Number::Infinite(false)) => true,
        _ => new == old,
    }
}

/// Whether a text is so many ticks, written as a decimal number. It reads back
/// as them, where they are within range.
pub open spec fn is_written(s: Seq<char>, u: int) -> bool {
    u >= 0 && (u < 10_000_000_000_000_000_000_000_000_000 ==> decimal(s) == Some(
        Number::Ticks(u as i128),
    ))
}

proof fn lemma_moved_beat(s: Seq<char>, rate: Ratio)
    requires
        usable(rate),
        lacks(s, ','),
    ensures
        is_moved_beat(s, beat_text(s, rate), rate),
        lacks(beat_text(s, rate), ','),
{
    reveal_strlit("inf");
    if let Some(Number::Ticks(t)) = decimal(trimmed(s)) {
        if t > 0 {
            let (x, n) = (t * rate.den, rate.num as int);
            let u = x / n;
            assert(u >= 0 && u * n <= x < (u + 1) * n) by (nonlinear_arith)
                requires
                    u == x / n,
                    n > 0,
                    x >= 0,
            ;
            assert(x >= 0) by (nonlinear_arith)
                requires
                    x == t * rate.den,
                    t > 0,
                    rate.den > 0,
            ;
            crate::moving::lemma_ticks_text_lacks(u as nat, ',');
            if u < 10_000_000_000_000_000_000_000_000_000 {
                law_written_ticks_are_read(u as nat);
            }
            assert(is_written(beat_text(s, rate), u));
        }
    }
}

proof fn lemma_last_digits(v: nat, n: nat)
    ensures
        last_digits(v, n).len() == n,
        all_digits(last_digits(v, n)),
        v < pow(10, n) ==> digits_value(last_digits(v, n)) == v,
    decreases n,
{
    if n > 0 {
        let m = (n - 1) as nat;
        lemma_last_digits(v / 10, m);
        let s = last_digits(v, n);
        let front = last_digits(v / 10, m);
        assert(s.drop_last() =~= front);
        vstd::arithmetic::power::lemma_pow1(10);
        lemma_pow_adds(10, m, 1);
        assert forall|i: int| 0 <= i < s.len() implies is_digit(#[trigger] s[i]) by {
            if i < m {
                assert(s[i] == front[i]);
            }
        }
    } else {
        vstd::arithmetic::power::lemma_pow0(10);
    }
}

proof fn lemma_without_zeros(s: Seq<char>)
    requires
        all_digits(s),
    ensures
        ({
            let w = without_zeros(s);
            &&& w.len() <= s.len()
            &&& all_digits(w)
            &&& digits_value(w) * pow(10, (s.len() - w.len()) as nat) == digits_value(s)
        }),
    decreases s.len(),
{
    if s.len() > 0 && s.last() == '0' {
        let front = s.drop_last();
        assert forall|i: int| 0 <= i < front.len() implies is_digit(#[trigger] front[i]) by {
            assert(front[i] == s[i]);
        }
        lemma_without_zeros(front);
        let w = without_zeros(front);
        let k = (front.len() - w.len()) as nat;
        vstd::arithmetic::power::lemma_pow1(10);
        lemma_pow_adds(10, k, 1);
        let (x, p) = (digits_value(w) as int, pow(10, k));
        assert((x * p) * 10 == x * (p * 10)) by (nonlinear_arith);
    } else {
        vstd::arithmetic::power::lemma_pow0(10);
    }
}

/// Ticks that are written as a decimal number read back as the same.
pub proof fn law_written_ticks_are_read(t: nat)
    requires
        t < 10_000_000_000_000_000_000_000_000_000,
    ensures
        decimal(ticks_text(t)) == Some(Number::Ticks(t as i128)),
{
    let unit = TICKS as nat;
    let (whole, rest) = (t / unit, t % unit);
    assert(unit == 1_000_000_000_000);
    assert(whole < 10_000_000_000_000_000) by {
        assert(t / 1_000_000_000_000nat < 10_000_000_000_000_000);
    }
    assert(pow(10, 12) == 1_000_000_000_000) by {
        reveal_with_fuel(pow, 13);
    }
    lemma_last_digits(rest, 12);
    let all = last_digits(rest, 12);
    lemma_without_zeros(all);
    let part = without_zeros(all);
    law_decimal_text_reads_back(whole);
    let s = decimal_text(whole);
    assert(is_digit(s[0]));
    assert(digits_value(s) == whole);
    law_decimals_are_read(s, part);
    if part.len() == 0 {
        assert(digits_value(part) == 0);
        law_decimals_are_read(s, Seq::empty());
    } else {
        assert(s.push('.') + part =~= s + seq!['.'] + part);
    }
}

/// A file at another clock rate has its notes, timing points and breaks moved,
/// line by line: their times count milliseconds from the first note, which comes
/// after a second, and beats are scaled. Everything else stays as it was written.
pub proof fn law_rate_moves_lines(text: Seq<char>, rate: Ratio, i: int)
    requires
        usable(rate),
        rate.num != rate.den,
        0 <= i < split(text, '\n').len(),
    ensures
        at_rate(text, rate) matches Ok(moved) ==> (origin_from(
            split(text, '\n'),
            0,
        ) matches Some(origin) && is_moved(
            split(text, '\n'),
            i,
            split(moved, '\n')[i],
            origin as int,
            rate,
        )),
{
    if at_rate(text, rate) is Ok {
        crate::moving::law_rate_keeps_lines(text, rate);
        let lines = split(text, '\n');
        let origin = origin_from(lines, 0)->0 as int;
        lemma_moved_line(lines, i, origin, rate);
    }
}

} // verus!
