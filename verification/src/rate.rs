//! Bringing the text of a beatmap file to a clock rate.

use crate::number::{
    decimal, decimal_text, floor_div, is_digit, parse_decimal, parse_signed, signed_value,
    write_large, Number, LIMIT, TICKS,
};
use crate::parser::is_hold;
use crate::text::{
    begins_with, is_word, split, split_on, starts_with, string_of, texts, to_chars, trim, trim_start,
    trimmed, trimmed_start,
};
use crate::types::Ratio;
use vstd::prelude::*;
use vstd::slice::slice_to_vec;

verus! {

/// Pieces with a separator between them.
pub open spec fn joined(parts: Seq<Seq<char>>, sep: char) -> Seq<char>
    decreases parts.len(),
{
    if parts.len() == 0 {
        Seq::empty()
    } else if parts.len() == 1 {
        parts[0]
    } else {
        joined(parts.drop_last(), sep).push(sep) + parts.last()
    }
}

/// Pieces as texts.
pub open spec fn pieces(v: Seq<Vec<char>>) -> Seq<Seq<char>> {
    v.map_values(|p: Vec<char>| p@)
}

/// Joins pieces with a separator between them.
pub fn join(parts: &[Vec<char>], sep: char) -> (r: Vec<char>)
    ensures
        r@ == joined(pieces(parts@), sep),
{
    let ghost all = pieces(parts@);
    let mut out: Vec<char> = Vec::new();
    let mut n: usize = 0;
    assert(all.take(0) =~= Seq::<Seq<char>>::empty());
    assert(out@ =~= joined(all.take(0), sep));
    while n < parts.len()
        invariant
            n <= parts@.len(),
            all == pieces(parts@),
            out@ == joined(all.take(n as int), sep),
        decreases parts@.len() - n,
    {
        proof {
            assert(all.take(n + 1).drop_last() =~= all.take(n as int));
            assert(all.take(n + 1).last() == parts@[n as int]@);
        }
        let ghost before = out@;
        if n > 0 {
            out.push(sep);
        }
        let ghost led = out@;
        let mut k: usize = 0;
        assert(parts@[n as int]@.take(0) =~= Seq::<char>::empty());
        assert(led + Seq::<char>::empty() =~= led);
        while k < parts[n].len()
            invariant
                n < parts@.len(),
                k <= parts@[n as int]@.len(),
                out@ == led + parts@[n as int]@.take(k as int),
            decreases parts@[n as int]@.len() - k,
        {
            let c = parts[n][k];
            out.push(c);
            k = k + 1;
            assert(out@ =~= led + parts@[n as int]@.take(k as int));
        }
        assert(parts@[n as int]@.take(k as int) =~= parts@[n as int]@);
        if n == 0 {
            assert(out@ =~= parts@[0]@);
        }
        n = n + 1;
    }
    assert(all.take(n as int) =~= all);
    out
}

/// How many ASCII digits a text starts with.
pub open spec fn digit_run(s: Seq<char>) -> int
    decreases s.len(),
{
    if s.len() > 0 && is_digit(s[0]) {
        1 + digit_run(s.skip(1))
    } else {
        0
    }
}

/// Whether a line starts with a number and a comma.
pub open spec fn is_numbered(line: Seq<char>) -> bool {
    let s = trimmed_start(line);
    let n = digit_run(s);
    n > 0 && n < s.len() && s[n] == ','
}

/// Whether a line starts with a number and a comma.
pub fn line_starts_with_number(line: &[char]) -> (r: bool)
    ensures
        r == is_numbered(line@),
{
    let s = trim_start(line);
    let mut n: usize = 0;
    assert(s@.skip(0) =~= s@);
    while n < s.len() && '0' <= s[n] && s[n] <= '9'
        invariant
            n <= s@.len(),
            digit_run(s@) == n + digit_run(s@.skip(n as int)),
        decreases s@.len() - n,
    {
        assert(s@.skip(n as int)[0] == s@[n as int]);
        assert(s@.skip(n as int).skip(1) =~= s@.skip(n + 1));
        n = n + 1;
    }
    if n < s.len() {
        assert(s@.skip(n as int)[0] == s@[n as int]);
    }
    n > 0 && n < s.len() && s[n] == ','
}

/// The section that lines before line `n` leave open: the last line that
/// starts with a bracket, trimmed.
pub open spec fn section_before(lines: Seq<Seq<char>>, n: int) -> Seq<char>
    decreases n,
{
    if n <= 0 {
        Seq::empty()
    } else {
        let line = trimmed(lines[n - 1]);
        if begins_with(line, "["@) {
            line
        } else {
            section_before(lines, n - 1)
        }
    }
}

/// Whether line `i` is a note that starts with a number.
pub open spec fn is_note_line(lines: Seq<Seq<char>>, i: int) -> bool {
    !begins_with(trimmed(lines[i]), "["@) && section_before(lines, i) == "[HitObjects]"@
        && is_numbered(lines[i])
}

/// The time of the first note from line `i` on, in ticks, where it is a finite
/// number.
pub open spec fn origin_from(lines: Seq<Seq<char>>, i: int) -> Option<i128>
    decreases lines.len() - i,
{
    if i < 0 || i >= lines.len() {
        None
    } else if is_note_line(lines, i) {
        let parts = split(lines[i], ',');
        if parts.len() > 2 {
            match decimal(trimmed(parts[2])) {
                Some(Number::Ticks(t)) => Some(t),
                _ => None,
            }
        } else {
            None
        }
    } else {
        origin_from(lines, i + 1)
    }
}

/// A whole number as text.
pub open spec fn whole_text(v: int) -> Seq<char> {
    if v >= 0 {
        decimal_text(v as nat)
    } else {
        seq!['-'] + decimal_text((-v) as nat)
    }
}

/// A text without the zeros at its end.
pub open spec fn without_zeros(s: Seq<char>) -> Seq<char>
    decreases s.len(),
{
    if s.len() > 0 && s.last() == '0' {
        without_zeros(s.drop_last())
    } else {
        s
    }
}

/// The last `n` digits of a number.
pub open spec fn last_digits(v: nat, n: nat) -> Seq<char>
    decreases n,
{
    if n == 0 {
        Seq::empty()
    } else {
        last_digits(v / 10, (n - 1) as nat).push(('0' as int + v % 10) as char)
    }
}

/// A count of ticks as a decimal number.
pub open spec fn ticks_text(t: nat) -> Seq<char> {
    let unit = TICKS as nat;
    let part = without_zeros(last_digits(t % unit, 12));
    if part.len() == 0 {
        decimal_text(t / unit)
    } else {
        decimal_text(t / unit).push('.') + part
    }
}

/// A time of the file at a clock rate, counted from the first note, which comes
/// after a second; rounded down.
pub open spec fn moved_time(t: int, origin: int, rate: Ratio) -> int {
    (t - origin) * rate.den / (rate.num * TICKS) + 1000
}

/// The text of a time at a clock rate.
pub open spec fn time_text(s: Seq<char>, origin: int, rate: Ratio) -> Seq<char> {
    match decimal(trimmed(s)) {
        Some(Number::Ticks(t)) => whole_text(moved_time(t as int, origin, rate)),
        Some(Number::Infinite(negative)) => if negative {
            "-inf"@
        } else {
            "inf"@
        },
        _ => "NaN"@,
    }
}

/// The text of a beat length at a clock rate, to the tick; only positive ones
/// change.
pub open spec fn beat_text(s: Seq<char>, rate: Ratio) -> Seq<char> {
    match decimal(trimmed(s)) {
        Some(Number::Ticks(t)) if t > 0 => ticks_text((t * rate.den / rate.num as int) as nat),
        Some(Number::Infinite(false)) => "inf"@,
        _ => s,
    }
}

/// The kind of a note, as a number.
pub open spec fn kind_of(s: Seq<char>) -> int {
    match signed_value(trimmed(s)) {
        Some(v) if i64::MIN <= v <= i64::MAX => v,
        _ => 0,
    }
}

/// The extras of a hold, with its end at a clock rate.
pub open spec fn moved_end(s: Seq<char>, origin: int, rate: Ratio) -> Seq<char> {
    let parts = split(s, ':');
    joined(parts.update(0, time_text(parts[0], origin, rate)), ':')
}

/// A line at a clock rate.
pub open spec fn moved_line(
    section: Seq<char>,
    line: Seq<char>,
    origin: int,
    rate: Ratio,
) -> Seq<char> {
    let t = trimmed(line);
    let parts = split(line, ',');
    if begins_with(t, "["@) || t.len() == 0 || begins_with(t, "//"@) {
        line
    } else if section == "[HitObjects]"@ && parts.len() >= 5 {
        let timed = parts.update(2, time_text(parts[2], origin, rate));
        if is_hold(kind_of(parts[3])) && parts.len() >= 6 && parts[5].len() > 0 {
            joined(timed.update(5, moved_end(parts[5], origin, rate)), ',')
        } else {
            joined(timed, ',')
        }
    } else if section == "[TimingPoints]"@ && parts.len() >= 2 {
        joined(
            parts.update(0, time_text(parts[0], origin, rate)).update(1, beat_text(parts[1], rate)),
            ',',
        )
    } else if section == "[Events]"@ && parts.len() >= 3 && (trimmed(parts[0]) == "2"@ || trimmed(
        parts[0],
    ) == "Break"@) {
        joined(
            parts.update(1, time_text(parts[1], origin, rate)).update(
                2,
                time_text(parts[2], origin, rate),
            ),
            ',',
        )
    } else {
        line
    }
}

/// All lines at a clock rate.
pub open spec fn moved_lines(lines: Seq<Seq<char>>, origin: int, rate: Ratio) -> Seq<Seq<char>> {
    Seq::new(
        lines.len(),
        |i: int| moved_line(section_before(lines, i), lines[i], origin, rate),
    )
}

/// Why a file cannot be brought to a clock rate.
#[derive(Clone, Copy, Debug, PartialEq, Eq, Structural)]
pub enum RateError {
    /// The clock rate is not positive.
    InvalidRate,
    /// There is no first note to count from, or its time is no finite number.
    NoHitObjects,
}

/// The largest parts of a clock rate that is written as a quotient.
pub const RATE_LIMIT: i128 = 1_000_000_000;

/// Whether a clock rate is positive.
pub open spec fn usable(rate: Ratio) -> bool {
    rate.num > 0 && rate.den > 0
}

/// The text of a file at a clock rate.
pub open spec fn at_rate(text: Seq<char>, rate: Ratio) -> Result<Seq<char>, RateError> {
    if !usable(rate) {
        Err(RateError::InvalidRate)
    } else if rate.num == rate.den {
        Ok(text)
    } else {
        let lines = split(text, '\n');
        match origin_from(lines, 0) {
            Some(origin) => Ok(joined(moved_lines(lines, origin as int, rate), '\n')),
            None => Err(RateError::NoHitObjects),
        }
    }
}

fn literal(s: &str) -> (r: Vec<char>)
    ensures
        r@ == s@,
{
    to_chars(s)
}

/// Writes a whole number.
pub fn write_whole(v: i128) -> (r: Vec<char>)
    requires
        v > i128::MIN,
    ensures
        r@ == whole_text(v as int),
{
    if v >= 0 {
        return write_large(v as u128);
    }
    let digits = write_large((-v) as u128);
    let mut out: Vec<char> = Vec::new();
    out.push('-');
    let mut n: usize = 0;
    let ghost led = out@;
    assert(led =~= seq!['-']);
    assert(led + digits@.take(0) =~= led);
    while n < digits.len()
        invariant
            n <= digits@.len(),
            out@ == led + digits@.take(n as int),
        decreases digits@.len() - n,
    {
        out.push(digits[n]);
        n = n + 1;
        assert(out@ =~= led + digits@.take(n as int));
    }
    assert(digits@.take(n as int) =~= digits@);
    out
}

proof fn lemma_last_digits(v: nat, n: nat)
    ensures
        last_digits(v, n).len() == n,
    decreases n,
{
    if n > 0 {
        lemma_last_digits(v / 10, (n - 1) as nat);
    }
}

fn write_last_digits(v: u64, n: usize) -> (r: Vec<char>)
    ensures
        r@ == last_digits(v as nat, n as nat),
    decreases n,
{
    if n == 0 {
        let r: Vec<char> = Vec::new();
        assert(r@ =~= last_digits(v as nat, 0));
        r
    } else {
        let mut r = write_last_digits(v / 10, n - 1);
        let d: u8 = 48 + (v % 10) as u8;
        r.push(d as char);
        r
    }
}

fn write_ticks(t: i128) -> (r: Vec<char>)
    requires
        0 <= t,
    ensures
        r@ == ticks_text(t as nat),
{
    let whole: u128 = (t / TICKS) as u128;
    let rest: u64 = (t % TICKS) as u64;
    let mut part = write_last_digits(rest, 12);
    while part.len() > 0 && part[part.len() - 1] == '0'
        invariant
            without_zeros(part@) == without_zeros(last_digits(rest as nat, 12)),
        decreases part@.len(),
    {
        let ghost before = part@;
        let _ = part.pop();
        assert(part@ =~= before.drop_last());
    }
    let mut out = write_large(whole);
    if part.len() == 0 {
        return out;
    }
    out.push('.');
    let ghost led = out@;
    let mut n: usize = 0;
    assert(led + part@.take(0) =~= led);
    while n < part.len()
        invariant
            n <= part@.len(),
            out@ == led + part@.take(n as int),
        decreases part@.len() - n,
    {
        out.push(part[n]);
        n = n + 1;
        assert(out@ =~= led + part@.take(n as int));
    }
    assert(part@.take(n as int) =~= part@);
    out
}

/// Whether a clock rate is positive and its parts are within the limit.
pub open spec fn rate_fits(rate: Ratio) -> bool {
    0 < rate.num <= RATE_LIMIT && 0 < rate.den <= RATE_LIMIT
}

proof fn lemma_product_fits(a: int, limit: int, b: int)
    requires
        -limit <= a <= limit,
        0 < b <= RATE_LIMIT,
    ensures
        -limit * RATE_LIMIT <= a * b <= limit * RATE_LIMIT,
{
    let c = RATE_LIMIT as int;
    assert(-limit * c <= a * b <= limit * c) by (nonlinear_arith)
        requires
            -limit <= a <= limit,
            0 < b <= c,
    ;
}

fn write_time(s: &[char], origin: i128, rate: Ratio) -> (r: Vec<char>)
    requires
        -LIMIT <= origin <= LIMIT,
        rate_fits(rate),
    ensures
        r@ == time_text(s@, origin as int, rate),
{
    match parse_decimal(trim(s)) {
        Some(Number::Ticks(t)) => {
            proof {
                lemma_product_fits(t - origin, 2 * LIMIT, rate.den as int);
            }
            let d: i128 = rate.num * TICKS;
            let n: i128 = (t - origin) * rate.den;
            let v: i128 = floor_div(n, d);
            proof {
                let (a, b, c) = (n as int, d as int, 2 * LIMIT * RATE_LIMIT);
                assert(-c <= a / b <= c) by (nonlinear_arith)
                    requires
                        -c <= a <= c,
                        b >= 1,
                ;
            }
            write_whole(v + 1000)
        },
        Some(Number::Infinite(negative)) => if negative {
            literal("-inf")
        } else {
            literal("inf")
        },
        _ => literal("NaN"),
    }
}

fn write_beat(s: &[char], rate: Ratio) -> (r: Vec<char>)
    requires
        rate_fits(rate),
    ensures
        r@ == beat_text(s@, rate),
{
    match parse_decimal(trim(s)) {
        Some(Number::Ticks(t)) => {
            if t <= 0 {
                return slice_to_vec(s);
            }
            proof {
                lemma_product_fits(t as int, LIMIT as int, rate.den as int);
            }
            let n: i128 = t * rate.den;
            proof {
                let (a, b) = (t as int, rate.den as int);
                assert(a * b >= 0) by (nonlinear_arith)
                    requires
                        a >= 0,
                        b >= 0,
                ;
                let (a, b) = (n as int, rate.num as int);
                assert(0 <= a / b <= a) by (nonlinear_arith)
                    requires
                        a >= 0,
                        b >= 1,
                ;
            }
            write_ticks(n / rate.num)
        },
        Some(Number::Infinite(negative)) => if negative {
            slice_to_vec(s)
        } else {
            literal("inf")
        },
        _ => slice_to_vec(s),
    }
}

fn own_pieces(parts: &[&[char]]) -> (r: Vec<Vec<char>>)
    ensures
        pieces(r@) == texts(parts@),
        r@.len() == parts@.len(),
{
    let mut out: Vec<Vec<char>> = Vec::new();
    let mut n: usize = 0;
    while n < parts.len()
        invariant
            n <= parts@.len(),
            out@.len() == n,
            forall|i: int| 0 <= i < n ==> (#[trigger] out@[i])@ == parts@[i]@,
        decreases parts@.len() - n,
    {
        out.push(slice_to_vec(parts[n]));
        n = n + 1;
    }
    assert(pieces(out@) =~= texts(parts@));
    out
}

fn replace(v: &mut Vec<Vec<char>>, i: usize, piece: Vec<char>)
    requires
        i < old(v)@.len(),
    ensures
        pieces(final(v)@) == pieces(old(v)@).update(i as int, piece@),
        final(v)@.len() == old(v)@.len(),
{
    let ghost before = pieces(v@);
    v.set(i, piece);
    assert(pieces(v@) =~= before.update(i as int, piece@));
}

fn write_end(s: &[char], origin: i128, rate: Ratio) -> (r: Vec<char>)
    requires
        -LIMIT <= origin <= LIMIT,
        rate_fits(rate),
    ensures
        r@ == moved_end(s@, origin as int, rate),
{
    let parts = split_on(s, ':');
    assert(texts(parts@)[0] == parts@[0]@);
    let mut own = own_pieces(parts.as_slice());
    let first = write_time(parts[0], origin, rate);
    replace(&mut own, 0, first);
    join(own.as_slice(), ':')
}

/// The sections in which times stand.
#[derive(Clone, Copy, Debug, PartialEq, Eq, Structural)]
enum Timed {
    Objects,
    Points,
    Events,
    Other,
}

spec fn timed_section(section: Seq<char>) -> Timed {
    if section == "[HitObjects]"@ {
        Timed::Objects
    } else if section == "[TimingPoints]"@ {
        Timed::Points
    } else if section == "[Events]"@ {
        Timed::Events
    } else {
        Timed::Other
    }
}

fn section_kind(line: &[char]) -> (r: Timed)
    ensures
        r == timed_section(line@),
{
    if is_word(line, "[HitObjects]") {
        Timed::Objects
    } else if is_word(line, "[TimingPoints]") {
        Timed::Points
    } else if is_word(line, "[Events]") {
        Timed::Events
    } else {
        Timed::Other
    }
}

proof fn lemma_section_names()
    ensures
        "[HitObjects]"@ != "[TimingPoints]"@,
        "[HitObjects]"@ != "[Events]"@,
        "[TimingPoints]"@ != "[Events]"@,
        timed_section(Seq::empty()) == Timed::Other,
{
    reveal_strlit("[HitObjects]");
    reveal_strlit("[TimingPoints]");
    reveal_strlit("[Events]");
    assert("[HitObjects]"@.len() == 12);
    assert("[TimingPoints]"@.len() == 14);
    assert("[Events]"@.len() == 8);
}

fn write_line(
    kind: Timed,
    line: &[char],
    origin: i128,
    rate: Ratio,
    Ghost(section): Ghost<Seq<char>>,
) -> (r: Vec<char>)
    requires
        -LIMIT <= origin <= LIMIT,
        rate_fits(rate),
        kind == timed_section(section),
    ensures
        r@ == moved_line(section, line@, origin as int, rate),
{
    proof {
        lemma_section_names();
    }
    let t = trim(line);
    if starts_with(t, "[") || t.len() == 0 || starts_with(t, "//") {
        return slice_to_vec(line);
    }
    let parts = split_on(line, ',');
    let ghost all = split(line@, ',');
    assert(all.len() == parts@.len());
    if kind == Timed::Objects && parts.len() >= 5 {
        assert(all[2] == parts@[2]@);
        assert(all[3] == parts@[3]@);
        let mut own = own_pieces(parts.as_slice());
        replace(&mut own, 2, write_time(parts[2], origin, rate));
        let number: i64 = match parse_signed(trim(parts[3])) {
            Some(v) => v,
            None => 0,
        };
        if crate::parser::holds(number) && parts.len() >= 6 {
            assert(all[5] == parts@[5]@);
            if parts[5].len() > 0 {
                replace(&mut own, 5, write_end(parts[5], origin, rate));
            }
        }
        return join(own.as_slice(), ',');
    }
    if kind == Timed::Points && parts.len() >= 2 {
        assert(all[0] == parts@[0]@);
        assert(all[1] == parts@[1]@);
        let mut own = own_pieces(parts.as_slice());
        replace(&mut own, 0, write_time(parts[0], origin, rate));
        replace(&mut own, 1, write_beat(parts[1], rate));
        return join(own.as_slice(), ',');
    }
    if kind == Timed::Events && parts.len() >= 3 {
        assert(all[0] == parts@[0]@);
        assert(all[1] == parts@[1]@);
        assert(all[2] == parts@[2]@);
        let name = trim(parts[0]);
        if is_word(name, "2") || is_word(name, "Break") {
            let mut own = own_pieces(parts.as_slice());
            replace(&mut own, 1, write_time(parts[1], origin, rate));
            replace(&mut own, 2, write_time(parts[2], origin, rate));
            return join(own.as_slice(), ',');
        }
    }
    slice_to_vec(line)
}

/// The time of the first note, in ticks.
fn find_origin(lines: &[&[char]]) -> (r: Option<i128>)
    ensures
        r == origin_from(texts(lines@), 0),
        r matches Some(t) ==> -LIMIT <= t <= LIMIT,
{
    let ghost all = texts(lines@);
    let mut kind = Timed::Other;
    let mut n: usize = 0;
    proof {
        lemma_section_names();
    }
    while n < lines.len()
        invariant
            n <= lines@.len(),
            all == texts(lines@),
            kind == timed_section(section_before(all, n as int)),
            origin_from(all, 0) == origin_from(all, n as int),
        decreases lines@.len() - n,
    {
        let line = lines[n];
        proof {
            assert(all[n as int] == line@);
            lemma_section_names();
        }
        let t = trim(line);
        if starts_with(t, "[") {
            kind = section_kind(t);
        } else if kind == Timed::Objects && line_starts_with_number(line) {
            assert(is_note_line(all, n as int));
            let parts = split_on(line, ',');
            let ghost cut = split(line@, ',');
            assert(cut.len() == parts@.len());
            if parts.len() > 2 {
                assert(cut[2] == parts@[2]@);
                if let Some(Number::Ticks(t)) = parse_decimal(trim(parts[2])) {
                    return Some(t);
                }
            }
            return None;
        }
        n = n + 1;
    }
    None
}

/// Brings the characters of a file to a clock rate.
pub(crate) fn change_rate(text: &[char], rate: Ratio) -> (r: Result<Vec<char>, RateError>)
    requires
        rate.num <= RATE_LIMIT,
        rate.den <= RATE_LIMIT,
    ensures
        match r {
            Ok(t) => at_rate(text@, rate) == Ok::<Seq<char>, RateError>(t@),
            Err(x) => at_rate(text@, rate) == Err::<Seq<char>, RateError>(x),
        },
{
    if rate.num <= 0 || rate.den <= 0 {
        return Err(RateError::InvalidRate);
    }
    if rate.num == rate.den {
        return Ok(slice_to_vec(text));
    }
    let lines = split_on(text, '\n');
    let ghost all = split(text@, '\n');
    let origin: i128 = match find_origin(lines.as_slice()) {
        Some(t) => t,
        None => {
            return Err(RateError::NoHitObjects);
        },
    };
    let mut out: Vec<Vec<char>> = Vec::new();
    let mut kind = Timed::Other;
    let mut n: usize = 0;
    proof {
        lemma_section_names();
    }
    while n < lines.len()
        invariant
            n <= lines@.len(),
            all == texts(lines@),
            rate_fits(rate),
            -LIMIT <= origin <= LIMIT,
            kind == timed_section(section_before(all, n as int)),
            out@.len() == n,
            forall|i: int|
                0 <= i < n ==> (#[trigger] out@[i])@ == moved_lines(
                    all,
                    origin as int,
                    rate,
                )[i],
        decreases lines@.len() - n,
    {
        let line = lines[n];
        proof {
            assert(all[n as int] == line@);
            lemma_section_names();
        }
        let next = write_line(kind, line, origin, rate, Ghost(section_before(all, n as int)));
        out.push(next);
        let t = trim(line);
        if starts_with(t, "[") {
            kind = section_kind(t);
        }
        n = n + 1;
    }
    assert(pieces(out@) =~= moved_lines(all, origin as int, rate));
    Ok(join(out.as_slice(), '\n'))
}

/// Brings the text of a file to a clock rate, a quotient of numbers up to
/// [`RATE_LIMIT`].
pub fn transform_rate(text: &str, rate: Ratio) -> (r: Result<String, RateError>)
    requires
        rate.num <= RATE_LIMIT,
        rate.den <= RATE_LIMIT,
    ensures
        match r {
            Ok(t) => at_rate(text@, rate) == Ok::<Seq<char>, RateError>(t@),
            Err(x) => at_rate(text@, rate) == Err::<Seq<char>, RateError>(x),
        },
{
    let chars = to_chars(text);
    match change_rate(chars.as_slice(), rate) {
        Ok(t) => Ok(string_of(t.as_slice())),
        Err(x) => Err(x),
    }
}

/// At the usual clock rate a file stays as it is, with or without notes.
pub proof fn law_usual_rate_keeps_text(text: Seq<char>, rate: Ratio)
    requires
        usable(rate),
        rate.num == rate.den,
    ensures
        at_rate(text, rate) == Ok::<Seq<char>, RateError>(text),
{
}

/// A clock rate that is not positive is refused, and no other.
pub proof fn law_only_positive_rates(text: Seq<char>, rate: Ratio)
    ensures
        at_rate(text, rate) == Err::<Seq<char>, RateError>(RateError::InvalidRate) <==> rate.num
            <= 0 || rate.den <= 0,
{
}

/// Whether line `i` is the first note that starts with a number.
pub open spec fn is_first_note(lines: Seq<Seq<char>>, i: int) -> bool {
    &&& 0 <= i < lines.len()
    &&& is_note_line(lines, i)
    &&& forall|j: int| 0 <= j < i ==> !(#[trigger] is_note_line(lines, j))
}

/// Whether the third part of a line is a finite number.
pub open spec fn is_timed(line: Seq<char>) -> bool {
    split(line, ',').len() > 2 && decimal(trimmed(split(line, ',')[2])) matches Some(
        Number::Ticks(_),
    )
}

proof fn lemma_origin(lines: Seq<Seq<char>>, i: int)
    requires
        0 <= i <= lines.len(),
        forall|j: int| 0 <= j < i ==> !(#[trigger] is_note_line(lines, j)),
    ensures
        origin_from(lines, i) is Some <==> exists|k: int| #[trigger]
            is_first_note(lines, k) && is_timed(lines[k]),
    decreases lines.len() - i,
{
    if i < lines.len() {
        if is_note_line(lines, i) {
            assert(is_first_note(lines, i));
            assert forall|k: int| #[trigger] is_first_note(lines, k) implies k == i by {}
        } else {
            lemma_origin(lines, i + 1);
        }
    }
}

/// At another clock rate a file can be had exactly where it has a first note,
/// whose time is a finite number, however large.
pub proof fn law_first_note_decides(text: Seq<char>, rate: Ratio)
    requires
        usable(rate),
        rate.num != rate.den,
    ensures
        at_rate(text, rate) is Ok <==> exists|k: int| #[trigger]
            is_first_note(split(text, '\n'), k) && is_timed(split(text, '\n')[k]),
        at_rate(text, rate) is Err ==> at_rate(text, rate) == Err::<Seq<char>, RateError>(
            RateError::NoHitObjects,
        ),
{
    lemma_origin(split(text, '\n'), 0);
}

/// The first note comes after a second, and times keep their order.
pub proof fn law_times_count_from_the_first_note(a: int, b: int, origin: int, rate: Ratio)
    requires
        usable(rate),
        a <= b,
    ensures
        moved_time(origin, origin, rate) == 1000,
        moved_time(a, origin, rate) <= moved_time(b, origin, rate),
{
    let (n, d) = (rate.den as int, rate.num * TICKS);
    assert((a - origin) * n <= (b - origin) * n) by (nonlinear_arith)
        requires
            a <= b,
            n > 0,
    ;
    vstd::arithmetic::div_mod::lemma_div_is_ordered((a - origin) * n, (b - origin) * n, d);
    assert((origin - origin) * n == 0) by (nonlinear_arith);
    assert(0int / d == 0) by (nonlinear_arith)
        requires
            d > 0,
    ;
}

/// The time between two moments scales with the clock rate, to within a
/// millisecond.
pub proof fn law_spans_scale_with_rate(a: int, b: int, origin: int, rate: Ratio)
    requires
        usable(rate),
    ensures
        ({
            let unit = rate.num * TICKS;
            let span = moved_time(b, origin, rate) - moved_time(a, origin, rate);
            let scaled = (b - a) * rate.den;
            scaled - unit < span * unit < scaled + unit
        }),
{
    let (n, d) = (rate.den as int, rate.num * TICKS);
    let (x, y) = ((a - origin) * n, (b - origin) * n);
    vstd::arithmetic::div_mod::lemma_fundamental_div_mod(x, d);
    vstd::arithmetic::div_mod::lemma_fundamental_div_mod(y, d);
    vstd::arithmetic::div_mod::lemma_mod_bound(x, d);
    vstd::arithmetic::div_mod::lemma_mod_bound(y, d);
    let (p, q) = (x / d, y / d);
    assert((q - p) * d == d * q - d * p) by (nonlinear_arith);
    assert(y - x == (b - a) * n) by (nonlinear_arith)
        requires
            x == (a - origin) * n,
            y == (b - origin) * n,
    ;
}

} // verus!
