//! What a file at a clock rate keeps of the file: it says to be the same, so
//! that its analysis is the analysis of the file at that rate.

use crate::mma::{light_metadata, meta_section, mma_of, read_meta, MetaSection};
use crate::number::{
    decimal, decimal_text, is_digit, law_decimal_text_reads_back, Number, TICKS,
};
use crate::rate::{
    at_rate, beat_text, joined, last_digits, moved_end, moved_line, moved_lines, moved_time,
    origin_from, section_before, ticks_text, time_text, whole_text, without_zeros,
};
use crate::text::{
    begins_with, ends_in, is_white, lemma_position, lemma_position_is, position, split, trimmed,
    trimmed_end, trimmed_start,
};
use crate::types::{ManiaGameMod, Ratio};
use vstd::prelude::*;

verus! {

/// Whether a character does not occur in a text.
pub open spec fn lacks(s: Seq<char>, c: char) -> bool {
    forall|i: int| 0 <= i < s.len() ==> #[trigger] s[i] != c
}

/// Whether a character occurs in none of the pieces.
pub open spec fn all_lack(parts: Seq<Seq<char>>, c: char) -> bool {
    forall|i: int| 0 <= i < parts.len() ==> lacks(#[trigger] parts[i], c)
}

proof fn lemma_joined_from_front(parts: Seq<Seq<char>>, sep: char)
    requires
        parts.len() >= 2,
    ensures
        joined(parts, sep) == parts[0].push(sep) + joined(parts.skip(1), sep),
    decreases parts.len(),
{
    let front = parts.drop_last();
    if parts.len() == 2 {
        assert(parts.skip(1).len() == 1);
        assert(joined(front, sep) == front[0]);
        assert(joined(parts, sep) =~= parts[0].push(sep) + joined(parts.skip(1), sep));
    } else {
        lemma_joined_from_front(front, sep);
        assert(parts.skip(1).drop_last() =~= front.skip(1));
        assert(parts.skip(1).last() == parts.last());
        assert(joined(parts, sep) =~= parts[0].push(sep) + joined(parts.skip(1), sep));
    }
}

/// Pieces that are joined and split again are the same.
pub proof fn law_joined_splits_back(parts: Seq<Seq<char>>, sep: char)
    requires
        parts.len() > 0,
        all_lack(parts, sep),
    ensures
        split(joined(parts, sep), sep) == parts,
    decreases parts.len(),
{
    let s = joined(parts, sep);
    let head = parts[0];
    assert(lacks(head, sep));
    if parts.len() == 1 {
        assert(s == head);
        lemma_position_is(s, sep, s.len() as int);
        assert(split(s, sep) =~= parts);
    } else {
        let rest = parts.skip(1);
        lemma_joined_from_front(parts, sep);
        assert forall|i: int| 0 <= i < rest.len() implies lacks(#[trigger] rest[i], sep) by {
            assert(rest[i] == parts[i + 1]);
        }
        law_joined_splits_back(rest, sep);
        let n = head.len() as int;
        assert(s[n] == sep);
        assert forall|i: int| 0 <= i < n implies s[i] != sep by {
            assert(s[i] == head[i]);
        }
        lemma_position_is(s, sep, n);
        assert(s.take(n) =~= head);
        assert(s.skip(n + 1) =~= joined(rest, sep));
        assert(split(s, sep) =~= parts);
    }
}

/// A text that is split and joined again is the same.
pub proof fn law_split_joins_back(s: Seq<char>, sep: char)
    ensures
        split(s, sep).len() > 0,
        all_lack(split(s, sep), sep),
        joined(split(s, sep), sep) == s,
    decreases s.len(),
{
    lemma_position(s, sep);
    let i = position(s, sep);
    let parts = split(s, sep);
    if i < s.len() {
        let rest = s.skip(i + 1);
        law_split_joins_back(rest, sep);
        assert(parts[0] == s.take(i));
        assert(parts.skip(1) =~= split(rest, sep));
        assert forall|k: int| 0 <= k < parts.len() implies lacks(#[trigger] parts[k], sep) by {
            if k > 0 {
                assert(parts[k] == split(rest, sep)[k - 1]);
            }
        }
        lemma_joined_from_front(parts, sep);
        assert(joined(parts, sep) =~= s);
    } else {
        assert(lacks(parts[0], sep));
    }
}

pub(crate) proof fn lemma_joined_lacks(parts: Seq<Seq<char>>, sep: char, c: char)
    requires
        all_lack(parts, c),
        sep != c,
    ensures
        lacks(joined(parts, sep), c),
    decreases parts.len(),
{
    if parts.len() == 1 {
        assert(lacks(parts[0], c));
    } else if parts.len() > 1 {
        let front = parts.drop_last();
        assert forall|i: int| 0 <= i < front.len() implies lacks(#[trigger] front[i], c) by {
            assert(front[i] == parts[i]);
        }
        lemma_joined_lacks(front, sep, c);
        assert(lacks(parts[parts.len() - 1], c));
        let s = joined(parts, sep);
        assert forall|i: int| 0 <= i < s.len() implies #[trigger] s[i] != c by {
            let lead = joined(front, sep).push(sep);
            if i < joined(front, sep).len() {
                assert(s[i] == joined(front, sep)[i]);
            } else if i < lead.len() {
                assert(s[i] == sep);
            } else {
                assert(s[i] == parts.last()[i - lead.len()]);
            }
        }
    }
}

pub(crate) proof fn lemma_pieces_lack(s: Seq<char>, sep: char, c: char)
    requires
        lacks(s, c),
    ensures
        all_lack(split(s, sep), c),
    decreases s.len(),
{
    lemma_position(s, sep);
    let i = position(s, sep);
    if i < s.len() {
        let rest = s.skip(i + 1);
        assert forall|k: int| 0 <= k < rest.len() implies #[trigger] rest[k] != c by {
            assert(rest[k] == s[i + 1 + k]);
        }
        lemma_pieces_lack(rest, sep, c);
        let parts = split(s, sep);
        assert forall|k: int| 0 <= k < parts.len() implies lacks(#[trigger] parts[k], c) by {
            if k == 0 {
                assert(parts[0] == s.take(i));
            } else {
                assert(parts[k] == split(rest, sep)[k - 1]);
            }
        }
    }
}

proof fn lemma_decimal_lacks(n: nat, c: char)
    requires
        !is_digit(c),
    ensures
        lacks(decimal_text(n), c),
        decimal_text(n).len() > 0,
        is_digit(decimal_text(n)[0]),
{
    law_decimal_text_reads_back(n);
}

proof fn lemma_last_digits_lack(v: nat, n: nat, c: char)
    requires
        !is_digit(c),
    ensures
        lacks(last_digits(v, n), c),
    decreases n,
{
    if n > 0 {
        lemma_last_digits_lack(v / 10, (n - 1) as nat, c);
        let d = ('0' as int + v % 10) as char;
        assert(is_digit(d));
    }
}

proof fn lemma_without_zeros_lacks(s: Seq<char>, c: char)
    requires
        lacks(s, c),
    ensures
        lacks(without_zeros(s), c),
    decreases s.len(),
{
    if s.len() > 0 && s.last() == '0' {
        let front = s.drop_last();
        assert forall|i: int| 0 <= i < front.len() implies #[trigger] front[i] != c by {
            assert(front[i] == s[i]);
        }
        lemma_without_zeros_lacks(front, c);
    }
}

pub(crate) proof fn lemma_ticks_text_lacks(t: nat, c: char)
    requires
        !is_digit(c),
        c != '.',
    ensures
        lacks(ticks_text(t), c),
{
    let unit = TICKS as nat;
    lemma_decimal_lacks(t / unit, c);
    lemma_last_digits_lack(t % unit, 12, c);
    lemma_without_zeros_lacks(last_digits(t % unit, 12), c);
}

/// Times at a clock rate are written without line breaks, and do not look like
/// headers.
proof fn lemma_time_text(s: Seq<char>, origin: int, rate: Ratio)
    ensures
        lacks(time_text(s, origin, rate), '\n'),
        first_visible(time_text(s, origin, rate)) is Some,
        first_visible(time_text(s, origin, rate)) != Some('['),
{
    reveal_strlit("inf");
    reveal_strlit("-inf");
    reveal_strlit("NaN");
    let r = time_text(s, origin, rate);
    if r != "inf"@ && r != "-inf"@ && r != "NaN"@ {
        let t = (decimal(trimmed(s))->0)->Ticks_0 as int;
        let v = moved_time(t, origin, rate);
        assert(r == whole_text(v));
        if v >= 0 {
            lemma_decimal_lacks(v as nat, '\n');
        } else {
            lemma_decimal_lacks((-v) as nat, '\n');
        }
    }
    assert(r.len() > 0 && !is_white(r[0]) && r[0] != '[');
}

proof fn lemma_beat_text_lacks(s: Seq<char>, rate: Ratio)
    requires
        lacks(s, '\n'),
    ensures
        lacks(beat_text(s, rate), '\n'),
{
    reveal_strlit("inf");
    if let Some(Number::Ticks(t)) = decimal(trimmed(s)) {
        if t > 0 {
            lemma_ticks_text_lacks((t * rate.den / rate.num as int) as nat, '\n');
        }
    }
}

/// The first character of a text that is not white space.
pub open spec fn first_visible(s: Seq<char>) -> Option<char>
    decreases s.len(),
{
    if s.len() == 0 {
        None
    } else if is_white(s[0]) {
        first_visible(s.skip(1))
    } else {
        Some(s[0])
    }
}

proof fn lemma_end_keeps_first(s: Seq<char>)
    requires
        s.len() > 0,
        !is_white(s[0]),
    ensures
        trimmed_end(s).len() > 0,
        trimmed_end(s)[0] == s[0],
    decreases s.len(),
{
    if is_white(s.last()) {
        lemma_end_keeps_first(s.drop_last());
    }
}

proof fn lemma_first_of_trimmed(s: Seq<char>)
    ensures
        first_visible(s) == (if trimmed(s).len() > 0 {
            Some(trimmed(s)[0])
        } else {
            None
        }),
    decreases s.len(),
{
    if s.len() > 0 {
        if is_white(s[0]) {
            lemma_first_of_trimmed(s.skip(1));
        } else {
            assert(trimmed_start(s) == s);
            lemma_end_keeps_first(s);
        }
    }
}

proof fn lemma_opens(s: Seq<char>)
    ensures
        begins_with(trimmed(s), "["@) <==> first_visible(s) == Some('['),
{
    reveal_strlit("[");
    lemma_first_of_trimmed(s);
    let t = trimmed(s);
    if t.len() > 0 {
        assert(t.take(1) =~= seq![t[0]]);
        assert("["@ =~= seq!['[']);
        if begins_with(t, "["@) {
            assert(t.take(1)[0] == "["@[0]);
        }
    }
}

proof fn lemma_first_of_sum(a: Seq<char>, b: Seq<char>)
    ensures
        first_visible(a + b) == (if first_visible(a) is Some {
            first_visible(a)
        } else {
            first_visible(b)
        }),
    decreases a.len(),
{
    if a.len() == 0 {
        assert(a + b =~= b);
    } else {
        assert((a + b)[0] == a[0]);
        if is_white(a[0]) {
            assert((a + b).skip(1) =~= a.skip(1) + b);
            lemma_first_of_sum(a.skip(1), b);
        }
    }
}

proof fn lemma_first_of_joined(parts: Seq<Seq<char>>)
    requires
        parts.len() >= 2,
    ensures
        first_visible(joined(parts, ',')) == (if first_visible(parts[0]) is Some {
            first_visible(parts[0])
        } else {
            Some(',')
        }),
{
    lemma_joined_from_front(parts, ',');
    let tail = seq![','] + joined(parts.skip(1), ',');
    assert(joined(parts, ',') =~= parts[0] + tail);
    assert(tail[0] == ',');
    lemma_first_of_sum(parts[0], tail);
}

proof fn lemma_moved_end_lacks(s: Seq<char>, origin: int, rate: Ratio)
    requires
        lacks(s, '\n'),
    ensures
        lacks(moved_end(s, origin, rate), '\n'),
{
    lemma_pieces_lack(s, ':', '\n');
    law_split_joins_back(s, ':');
    let parts = split(s, ':');
    lemma_time_text(parts[0], origin, rate);
    let moved = parts.update(0, time_text(parts[0], origin, rate));
    assert forall|i: int| 0 <= i < moved.len() implies lacks(#[trigger] moved[i], '\n') by {
        if i > 0 {
            assert(moved[i] == parts[i]);
        }
    }
    lemma_joined_lacks(moved, ':', '\n');
}

/// Replacing pieces of a line keeps it a line that opens no section, if the new
/// first piece opens none.
proof fn lemma_replaced(line: Seq<char>, parts: Seq<Seq<char>>)
    requires
        first_visible(line) != Some('['),
        parts.len() == split(line, ',').len() >= 2,
        all_lack(parts, '\n'),
        parts[0] == split(line, ',')[0] || (first_visible(parts[0]) is Some && first_visible(
            parts[0],
        ) != Some('[')),
    ensures
        lacks(joined(parts, ','), '\n'),
        first_visible(joined(parts, ',')) != Some('['),
{
    law_split_joins_back(line, ',');
    lemma_first_of_joined(split(line, ','));
    lemma_first_of_joined(parts);
    lemma_joined_lacks(parts, ',', '\n');
}

/// A line that is moved opens no section, as it did not before, and stays one
/// line; only lines of the sections with times are moved.
proof fn lemma_moved_line(section: Seq<char>, line: Seq<char>, origin: int, rate: Ratio)
    requires
        lacks(line, '\n'),
    ensures
        lacks(moved_line(section, line, origin, rate), '\n'),
        moved_line(section, line, origin, rate) == line || {
            &&& section == "[HitObjects]"@ || section == "[TimingPoints]"@ || section
                == "[Events]"@
            &&& !begins_with(trimmed(line), "["@)
            &&& !begins_with(trimmed(moved_line(section, line, origin, rate)), "["@)
        },
{
    let moved = moved_line(section, line, origin, rate);
    if moved != line {
        let parts = split(line, ',');
        lemma_pieces_lack(line, ',', '\n');
        lemma_opens(line);
        lemma_opens(moved);
        if section == "[HitObjects]"@ && parts.len() >= 5 {
            lemma_time_text(parts[2], origin, rate);
            let timed = parts.update(2, time_text(parts[2], origin, rate));
            assert(all_lack(timed, '\n'));
            if moved == joined(timed, ',') {
                lemma_replaced(line, timed);
            } else {
                assert(lacks(parts[5], '\n'));
                lemma_moved_end_lacks(parts[5], origin, rate);
                let ended = timed.update(5, moved_end(parts[5], origin, rate));
                assert(all_lack(ended, '\n'));
                lemma_replaced(line, ended);
            }
        } else if section == "[TimingPoints]"@ && parts.len() >= 2 {
            lemma_time_text(parts[0], origin, rate);
            assert(lacks(parts[1], '\n'));
            lemma_beat_text_lacks(parts[1], rate);
            let timed = parts.update(0, time_text(parts[0], origin, rate)).update(
                1,
                beat_text(parts[1], rate),
            );
            assert(all_lack(timed, '\n'));
            lemma_replaced(line, timed);
        } else {
            lemma_time_text(parts[1], origin, rate);
            lemma_time_text(parts[2], origin, rate);
            let timed = parts.update(1, time_text(parts[1], origin, rate)).update(
                2,
                time_text(parts[2], origin, rate),
            );
            assert(all_lack(timed, '\n'));
            lemma_replaced(line, timed);
        }
    }
}

proof fn lemma_names()
    ensures
        "[HitObjects]"@ != "[General]"@ && "[HitObjects]"@ != "[Difficulty]"@,
        "[TimingPoints]"@ != "[General]"@ && "[TimingPoints]"@ != "[Difficulty]"@,
        "[Events]"@ != "[General]"@ && "[Events]"@ != "[Difficulty]"@,
        ends_in("[HitObjects]"@, "]"@),
        ends_in("[TimingPoints]"@, "]"@),
        ends_in("[Events]"@, "]"@),
{
    reveal_strlit("[HitObjects]");
    reveal_strlit("[TimingPoints]");
    reveal_strlit("[Events]");
    reveal_strlit("[General]");
    reveal_strlit("[Difficulty]");
    reveal_strlit("]");
    assert("[HitObjects]"@.len() == 12 && "[TimingPoints]"@.len() == 14 && "[Events]"@.len() == 8);
    assert("[General]"@.len() == 9 && "[Difficulty]"@[1] == 'D' && "[HitObjects]"@[1] == 'H');
    assert("[HitObjects]"@.skip(11) =~= "]"@);
    assert("[TimingPoints]"@.skip(13) =~= "]"@);
    assert("[Events]"@.skip(7) =~= "]"@);
}

/// Where the last line that starts with a bracket is the header of a section,
/// that is the section.
proof fn lemma_section_agrees(lines: Seq<Seq<char>>, n: int)
    requires
        0 <= n <= lines.len(),
        section_before(lines, n) == "[HitObjects]"@ || section_before(lines, n)
            == "[TimingPoints]"@ || section_before(lines, n) == "[Events]"@,
    ensures
        read_meta(lines.take(n)).0 == MetaSection::Other,
    decreases n,
{
    lemma_names();
    if n > 0 {
        let line = trimmed(lines[n - 1]);
        assert(lines.take(n).drop_last() =~= lines.take(n - 1));
        assert(lines.take(n).last() == lines[n - 1]);
        if begins_with(line, "["@) {
            assert(section_before(lines, n) == line);
            assert(meta_section(line) == MetaSection::Other);
        } else {
            lemma_section_agrees(lines, n - 1);
        }
    }
}

proof fn lemma_meta_stays(lines: Seq<Seq<char>>, origin: int, rate: Ratio, n: int)
    requires
        0 <= n <= lines.len(),
        all_lack(lines, '\n'),
    ensures
        read_meta(moved_lines(lines, origin, rate).take(n)) == read_meta(lines.take(n)),
    decreases n,
{
    let moved = moved_lines(lines, origin, rate);
    if n == 0 {
        assert(moved.take(0) =~= lines.take(0));
    } else {
        lemma_meta_stays(lines, origin, rate, n - 1);
        assert(moved.take(n).drop_last() =~= moved.take(n - 1));
        assert(lines.take(n).drop_last() =~= lines.take(n - 1));
        assert(moved.take(n).last() == moved[n - 1]);
        assert(lines.take(n).last() == lines[n - 1]);
        let section = section_before(lines, n - 1);
        assert(lacks(lines[n - 1], '\n'));
        lemma_moved_line(section, lines[n - 1], origin, rate);
        if moved[n - 1] != lines[n - 1] {
            lemma_section_agrees(lines, n - 1);
        }
    }
}

proof fn lemma_lines_at_rate(text: Seq<char>, rate: Ratio)
    requires
        at_rate(text, rate) is Ok,
        rate.num != rate.den,
    ensures
        origin_from(split(text, '\n'), 0) is Some,
        split(at_rate(text, rate)->Ok_0, '\n') == moved_lines(
            split(text, '\n'),
            origin_from(split(text, '\n'), 0)->0 as int,
            rate,
        ),
        all_lack(split(text, '\n'), '\n'),
{
    let lines = split(text, '\n');
    let origin = origin_from(lines, 0)->0 as int;
    let out = moved_lines(lines, origin, rate);
    law_split_joins_back(text, '\n');
    assert forall|i: int| 0 <= i < out.len() implies lacks(#[trigger] out[i], '\n') by {
        assert(lacks(lines[i], '\n'));
        lemma_moved_line(section_before(lines, i), lines[i], origin, rate);
    }
    law_joined_splits_back(out, '\n');
}

/// A file keeps its number of lines at each clock rate, and each line is moved
/// by itself: by its section and the time of the first note.
pub proof fn law_rate_keeps_lines(text: Seq<char>, rate: Ratio)
    ensures
        at_rate(text, rate) matches Ok(moved) ==> split(moved, '\n').len() == split(
            text,
            '\n',
        ).len(),
        at_rate(text, rate) matches Ok(moved) ==> rate.num != rate.den ==> split(moved, '\n')
            == moved_lines(
            split(text, '\n'),
            origin_from(split(text, '\n'), 0)->0 as int,
            rate,
        ),
{
    if at_rate(text, rate) is Ok && rate.num != rate.den {
        lemma_lines_at_rate(text, rate);
    }
}

/// A file says the same of itself at each clock rate.
pub proof fn law_rate_keeps_metadata(text: Seq<char>, rate: Ratio)
    ensures
        at_rate(text, rate) matches Ok(moved) ==> light_metadata(moved) == light_metadata(text),
{
    if let Ok(moved) = at_rate(text, rate) {
        if rate.num != rate.den {
            lemma_lines_at_rate(text, rate);
            let lines = split(text, '\n');
            let origin = origin_from(lines, 0)->0 as int;
            let out = moved_lines(lines, origin, rate);
            lemma_meta_stays(lines, origin, rate, lines.len() as int);
            assert(out.take(out.len() as int) =~= out);
            assert(lines.take(lines.len() as int) =~= lines);
        }
    }
}

/// The analysis of a file at a clock rate is that of the file moved to the
/// rate, not one that is scaled afterwards.
pub proof fn law_rate_moves_the_file(text: Seq<char>, m: ManiaGameMod)
    ensures
        at_rate(text, m.spec_rate()) matches Ok(moved) ==> mma_of(text, m) == mma_of(
            moved,
            ManiaGameMod::Nm,
        ),
{
    law_rate_keeps_metadata(text, m.spec_rate());
}

} // verus!
