//! What is read of a beatmap file, told by its lines: which of them say
//! something, what becomes of it, and in which order the notes come.

use crate::analyzer::{analyzed, law_stretch_is_inverse_of_rate};
use crate::beatmap::{
    is_entry, is_header, lemma_sound, parsed, read_lines, section_after, section_of, well_placed,
    Fault, HitObject, ParsedView, Section,
};
use crate::counting::{
    how_many, lemma_count, lemma_counts_add, lemma_counts_agree, lemma_counts_grow, lemma_rank,
};
use crate::number::{decimal, ticks_in, unsigned_up_to, Number, LIMIT, TICKS};
use crate::order::sorted_order;
use crate::text::{begins_with, ends_in, split, trimmed};
use crate::types::ManiaGameMod;
use vstd::prelude::*;

verus! {

/// Whether a line is a header: a text in square brackets.
pub open spec fn opens(line: Seq<char>) -> bool {
    begins_with(trimmed(line), "["@) && ends_in(trimmed(line), "]"@)
}

/// Whether the last header before line `i` is this one.
pub open spec fn under(lines: Seq<Seq<char>>, i: int, header: Seq<char>) -> bool {
    exists|j: int|
        0 <= j < i && opens(#[trigger] lines[j]) && trimmed(lines[j]) == header && forall|k: int|
            j < k < i ==> !opens(#[trigger] lines[k])
}

/// Whether line `i` says something under a header: it is neither empty nor a
/// comment nor a header.
pub open spec fn says(lines: Seq<Seq<char>>, i: int, header: Seq<char>) -> bool {
    &&& 0 <= i < lines.len()
    &&& under(lines, i, header)
    &&& trimmed(lines[i]).len() > 0
    &&& !begins_with(trimmed(lines[i]), "//"@)
    &&& !opens(lines[i])
}

/// The parts of a line between commas.
pub open spec fn fields(line: Seq<char>) -> Seq<Seq<char>> {
    split(trimmed(line), ',')
}

/// What stands behind a key in the last line under a header that begins with
/// it.
pub open spec fn last_value(lines: Seq<Seq<char>>, header: Seq<char>, key: Seq<char>) -> Option<
    Seq<char>,
>
    decreases lines.len(),
{
    if lines.len() == 0 {
        None
    } else {
        let n = lines.len() - 1;
        if says(lines, n, header) && begins_with(trimmed(lines[n]), key) {
            Some(trimmed(trimmed(lines[n]).skip(key.len() as int)))
        } else {
            last_value(lines.drop_last(), header, key)
        }
    }
}

/// A text, or the empty one.
pub open spec fn or_empty(s: Option<Seq<char>>) -> Seq<char> {
    match s {
        Some(s) => s,
        None => Seq::empty(),
    }
}

/// The identifier that a text gives; zero where it gives none.
pub open spec fn or_no_id(s: Option<Seq<char>>) -> u64 {
    match s {
        Some(s) => match unsigned_up_to(s, u64::MAX) {
            Some(id) => id,
            None => 0,
        },
        None => 0,
    }
}

proof fn lemma_headers()
    ensures
        section_of("[General]"@) == Section::General,
        section_of("[Metadata]"@) == Section::Metadata,
        section_of("[Difficulty]"@) == Section::Difficulty,
        section_of("[TimingPoints]"@) == Section::TimingPoints,
        section_of("[HitObjects]"@) == Section::HitObjects,
        forall|h: Seq<char>| #[trigger]
            section_of(h) == Section::General ==> h == "[General]"@,
        forall|h: Seq<char>| #[trigger]
            section_of(h) == Section::Metadata ==> h == "[Metadata]"@,
        forall|h: Seq<char>| #[trigger]
            section_of(h) == Section::Difficulty ==> h == "[Difficulty]"@,
        forall|h: Seq<char>| #[trigger]
            section_of(h) == Section::TimingPoints ==> h == "[TimingPoints]"@,
        forall|h: Seq<char>| #[trigger]
            section_of(h) == Section::HitObjects ==> h == "[HitObjects]"@,
        "[General]"@.len() == 9,
        "//"@.len() == 2,
        "["@.len() == 1,
        "["@[0] == '[',
        "//"@[0] == '/',
{
    reveal_strlit("[General]");
    reveal_strlit("[Metadata]");
    reveal_strlit("[Difficulty]");
    reveal_strlit("[TimingPoints]");
    reveal_strlit("[HitObjects]");
    reveal_strlit("//");
    reveal_strlit("[");
    assert("[General]"@.len() == 9 && "[Metadata]"@.len() == 10 && "[Difficulty]"@.len() == 12);
    assert("[TimingPoints]"@.len() == 14 && "[HitObjects]"@.len() == 12);
    assert("[Difficulty]"@[1] == 'D' && "[HitObjects]"@[1] == 'H');
}

/// A header is no comment.
proof fn lemma_opens(line: Seq<char>)
    ensures
        opens(line) ==> trimmed(line).len() > 0 && !begins_with(trimmed(line), "//"@) && is_header(
            trimmed(line),
        ),
        !opens(line) ==> !is_header(trimmed(line)),
{
    lemma_headers();
    let t = trimmed(line);
    if begins_with(t, "["@) {
        assert(t.take(1)[0] == t[0]);
        if begins_with(t, "//"@) {
            assert(t.take(2)[0] == t[0]);
        }
    }
}

spec fn header_of(s: Section) -> Seq<char> {
    match s {
        Section::General => "[General]"@,
        Section::Metadata => "[Metadata]"@,
        Section::Difficulty => "[Difficulty]"@,
        Section::TimingPoints => "[TimingPoints]"@,
        Section::HitObjects => "[HitObjects]"@,
        Section::Other => Seq::empty(),
    }
}

proof fn lemma_section(lines: Seq<Seq<char>>, n: int, s: Section)
    requires
        0 <= n <= lines.len(),
        s != Section::Other,
    ensures
        section_after(lines.take(n)) == s <==> under(lines, n, header_of(s)),
    decreases n,
{
    lemma_headers();
    if n > 0 {
        lemma_section(lines, n - 1, s);
        lemma_opens(lines[n - 1]);
        assert(lines.take(n).drop_last() =~= lines.take(n - 1));
        assert(lines.take(n).last() == lines[n - 1]);
        let h = header_of(s);
        if opens(lines[n - 1]) {
            if under(lines, n, h) {
                let j = choose|j: int|
                    0 <= j < n && opens(#[trigger] lines[j]) && trimmed(lines[j]) == h && forall|
                        k: int,
                    |
                        j < k < n ==> !opens(#[trigger] lines[k]);
                assert(j == n - 1);
            }
            if section_after(lines.take(n)) == s {
                assert(trimmed(lines[n - 1]) == h);
            }
        } else {
            if under(lines, n, h) {
                let j = choose|j: int|
                    0 <= j < n && opens(#[trigger] lines[j]) && trimmed(lines[j]) == h && forall|
                        k: int,
                    |
                        j < k < n ==> !opens(#[trigger] lines[k]);
                assert(opens(lines[j]));
                assert(under(lines, n - 1, h));
            }
            if under(lines, n - 1, h) {
                let j = choose|j: int|
                    0 <= j < n - 1 && opens(#[trigger] lines[j]) && trimmed(lines[j]) == h
                        && forall|k: int| j < k < n - 1 ==> !opens(#[trigger] lines[k]);
                assert(opens(lines[j]));
                assert(under(lines, n, h));
            }
        }
    }
}

proof fn lemma_says_before(lines: Seq<Seq<char>>, i: int, header: Seq<char>)
    requires
        lines.len() > 0,
        i < lines.len() - 1,
    ensures
        says(lines.drop_last(), i, header) == says(lines, i, header),
{
    let front = lines.drop_last();
    if 0 <= i {
        assert(front[i] == lines[i]);
        if under(lines, i, header) {
            let j = choose|j: int|
                0 <= j < i && opens(#[trigger] lines[j]) && trimmed(lines[j]) == header && forall|
                    k: int,
                |
                    j < k < i ==> !opens(#[trigger] lines[k]);
            assert(opens(front[j]));
            assert forall|k: int| j < k < i implies !opens(#[trigger] front[k]) by {
                assert(!opens(lines[k]));
            }
        }
        if under(front, i, header) {
            let j = choose|j: int|
                0 <= j < i && opens(#[trigger] front[j]) && trimmed(front[j]) == header && forall|
                    k: int,
                |
                    j < k < i ==> !opens(#[trigger] front[k]);
            assert(opens(lines[j]));
            assert forall|k: int| j < k < i implies !opens(#[trigger] lines[k]) by {
                assert(!opens(front[k]));
            }
        }
    }
}

/// What the last line does to a draft is told by the header that it stands
/// under.
proof fn lemma_last_line(lines: Seq<Seq<char>>)
    requires
        lines.len() > 0,
        read_lines(lines.drop_last()) is Ok,
    ensures
        ({
            let n = lines.len() - 1;
            let d = read_lines(lines.drop_last())->Ok_0;
            let entry = is_entry(trimmed(lines[n]));
            &&& says(lines, n, "[General]"@) <==> entry && d.section == Section::General
            &&& says(lines, n, "[Metadata]"@) <==> entry && d.section == Section::Metadata
            &&& says(lines, n, "[Difficulty]"@) <==> entry && d.section == Section::Difficulty
            &&& says(lines, n, "[TimingPoints]"@) <==> entry && d.section == Section::TimingPoints
            &&& says(lines, n, "[HitObjects]"@) <==> entry && d.section == Section::HitObjects
        }),
{
    let n = lines.len() - 1;
    crate::beatmap::lemma_draft(lines.drop_last());
    assert(lines.take(n) =~= lines.drop_last());
    lemma_section(lines, n, Section::General);
    lemma_section(lines, n, Section::Metadata);
    lemma_section(lines, n, Section::Difficulty);
    lemma_section(lines, n, Section::TimingPoints);
    lemma_section(lines, n, Section::HitObjects);
    lemma_opens(lines[n]);
}

/// Keys of the metadata section exclude each other.
proof fn lemma_keys(line: Seq<char>)
    ensures
        begins_with(line, "BeatmapID:"@) ==> !begins_with(line, "BeatmapSetID:"@) && line[0] == 'B',
        begins_with(line, "BeatmapSetID:"@) ==> line[0] == 'B',
        begins_with(line, "Artist:"@) ==> line[0] == 'A',
        begins_with(line, "Title:"@) ==> line[0] == 'T',
        begins_with(line, "Version:"@) ==> line[0] == 'V',
        begins_with(line, "Creator:"@) ==> line[0] == 'C',
{
    reveal_strlit("BeatmapID:");
    reveal_strlit("BeatmapSetID:");
    reveal_strlit("Artist:");
    reveal_strlit("Title:");
    reveal_strlit("Version:");
    reveal_strlit("Creator:");
    if begins_with(line, "BeatmapID:"@) {
        assert(line.take(10)[0] == line[0] && line.take(10)[7] == line[7]);
    }
    if begins_with(line, "BeatmapSetID:"@) {
        assert(line.take(13)[0] == line[0] && line.take(13)[7] == line[7]);
    }
    if begins_with(line, "Artist:"@) {
        assert(line.take(7)[0] == line[0]);
    }
    if begins_with(line, "Title:"@) {
        assert(line.take(6)[0] == line[0]);
    }
    if begins_with(line, "Version:"@) {
        assert(line.take(8)[0] == line[0]);
    }
    if begins_with(line, "Creator:"@) {
        assert(line.take(8)[0] == line[0]);
    }
}

/// What the plain fields of a draft hold.
proof fn lemma_fields(lines: Seq<Seq<char>>)
    ensures
        read_lines(lines) matches Ok(d) ==> {
            &&& d.artist == or_empty(last_value(lines, "[Metadata]"@, "Artist:"@))
            &&& d.title == or_empty(last_value(lines, "[Metadata]"@, "Title:"@))
            &&& d.version == or_empty(last_value(lines, "[Metadata]"@, "Version:"@))
            &&& d.creator == or_empty(last_value(lines, "[Metadata]"@, "Creator:"@))
            &&& d.beatmap_id == or_no_id(last_value(lines, "[Metadata]"@, "BeatmapID:"@))
            &&& d.beatmapset_id == or_no_id(last_value(lines, "[Metadata]"@, "BeatmapSetID:"@))
            &&& match last_value(lines, "[General]"@, "Mode:"@) {
                Some(v) => match d.mode {
                    Some(m) => unsigned_up_to(v, 255) == Some(m as u64),
                    None => unsigned_up_to(v, 255) is None,
                },
                None => d.mode is None,
            }
            &&& match last_value(lines, "[Difficulty]"@, "CircleSize:"@) {
                Some(v) => d.key_count is Some <==> decimal(v) is Some,
                None => d.key_count is None,
            }
        },
    decreases lines.len(),
{
    if lines.len() > 0 {
        let n = lines.len() - 1;
        lemma_fields(lines.drop_last());
        if read_lines(lines.drop_last()) is Ok {
            lemma_last_line(lines);
            lemma_keys(trimmed(lines[n]));
        }
    }
}

/// Each text of a file is what stands behind its key in the last line of the
/// metadata section that begins with the key; so are the identifiers, where
/// they are numbers. A file without an identifier has a local one.
pub proof fn law_metadata_is_what_the_file_says(text: Seq<char>, digest: Seq<u8>)
    ensures
        parsed(text, digest) matches Ok(p) ==> {
            let lines = split(text, '\n');
            let id = or_no_id(last_value(lines, "[Metadata]"@, "BeatmapID:"@));
            &&& p.artist == or_empty(last_value(lines, "[Metadata]"@, "Artist:"@))
            &&& p.title == or_empty(last_value(lines, "[Metadata]"@, "Title:"@))
            &&& p.version == or_empty(last_value(lines, "[Metadata]"@, "Version:"@))
            &&& p.creator == or_empty(last_value(lines, "[Metadata]"@, "Creator:"@))
            &&& p.beatmapset_id == or_no_id(last_value(lines, "[Metadata]"@, "BeatmapSetID:"@))
            &&& id > 0 ==> p.beatmap_id == id
            &&& id == 0 ==> 0x1_0000_0000_0000 <= p.beatmap_id < 0x2_0000_0000_0000
        },
{
    lemma_fields(split(text, '\n'));
    crate::beatmap::lemma_big_endian(digest);
}

/// A file that can be read says that its mode is 3, and its keys are the
/// nearest whole number to its circle size, halves up.
pub proof fn law_mode_and_keys_are_what_the_file_says(text: Seq<char>, digest: Seq<u8>)
    ensures
        parsed(text, digest) matches Ok(p) ==> {
            let lines = split(text, '\n');
            let keys = p.key_count as int;
            &&& last_value(lines, "[General]"@, "Mode:"@) matches Some(v) && unsigned_up_to(v, 255)
                == Some(3u64)
            &&& last_value(lines, "[Difficulty]"@, "CircleSize:"@) matches Some(v) && decimal(
                v,
            ) matches Some(Number::Ticks(t)) && (2 * keys - 1) * TICKS <= 2 * t < (2 * keys + 1)
                * TICKS
        },
{
    let lines = split(text, '\n');
    lemma_fields(lines);
    lemma_rounding(lines);
}

proof fn lemma_rounding(lines: Seq<Seq<char>>)
    ensures
        read_lines(lines) matches Ok(d) ==> (d.key_count matches Some(k) ==> 0 < k < 255 ==> (
        last_value(lines, "[Difficulty]"@, "CircleSize:"@) matches Some(v) && decimal(
            v,
        ) matches Some(Number::Ticks(t)) && (2 * k - 1) * TICKS <= 2 * t < (2 * k + 1) * TICKS)),
    decreases lines.len(),
{
    if lines.len() > 0 {
        lemma_rounding(lines.drop_last());
        if read_lines(lines.drop_last()) is Ok {
            lemma_last_line(lines);
        }
    }
}

/// The length of a beat that line `i` sets, in ticks: that of a timing point
/// which is not inherited, where it is positive.
pub open spec fn beat_on(lines: Seq<Seq<char>>, i: int) -> Option<i128> {
    let f = fields(lines[i]);
    if says(lines, i, "[TimingPoints]"@) && f.len() >= 7 && trimmed(f[6]) == "1"@ {
        match ticks_in(f[1]) {
            Some(b) if b > 0 => Some(b),
            _ => None,
        }
    } else {
        None
    }
}

/// Whether line `i` changes the scroll velocity: an inherited timing point with
/// a negative value.
pub open spec fn changes_velocity(lines: Seq<Seq<char>>, i: int) -> bool {
    let f = fields(lines[i]);
    says(lines, i, "[TimingPoints]"@) && f.len() >= 7 && trimmed(f[6]) != "1"@ && (ticks_in(
        f[1],
    ) matches Some(b) && b < 0)
}

/// How many lines set a beat length that satisfies `q`.
pub open spec fn beats_where(lines: Seq<Seq<char>>, q: spec_fn(i128) -> bool) -> nat {
    how_many(lines.len(), |i: int| beat_on(lines, i) matches Some(b) && q(b))
}

proof fn lemma_beats(lines: Seq<Seq<char>>, q: spec_fn(i128) -> bool)
    ensures
        read_lines(lines) matches Ok(d) ==> {
            &&& beats_where(lines, q) == how_many(d.beats.len(), |i: int| q(d.beats[i]))
            &&& d.sv_changes == how_many(lines.len(), |i: int| changes_velocity(lines, i))
        },
    decreases lines.len(),
{
    if lines.len() > 0 {
        let front = lines.drop_last();
        let n = front.len();
        lemma_beats(front, q);
        if let Ok(d) = read_lines(front) {
            if let Ok(e) = read_lines(lines) {
                lemma_last_line(lines);
                let p = |i: int| beat_on(lines, i) matches Some(b) && q(b);
                let r = |i: int| beat_on(front, i) matches Some(b) && q(b);
                let u = |i: int| changes_velocity(lines, i);
                let v = |i: int| changes_velocity(front, i);
                assert forall|i: int| 0 <= i < n implies #[trigger] p(i) == r(i) && u(i) == v(i) by {
                    lemma_says_before(lines, i, "[TimingPoints]"@);
                    assert(front[i] == lines[i]);
                }
                lemma_counts_agree(n, p, r);
                assert forall|i: int| 0 <= i < n implies #[trigger] u(i) == v(i) by {
                    assert(p(i) == r(i));
                }
                lemma_counts_agree(n, u, v);
                let x = |i: int| q(e.beats[i]);
                let y = |i: int| q(d.beats[i]);
                assert(e.beats == d.beats || (e.beats.len() == d.beats.len() + 1
                    && e.beats.drop_last() =~= d.beats));
                assert forall|i: int| 0 <= i < d.beats.len() implies #[trigger] x(i) == y(i) by {
                    assert(e.beats[i] == d.beats[i]);
                }
                lemma_counts_agree(d.beats.len(), x, y);
                assert(beat_on(lines, n as int) is Some <==> e.beats.len() == d.beats.len() + 1);
            }
        }
    }
}

proof fn lemma_some_line(lines: Seq<Seq<char>>, b: i128)
    requires
        beats_where(lines, |x: i128| x == b) > 0,
    ensures
        exists|i: int| 0 <= i < lines.len() && #[trigger] beat_on(lines, i) == Some(b),
{
    let q = |x: i128| x == b;
    let p = |i: int| beat_on(lines, i) matches Some(x) && q(x);
    lemma_count(lines.len(), p);
    let i = choose|i: int| 0 <= i < lines.len() && #[trigger] p(i);
    assert(beat_on(lines, i) == Some(b));
}

/// The tempo of a file is the median of those that its timing points set: one
/// of them, with no more than half of them slower and more than half of them
/// no faster. A file without any has none.
pub proof fn law_tempo_is_the_median(text: Seq<char>, digest: Seq<u8>)
    ensures
        parsed(text, digest) matches Ok(p) ==> {
            let lines = split(text, '\n');
            let all = beats_where(lines, |x: i128| true);
            match p.beat {
                None => all == 0,
                Some(b) => {
                    &&& exists|i: int| 0 <= i < lines.len() && #[trigger] beat_on(lines, i) == Some(b)
                    &&& beats_where(lines, |x: i128| x > b) <= all / 2
                    &&& beats_where(lines, |x: i128| x >= b) > all / 2
                },
            }
        },
{
    let lines = split(text, '\n');
    if let Ok(p) = parsed(text, digest) {
        let d = read_lines(lines)->Ok_0;
        lemma_sound(lines);
        let any = |x: i128| true;
        lemma_beats(lines, any);
        lemma_count(d.beats.len(), |i: int| any(d.beats[i]));
        if d.beats.len() > 0 {
            let keys = d.beats.map_values(|b: i128| (-b) as i128);
            let k = d.beats.len() as int / 2;
            lemma_rank(keys, k);
            let at = sorted_order(keys)[k];
            let b = d.beats[at];
            let slower = |x: i128| x > b;
            let steady = |x: i128| x >= b;
            let same = |x: i128| x == b;
            lemma_beats(lines, slower);
            lemma_beats(lines, steady);
            lemma_beats(lines, same);
            assert forall|i: int| 0 <= i < d.beats.len() implies 0 < #[trigger] d.beats[i]
                <= LIMIT by {}
            lemma_counts_agree(
                d.beats.len(),
                |i: int| keys[i] < keys[at],
                |i: int| slower(d.beats[i]),
            );
            lemma_counts_agree(
                d.beats.len(),
                |i: int| keys[i] <= keys[at],
                |i: int| steady(d.beats[i]),
            );
            let own = |i: int| same(d.beats[i]);
            lemma_count(d.beats.len(), own);
            assert(own(at));
            lemma_some_line(lines, b);
        }
    }
}

/// A tempo that more than half of the timing points set is the tempo of the
/// file.
pub proof fn law_most_common_tempo_decides(text: Seq<char>, digest: Seq<u8>, b: i128)
    requires
        2 * beats_where(split(text, '\n'), |x: i128| x == b) > beats_where(
            split(text, '\n'),
            |x: i128| true,
        ),
    ensures
        parsed(text, digest) matches Ok(p) ==> p.beat == Some(b),
{
    let lines = split(text, '\n');
    if let Ok(p) = parsed(text, digest) {
        law_tempo_is_the_median(text, digest);
        let n = lines.len();
        let any = |i: int| beat_on(lines, i) matches Some(x) && (|x: i128| true)(x);
        let own = |i: int| beat_on(lines, i) matches Some(x) && (|x: i128| x == b)(x);
        lemma_counts_grow(n, own, any);
        let m = p.beat->0;
        let slower = |i: int| beat_on(lines, i) matches Some(x) && (|x: i128| x > m)(x);
        let steady = |i: int| beat_on(lines, i) matches Some(x) && (|x: i128| x >= m)(x);
        if b > m {
            lemma_counts_grow(n, own, slower);
        } else if b < m {
            lemma_counts_add(n, own, steady, any);
        }
    }
}

/// The tempo that the analysis of a file states is sixty seconds over the
/// median beat, at the clock rate; zero where there is none. So many timing
/// points as change the scroll velocity are counted.
pub proof fn law_stated_tempo_is_the_median(
    text: Seq<char>,
    digest: Seq<u8>,
    source: Option<u64>,
    m: ManiaGameMod,
)
    ensures
        analyzed(text, digest, source, m) matches Ok((_, record)) ==> {
            let bpm = record.base.bpm;
            let rate = m.spec_rate();
            &&& bpm.den > 0
            &&& parsed(text, digest) matches Ok(p) && match p.beat {
                Some(b) => bpm.num * b * rate.den == bpm.den * 60_000 * TICKS * rate.num,
                None => bpm.num == 0,
            }
        },
{
    crate::beatmap::law_parsed_is_valid(text, digest);
    law_stretch_is_inverse_of_rate(m);
    if let Ok(p) = parsed(text, digest) {
        if let Some(b) = p.beat {
            let (x, f, n, e) = (
                b as int,
                m.stretch(),
                m.spec_rate().num as int,
                m.spec_rate().den as int,
            );
            assert(180_000 * 1_000_000_000_000 * x * e == (x * f) * 60_000 * 1_000_000_000_000 * n)
                by (nonlinear_arith)
                requires
                    f * n == 3 * e,
            ;
            assert(0 < x * f <= 4 * LIMIT) by (nonlinear_arith)
                requires
                    0 < x <= LIMIT,
                    2 <= f <= 4,
            ;
        }
    }
}

/// The changes of scroll velocity that are counted are those of the file.
pub proof fn law_velocity_changes_are_counted(text: Seq<char>, digest: Seq<u8>)
    ensures
        parsed(text, digest) matches Ok(p) ==> p.sv_changes == how_many(
            split(text, '\n').len(),
            |i: int| changes_velocity(split(text, '\n'), i),
        ),
{
    lemma_beats(split(text, '\n'), |x: i128| true);
}

/// Whether line `i` is a note: a list of at least five parts.
pub open spec fn is_note(lines: Seq<Seq<char>>, i: int) -> bool {
    says(lines, i, "[HitObjects]"@) && fields(lines[i]).len() >= 5
}

/// Whether a column is that of a horizontal coordinate: the field is 512 wide
/// and cut into 128 strips, which the columns share evenly.
pub open spec fn is_column_of(x: Number, keys: int, column: int) -> bool {
    match x {
        Number::NotANumber => column == 0,
        Number::Infinite(negative) => column == (if negative {
            0
        } else {
            keys - 1
        }),
        Number::Ticks(t) => if t <= 0 {
            column == 0
        } else if t >= 512 * TICKS {
            column == keys - 1
        } else {
            exists|strip: int| #[trigger]
                is_strip(t as int, strip) && 128 * column <= strip * keys < 128 * (column + 1)
        },
    }
}

/// Whether a coordinate lies on a strip.
pub open spec fn is_strip(t: int, strip: int) -> bool {
    4_000_000_000_000 * strip <= t < 4_000_000_000_000 * (strip + 1)
}

/// Whether line `i` gives a note: its column and start are what the line says;
/// bit 7 of its kind makes it long; a long note ends where the line says, if
/// that is behind its start.
pub open spec fn gives_note(lines: Seq<Seq<char>>, i: int, keys: int, o: HitObject) -> bool {
    let f = fields(lines[i]);
    let long = unsigned_up_to(f[3], 0xffff_ffff) matches Some(k) && (k / 128) % 2 == 1;
    &&& is_note(lines, i)
    &&& decimal(f[0]) matches Some(x) && is_column_of(x, keys, o.column as int)
    &&& ticks_in(f[2]) == Some(o.start)
    &&& o.long_note == long
    &&& match ticks_in(split(f[5], ':')[0]) {
        Some(e) if long && f.len() >= 6 && e > o.start => o.end == e,
        _ => o.end == o.start,
    }
}

proof fn lemma_column(x: Number, keys: u8)
    requires
        keys == 4 || keys == 6 || keys == 7,
    ensures
        is_column_of(
            x,
            keys as int,
            (crate::beatmap::place_of(x) as int * keys / 128) as u8 as int,
        ),
{
    let p = crate::beatmap::place_of(x) as int;
    let column = p * keys / 128;
    if let Number::Ticks(t) = x {
        if 0 < t < 512 * TICKS {
            let wide = 4 * TICKS;
            assert(wide == 4_000_000_000_000);
            let x = t as int;
            assert(x / wide == x / 4_000_000_000_000int);
            assert(0 <= x / 4_000_000_000_000int < 128);
            assert(p == x / 4_000_000_000_000int);
            assert(is_strip(t as int, p));
            assert(0 <= column < 8);
        }
    }
}

spec fn placed(lines: Seq<Seq<char>>, i: int, o: HitObject, keys: u8) -> bool {
    gives_note(lines, i, keys as int, crate::beatmap::columned(o, keys))
}

proof fn lemma_placed_before(lines: Seq<Seq<char>>, i: int, o: HitObject, keys: u8)
    requires
        0 <= i < lines.len() - 1,
    ensures
        is_note(lines, i) == is_note(lines.drop_last(), i),
        placed(lines, i, o, keys) == placed(lines.drop_last(), i, o, keys),
{
    lemma_says_before(lines, i, "[HitObjects]"@);
    assert(lines.drop_last()[i] == lines[i]);
}

/// What the last line adds to the notes of a draft.
proof fn lemma_last_note(lines: Seq<Seq<char>>, keys: u8)
    requires
        keys == 4 || keys == 6 || keys == 7,
        lines.len() > 0,
    ensures
        read_lines(lines) matches Ok(e) ==> (read_lines(lines.drop_last()) matches Ok(d) && {
            let n = lines.len() - 1;
            &&& d.untimed ==> e.untimed
            &&& !is_note(lines, n) ==> e.objects == d.objects && e.untimed == d.untimed
            &&& is_note(lines, n) ==> e.untimed || (e.objects.len() == d.objects.len() + 1
                && e.objects.drop_last() == d.objects && placed(lines, n, e.objects.last(), keys))
            &&& e.objects == d.objects || (is_note(lines, n) && e.objects.len() == d.objects.len()
                + 1 && e.objects.drop_last() == d.objects && placed(
                lines,
                n,
                e.objects.last(),
                keys,
            ))
        }),
{
    let n = lines.len() - 1;
    if let Ok(d) = read_lines(lines.drop_last()) {
        if let Ok(e) = read_lines(lines) {
            lemma_last_line(lines);
            let f = fields(lines[n]);
            if is_note(lines, n) {
                lemma_column(decimal(f[0])->0, keys);
                if decimal(f[2])->0.ticks() is Some {
                    assert(e.objects.drop_last() =~= d.objects);
                    assert(placed(lines, n, e.objects.last(), keys));
                }
            }
        }
    }
}

proof fn lemma_note_count(lines: Seq<Seq<char>>)
    ensures
        read_lines(lines) matches Ok(d) ==> d.untimed || d.objects.len() == how_many(
            lines.len(),
            |i: int| is_note(lines, i),
        ),
    decreases lines.len(),
{
    if lines.len() > 0 {
        let front = lines.drop_last();
        lemma_note_count(front);
        lemma_last_note(lines, 4);
        let p = |i: int| is_note(lines, i);
        let q = |i: int| is_note(front, i);
        assert forall|i: int| 0 <= i < front.len() implies #[trigger] p(i) == q(i) by {
            lemma_placed_before(lines, i, arbitrary(), 4);
        }
        lemma_counts_agree(front.len(), p, q);
    }
}

proof fn lemma_note_of_line(lines: Seq<Seq<char>>, keys: u8, i: int) -> (k: int)
    requires
        keys == 4 || keys == 6 || keys == 7,
        0 <= i < lines.len(),
        is_note(lines, i),
    ensures
        read_lines(lines) matches Ok(d) ==> d.untimed || (0 <= k < d.objects.len() && placed(
            lines,
            i,
            d.objects[k],
            keys,
        )),
    decreases lines.len(),
{
    let n = lines.len() - 1;
    lemma_last_note(lines, keys);
    if let Ok(e) = read_lines(lines) {
        let d = read_lines(lines.drop_last())->Ok_0;
        if i < n {
            lemma_placed_before(lines, i, arbitrary(), keys);
            let k = lemma_note_of_line(lines.drop_last(), keys, i);
            if !e.untimed {
                assert(e.objects[k] == d.objects[k]) by {
                    if e.objects != d.objects {
                        assert(e.objects.drop_last()[k] == d.objects[k]);
                    }
                }
                lemma_placed_before(lines, i, d.objects[k], keys);
            }
            k
        } else {
            e.objects.len() - 1
        }
    } else {
        0
    }
}

proof fn lemma_line_of_note(lines: Seq<Seq<char>>, keys: u8, k: int) -> (i: int)
    requires
        keys == 4 || keys == 6 || keys == 7,
    ensures
        read_lines(lines) matches Ok(d) ==> (0 <= k < d.objects.len() ==> 0 <= i < lines.len()
            && placed(lines, i, d.objects[k], keys)),
    decreases lines.len(),
{
    if lines.len() == 0 {
        0
    } else {
        let n = lines.len() - 1;
        lemma_last_note(lines, keys);
        let i = lemma_line_of_note(lines.drop_last(), keys, k);
        if let Ok(e) = read_lines(lines) {
            let d = read_lines(lines.drop_last())->Ok_0;
            if 0 <= k < d.objects.len() {
                assert(e.objects[k] == d.objects[k]) by {
                    if e.objects != d.objects {
                        assert(e.objects.drop_last()[k] == d.objects[k]);
                    }
                }
                lemma_placed_before(lines, i, d.objects[k], keys);
                i
            } else {
                n
            }
        } else {
            0
        }
    }
}

/// The notes of a file are as many as its lines of the notes section say, and
/// each is one that such a line gives.
pub proof fn law_notes_come_from_lines(text: Seq<char>, digest: Seq<u8>, k: int)
    ensures
        parsed(text, digest) matches Ok(p) ==> {
            let lines = split(text, '\n');
            &&& p.objects.len() == how_many(lines.len(), |i: int| is_note(lines, i))
            &&& 0 <= k < p.objects.len() ==> exists|i: int|
                0 <= i < lines.len() && #[trigger] gives_note(
                    lines,
                    i,
                    p.key_count as int,
                    p.objects[k],
                )
        },
{
    let lines = split(text, '\n');
    if let Ok(p) = parsed(text, digest) {
        let d = read_lines(lines)->Ok_0;
        lemma_note_count(lines);
        let moved = d.objects.map_values(|o: HitObject| crate::beatmap::columned(o, p.key_count));
        let keys = moved.map_values(|o: HitObject| crate::beatmap::object_key(o));
        crate::order::law_sorting_is_stable(keys, keys.len());
        if 0 <= k < p.objects.len() {
            let at = sorted_order(keys)[k];
            assert(p.objects[k] == crate::beatmap::columned(d.objects[at], p.key_count));
            let i = lemma_line_of_note(lines, p.key_count, at);
            assert(gives_note(lines, i, p.key_count as int, p.objects[k]));
        }
    }
}

/// Every line of the notes section that is a note gives one of the notes.
pub proof fn law_lines_become_notes(text: Seq<char>, digest: Seq<u8>, i: int)
    requires
        0 <= i < split(text, '\n').len(),
        is_note(split(text, '\n'), i),
    ensures
        parsed(text, digest) matches Ok(p) ==> exists|k: int|
            0 <= k < p.objects.len() && gives_note(
                split(text, '\n'),
                i,
                p.key_count as int,
                #[trigger] p.objects[k],
            ),
{
    let lines = split(text, '\n');
    if let Ok(p) = parsed(text, digest) {
        let d = read_lines(lines)->Ok_0;
        let moved = d.objects.map_values(|o: HitObject| crate::beatmap::columned(o, p.key_count));
        let keys = moved.map_values(|o: HitObject| crate::beatmap::object_key(o));
        crate::order::law_sorting_is_stable(keys, keys.len());
        let order = sorted_order(keys);
        crate::order::lemma_onto(order, keys.len());
        let at = lemma_note_of_line(lines, p.key_count, i);
        assert(order.contains(at));
        let k = choose|k: int| 0 <= k < order.len() && order[k] == at;
        assert(p.objects[k] == crate::beatmap::columned(d.objects[at], p.key_count));
    }
}

/// The notes of a file come in order of time, those at one time in order of
/// column.
pub proof fn law_notes_come_in_order(text: Seq<char>, digest: Seq<u8>, a: int, b: int)
    ensures
        parsed(text, digest) matches Ok(p) ==> (0 <= a < b < p.objects.len() ==> p.objects[a].start
            < p.objects[b].start || (p.objects[a].start == p.objects[b].start && p.objects[a].column
            <= p.objects[b].column)),
{
    let lines = split(text, '\n');
    crate::beatmap::law_parsed_is_valid(text, digest);
    if let Ok(p) = parsed(text, digest) {
        let d = read_lines(lines)->Ok_0;
        let moved = d.objects.map_values(|o: HitObject| crate::beatmap::columned(o, p.key_count));
        let keys = moved.map_values(|o: HitObject| crate::beatmap::object_key(o));
        crate::order::law_sorting_is_stable(keys, keys.len());
        let order = sorted_order(keys);
        if 0 <= a < b < p.objects.len() {
            assert(keys[order[a]] <= keys[order[b]]);
            assert(p.objects[a] == moved[order[a]] && p.objects[b] == moved[order[b]]);
            assert(well_placed(p.objects[a], p.key_count as int));
            assert(well_placed(p.objects[b], p.key_count as int));
        }
    }
}

/// Whether all notes of a file have numbers for their coordinate and time.
pub open spec fn notes_are_numbers(lines: Seq<Seq<char>>) -> bool {
    forall|i: int|
        0 <= i < lines.len() && #[trigger] is_note(lines, i) ==> decimal(fields(lines[i])[0])
            is Some && decimal(fields(lines[i])[2]) is Some
}

proof fn lemma_readable(lines: Seq<Seq<char>>)
    ensures
        read_lines(lines) is Ok <==> notes_are_numbers(lines),
        read_lines(lines) matches Err(x) ==> x == Fault::Invalid(
            "invalid hit object x coordinate"@,
        ) || x == Fault::Invalid("invalid hit object timestamp"@),
    decreases lines.len(),
{
    if lines.len() > 0 {
        let front = lines.drop_last();
        let n = front.len() as int;
        lemma_readable(front);
        assert forall|i: int| 0 <= i < n implies is_note(front, i) == #[trigger] is_note(
            lines,
            i,
        ) by {
            lemma_says_before(lines, i, "[HitObjects]"@);
            assert(front[i] == lines[i]);
        }
        if read_lines(front) is Ok {
            lemma_last_line(lines);
            if read_lines(lines) is Ok {
                assert forall|i: int| 0 <= i < lines.len() && #[trigger] is_note(
                    lines,
                    i,
                ) implies decimal(fields(lines[i])[0]) is Some && decimal(fields(lines[i])[2])
                    is Some by {
                    if i < n {
                        assert(is_note(front, i));
                        assert(front[i] == lines[i]);
                    }
                }
            } else {
                assert(is_note(lines, n));
            }
        } else {
            let i = choose|i: int|
                0 <= i < front.len() && #[trigger] is_note(front, i) && !(decimal(
                    fields(front[i])[0],
                ) is Some && decimal(fields(front[i])[2]) is Some);
            assert(is_note(lines, i));
            assert(front[i] == lines[i]);
        }
    }
}

/// Which fault a file has: notes without numbers come first, then a missing mode
/// and one that is not supported, then a missing key count.
pub proof fn law_faults_of_a_file(text: Seq<char>, digest: Seq<u8>)
    ensures
        ({
            let lines = split(text, '\n');
            let mode = match last_value(lines, "[General]"@, "Mode:"@) {
                Some(v) => unsigned_up_to(v, 255),
                None => None,
            };
            let size = match last_value(lines, "[Difficulty]"@, "CircleSize:"@) {
                Some(v) => decimal(v),
                None => None,
            };
            let r = parsed(text, digest);
            &&& !notes_are_numbers(lines) ==> r == Err::<ParsedView, Fault>(
                Fault::Invalid("invalid hit object x coordinate"@),
            ) || r == Err::<ParsedView, Fault>(Fault::Invalid("invalid hit object timestamp"@))
            &&& notes_are_numbers(lines) ==> match mode {
                None => r == Err::<ParsedView, Fault>(Fault::Invalid("missing Mode"@)),
                Some(m) if m != 3 => r == Err::<ParsedView, Fault>(
                    Fault::UnsupportedMode(m as u8),
                ),
                Some(_) => match size {
                    None => r == Err::<ParsedView, Fault>(
                        Fault::Invalid("missing CircleSize/key count"@),
                    ),
                    Some(_) => r matches Err(x) ==> x != Fault::Invalid("missing Mode"@) && !(x
                        is UnsupportedMode),
                },
            }
        }),
{
    let lines = split(text, '\n');
    lemma_readable(lines);
    lemma_fields(lines);
    reveal_strlit("missing Mode");
    reveal_strlit("invalid hit object timestamp");
    reveal_strlit("beatmap has no hit objects");
    assert("missing Mode"@.len() == 12 && "invalid hit object timestamp"@.len() == 28
        && "beatmap has no hit objects"@.len() == 26);
}

} // verus!
