//! Reading a beatmap file as a chart.

use crate::board::{
    convert_hit_objects, law_rows_are_in_order, note_valid, notes_valid, rows_of, ChartError,
};
use crate::chart::{row_views, BpmData, Chart, ChartView, RowView, TimeItem, TIME_LIMIT};
use crate::number::{
    decimal, floor_div, lemma_decimal_bound, parse_decimal, parse_signed, read_ticks, signed_value,
    ticks_in, Number, LIMIT, TICKS,
};
use crate::text::{
    begins_with, ends_in, ends_with, find, is_word, position, split, split_on, starts_with, texts,
    to_chars, trim, trimmed,
};
use crate::types::Ratio;
use crate::velocity::{
    cleaned, cleaned_sv, find_speeds, lemma_cleaned_valid, speed_items, usual_speed, Speed, HUNDRED,
};
use crate::wide::Wide;
use vstd::prelude::*;
use vstd::slice::slice_subrange;

verus! {

/// A section of a file: its name and its lines.
#[verifier::ext_equal]
pub struct SectionView {
    pub name: Seq<char>,
    pub lines: Seq<Seq<char>>,
}

/// Whether a line opens a section.
pub open spec fn is_header(line: Seq<char>) -> bool {
    begins_with(line, "["@) && ends_in(line, "]"@)
}

/// The sections of a file. Lines are trimmed; empty lines, comments and lines
/// before the first section are left out.
pub open spec fn sections(lines: Seq<Seq<char>>) -> Seq<SectionView>
    decreases lines.len(),
{
    if lines.len() == 0 {
        Seq::empty()
    } else {
        let before = sections(lines.drop_last());
        let line = trimmed(lines.last());
        if line.len() == 0 || begins_with(line, "//"@) {
            before
        } else if is_header(line) {
            before.push(SectionView { name: line.subrange(1, line.len() - 1), lines: Seq::empty() })
        } else if before.len() > 0 {
            before.drop_last().push(
                SectionView { lines: before.last().lines.push(line), ..before.last() },
            )
        } else {
            before
        }
    }
}

/// The lines of the first section of a name.
pub open spec fn lines_of(all: Seq<SectionView>, name: Seq<char>) -> Seq<Seq<char>>
    decreases all.len(),
{
    if all.len() == 0 {
        Seq::empty()
    } else if all[0].name == name {
        all[0].lines
    } else {
        lines_of(all.skip(1), name)
    }
}

/// The value of the first line that assigns a key with a colon.
pub open spec fn value_of(lines: Seq<Seq<char>>, key: Seq<char>) -> Option<Seq<char>>
    decreases lines.len(),
{
    if lines.len() == 0 {
        None
    } else {
        let line = lines[0];
        let i = position(line, ':');
        if i < line.len() && trimmed(line.take(i)) == key {
            Some(trimmed(line.skip(i + 1)))
        } else {
            value_of(lines.skip(1), key)
        }
    }
}

/// A section of a file.
pub struct Section<'a> {
    pub name: &'a [char],
    pub lines: Vec<&'a [char]>,
}

impl<'a> Section<'a> {
    /// The section as a value.
    pub open spec fn model(&self) -> SectionView {
        SectionView { name: self.name@, lines: texts(self.lines@) }
    }
}

/// Sections as values.
pub open spec fn section_views(v: Seq<Section<'_>>) -> Seq<SectionView> {
    Seq::new(v.len(), |i: int| v[i].model())
}

/// The sections of a file.
pub fn parse_sections<'a>(text: &'a [char]) -> (r: Vec<Section<'a>>)
    ensures
        section_views(r@) == sections(split(text@, '\n')),
{
    let lines = split_on(text, '\n');
    let ghost all = split(text@, '\n');
    let mut out: Vec<Section<'a>> = Vec::new();
    let mut i: usize = 0;
    assert(all.take(0) =~= Seq::<Seq<char>>::empty());
    assert(section_views(out@) =~= sections(all.take(0)));
    while i < lines.len()
        invariant
            i <= lines@.len(),
            texts(lines@) == all,
            section_views(out@) == sections(all.take(i as int)),
        decreases lines@.len() - i,
    {
        proof {
            assert(all.len() == lines@.len());
            assert(all[i as int] == lines@[i as int]@);
            assert(all.take(i + 1).drop_last() =~= all.take(i as int));
            assert(all.take(i + 1).last() == all[i as int]);
        }
        let ghost before = section_views(out@);
        let line = trim(lines[i]);
        if line.len() == 0 || starts_with(line, "//") {
        } else if starts_with(line, "[") && ends_with(line, "]") {
            proof {
                lemma_brackets(line@);
            }
            let name = slice_subrange(line, 1, line.len() - 1);
            out.push(Section { name, lines: Vec::new() });
            assert(texts(out@.last().lines@) =~= Seq::<Seq<char>>::empty());
            assert(section_views(out@) =~= sections(all.take(i + 1)));
        } else if out.len() > 0 {
            let mut last = out.pop().unwrap();
            let ghost lines_before = texts(last.lines@);
            assert(section_views(out@) =~= before.drop_last());
            assert(last.model() == before.last());
            last.lines.push(line);
            assert(texts(last.lines@) =~= lines_before.push(line@));
            out.push(last);
            assert(section_views(out@) =~= sections(all.take(i + 1)));
        }
        i = i + 1;
    }
    assert(all.take(i as int) =~= all);
    out
}

/// A header has two ends.
proof fn lemma_brackets(line: Seq<char>)
    requires
        begins_with(line, "["@),
        ends_in(line, "]"@),
    ensures
        line.len() >= 2,
{
    reveal_strlit("[");
    reveal_strlit("]");
    assert(line.take(1)[0] == '[');
    assert(line.skip(line.len() - 1)[0] == ']');
}

/// The lines of the first section of a name.
pub fn section<'a, 'b>(all: &'b [Section<'a>], name: &str) -> (r: &'b [&'a [char]])
    ensures
        texts(r@) == lines_of(section_views(all@), name@),
{
    let ghost views = section_views(all@);
    let mut i: usize = 0;
    assert(views.skip(0) =~= views);
    while i < all.len()
        invariant
            i <= all@.len(),
            views == section_views(all@),
            lines_of(views, name@) == lines_of(views.skip(i as int), name@),
        decreases all@.len() - i,
    {
        proof {
            assert(views.skip(i as int)[0] == all@[i as int].model());
            assert(views.skip(i as int).skip(1) =~= views.skip(i + 1));
        }
        if is_word(all[i].name, name) {
            return all[i].lines.as_slice();
        }
        i = i + 1;
    }
    let none: &'b [&'a [char]] = &[];
    assert(texts(none@) =~= Seq::<Seq<char>>::empty());
    none
}

/// The value of the first line that assigns a key.
pub fn kv<'a>(lines: &[&'a [char]], key: &str) -> (r: Option<&'a [char]>)
    ensures
        match r {
            Some(v) => value_of(texts(lines@), key@) == Some(v@),
            None => value_of(texts(lines@), key@) is None,
        },
{
    let ghost all = texts(lines@);
    let mut i: usize = 0;
    assert(all.skip(0) =~= all);
    while i < lines.len()
        invariant
            i <= lines@.len(),
            all == texts(lines@),
            value_of(all, key@) == value_of(all.skip(i as int), key@),
        decreases lines@.len() - i,
    {
        let line = lines[i];
        proof {
            assert(all.skip(i as int)[0] == line@);
            assert(all.skip(i as int).skip(1) =~= all.skip(i + 1));
            assert(line@.skip(0) =~= line@);
        }
        let k = find(line, 0, ':');
        if k < line.len() {
            let head = slice_subrange(line, 0, k);
            assert(head@ =~= line@.take(k as int));
            if is_word(trim(head), key) {
                let tail = slice_subrange(line, k + 1, line.len());
                assert(tail@ =~= line@.skip(k + 1));
                return Some(trim(tail));
            }
        }
        i = i + 1;
    }
    None
}

/// A line of the timing section.
#[derive(Clone, Copy, Debug)]
pub enum TimingPoint {
    /// Sets a tempo: a meter, and the length of a beat in ticks.
    Uninherited { time: Option<i128>, beat: i128, meter: i64 },
    /// Sets a scroll velocity, by the negative of its hundredfold inverse.
    Inherited { time: Option<i128>, beat: Option<i128> },
}

/// The integer in part `i`; `default` where there is none.
pub open spec fn integer_part(parts: Seq<Seq<char>>, i: int, default: int) -> int {
    if i < parts.len() {
        match signed_value(parts[i]) {
            Some(v) if i64::MIN <= v <= i64::MAX => v,
            _ => default,
        }
    } else {
        default
    }
}

/// The parts of a line between commas, trimmed.
pub open spec fn parts_of(line: Seq<char>) -> Seq<Seq<char>> {
    split(line, ',').map_values(|p: Seq<char>| trimmed(p))
}

/// What a line of the timing section sets.
pub open spec fn timing_point(line: Seq<char>) -> Option<TimingPoint> {
    let parts = parts_of(line);
    if parts.len() < 2 {
        None
    } else {
        let time = ticks_in(parts[0]);
        let beat = ticks_in(parts[1]);
        if integer_part(parts, 6, 1) == 1 {
            Some(
                TimingPoint::Uninherited {
                    time,
                    beat: match beat {
                        Some(b) if b > 0 => b,
                        _ => 0,
                    },
                    meter: integer_part(parts, 2, 4) as i64,
                },
            )
        } else if beat != Some(0i128) {
            Some(TimingPoint::Inherited { time, beat })
        } else {
            None
        }
    }
}

/// What the lines of the timing section set.
pub open spec fn timing_points(lines: Seq<Seq<char>>) -> Seq<TimingPoint>
    decreases lines.len(),
{
    if lines.len() == 0 {
        Seq::empty()
    } else {
        let before = timing_points(lines.drop_last());
        match timing_point(lines.last()) {
            Some(p) => before.push(p),
            None => before,
        }
    }
}

/// A note of a file: where it lies and when it is pressed, in milliseconds;
/// for a hold also when it is let go. What cannot be read is none.
#[derive(Clone, Copy, Debug)]
pub struct Note {
    pub x: Option<i128>,
    pub time: Option<i64>,
    pub end: Option<i64>,
}

/// The milliseconds of a number, rounded down, where it is one.
pub open spec fn whole_ms(s: Seq<char>) -> Option<i64> {
    match ticks_in(s) {
        Some(t) => Some((t as int / TICKS as int) as i64),
        None => None,
    }
}

/// Whether bit 7 of a note's kind is set.
pub open spec fn is_hold(kind: int) -> bool {
    (kind / 128) % 2 == 1
}

/// A line of the notes section.
pub open spec fn note_of(line: Seq<char>) -> Option<Note> {
    let parts = parts_of(line);
    if parts.len() < 5 {
        None
    } else {
        let time = whole_ms(parts[2]);
        let end = if parts.len() > 5 && parts[5].len() > 0 && decimal(
            split(parts[5], ':')[0],
        ) is Some {
            whole_ms(split(parts[5], ':')[0])
        } else {
            time
        };
        Some(
            Note {
                x: ticks_in(parts[0]),
                time,
                end: if is_hold(integer_part(parts, 3, 0)) {
                    end
                } else {
                    None
                },
            },
        )
    }
}

/// The lines of the notes section.
pub open spec fn notes_of(lines: Seq<Seq<char>>) -> Seq<Note>
    decreases lines.len(),
{
    if lines.len() == 0 {
        Seq::empty()
    } else {
        let before = notes_of(lines.drop_last());
        match note_of(lines.last()) {
            Some(n) => before.push(n),
            None => before,
        }
    }
}

fn read_ms(s: &[char]) -> (r: Option<i64>)
    ensures
        r == whole_ms(s@),
{
    match read_ticks(s) {
        Some(t) => Some(floor_div(t, TICKS) as i64),
        None => None,
    }
}

fn trimmed_parts<'a>(line: &'a [char]) -> (r: Vec<&'a [char]>)
    ensures
        texts(r@) == parts_of(line@),
{
    let raw = split_on(line, ',');
    let ghost pieces = split(line@, ',');
    let mut out: Vec<&'a [char]> = Vec::new();
    let mut i: usize = 0;
    while i < raw.len()
        invariant
            i <= raw@.len(),
            texts(raw@) == pieces,
            out@.len() == i,
            forall|j: int| 0 <= j < i ==> (#[trigger] out@[j])@ == trimmed(pieces[j]),
        decreases raw@.len() - i,
    {
        assert(pieces[i as int] == raw@[i as int]@);
        out.push(trim(raw[i]));
        i = i + 1;
    }
    assert(texts(out@) =~= parts_of(line@));
    out
}

fn read_integer(parts: &[&[char]], i: usize, default: i64) -> (r: i64)
    ensures
        r == integer_part(texts(parts@), i as int, default as int),
{
    if i < parts.len() {
        assert(texts(parts@)[i as int] == parts@[i as int]@);
        match parse_signed(parts[i]) {
            Some(v) => v,
            None => default,
        }
    } else {
        default
    }
}

fn read_timing_point(line: &[char]) -> (r: Option<TimingPoint>)
    ensures
        r == timing_point(line@),
{
    let parts = trimmed_parts(line);
    let ghost pieces = parts_of(line@);
    assert(pieces.len() == parts@.len());
    if parts.len() < 2 {
        return None;
    }
    assert(pieces[0] == parts@[0]@);
    assert(pieces[1] == parts@[1]@);
    let time = read_ticks(parts[0]);
    let beat = read_ticks(parts[1]);
    if read_integer(parts.as_slice(), 6, 1) == 1 {
        let length: i128 = match beat {
            Some(b) => {
                if b > 0 {
                    b
                } else {
                    0
                }
            },
            None => 0,
        };
        let meter = read_integer(parts.as_slice(), 2, 4);
        return Some(TimingPoint::Uninherited { time, beat: length, meter });
    }
    let still = match beat {
        Some(b) => b == 0,
        None => false,
    };
    if still {
        None
    } else {
        Some(TimingPoint::Inherited { time, beat })
    }
}

/// What the lines of the timing section set.
pub fn parse_timing_points(lines: &[&[char]]) -> (r: Vec<TimingPoint>)
    ensures
        r@ == timing_points(texts(lines@)),
{
    let mut out: Vec<TimingPoint> = Vec::new();
    let ghost all = texts(lines@);
    let mut i: usize = 0;
    assert(all.take(0) =~= Seq::<Seq<char>>::empty());
    while i < lines.len()
        invariant
            i <= lines@.len(),
            all == texts(lines@),
            out@ == timing_points(all.take(i as int)),
        decreases lines@.len() - i,
    {
        proof {
            assert(all[i as int] == lines@[i as int]@);
            assert(all.take(i + 1).drop_last() =~= all.take(i as int));
        }
        if let Some(p) = read_timing_point(lines[i]) {
            out.push(p);
        }
        i = i + 1;
    }
    assert(all.take(i as int) =~= all);
    out
}

pub(crate) fn holds(kind: i64) -> (r: bool)
    ensures
        r == is_hold(kind as int),
{
    if kind >= 0 {
        (kind / 128) % 2 == 1
    } else {
        let mirror: i64 = -(kind + 1);
        (mirror / 128) % 2 == 0
    }
}

fn read_note(line: &[char]) -> (r: Option<Note>)
    ensures
        r == note_of(line@),
{
    let parts = trimmed_parts(line);
    let ghost pieces = parts_of(line@);
    assert(pieces.len() == parts@.len());
    if parts.len() < 5 {
        return None;
    }
    assert(pieces[0] == parts@[0]@);
    assert(pieces[2] == parts@[2]@);
    let time = read_ms(parts[2]);
    let mut end: Option<i64> = None;
    if holds(read_integer(parts.as_slice(), 3, 0)) {
        end = time;
        if parts.len() > 5 {
            assert(pieces[5] == parts@[5]@);
            if parts[5].len() > 0 {
                let head = split_on(parts[5], ':');
                assert(texts(head@)[0] == head@[0]@);
                if parse_decimal(head[0]).is_some() {
                    end = read_ms(head[0]);
                }
            }
        }
    }
    Some(Note { x: read_ticks(parts[0]), time, end })
}

/// The lines of the notes section.
pub fn parse_hit_objects(lines: &[&[char]]) -> (r: Vec<Note>)
    ensures
        r@ == notes_of(texts(lines@)),
{
    let mut out: Vec<Note> = Vec::new();
    let ghost all = texts(lines@);
    let mut i: usize = 0;
    assert(all.take(0) =~= Seq::<Seq<char>>::empty());
    while i < lines.len()
        invariant
            i <= lines@.len(),
            all == texts(lines@),
            out@ == notes_of(all.take(i as int)),
        decreases lines@.len() - i,
    {
        proof {
            assert(all[i as int] == lines@[i as int]@);
            assert(all.take(i + 1).drop_last() =~= all.take(i as int));
        }
        if let Some(n) = read_note(lines[i]) {
            out.push(n);
        }
        i = i + 1;
    }
    assert(all.take(i as int) =~= all);
    out
}

/// The tempos that timing points set: when, and how long a beat is.
pub open spec fn tempos(points: Seq<TimingPoint>) -> Seq<(Option<i128>, i128)>
    decreases points.len(),
{
    if points.len() == 0 {
        Seq::empty()
    } else {
        let before = tempos(points.drop_last());
        match points.last() {
            TimingPoint::Uninherited { time, beat, .. } => before.push((time, beat)),
            TimingPoint::Inherited { .. } => before,
        }
    }
}

/// How long tempo `j` lasts, where that can be told: until the next; the last
/// one until the end, and no time if it starts behind it or nobody knows when.
pub open spec fn tempo_span(t: Seq<(Option<i128>, i128)>, end: int, j: int) -> Option<int> {
    if j + 1 < t.len() {
        match (t[j].0, t[j + 1].0) {
            (Some(a), Some(b)) => Some(b - a),
            _ => None,
        }
    } else {
        match t[j].0 {
            Some(a) if end > a => Some(end - a),
            _ => Some(0),
        }
    }
}

/// How long the first `n` tempos with a beat length last together, where that
/// can be told of each.
pub open spec fn beat_span(
    t: Seq<(Option<i128>, i128)>,
    end: int,
    beat: i128,
    n: nat,
) -> Option<int>
    decreases n,
{
    if n == 0 {
        Some(0)
    } else {
        let before = beat_span(t, end, beat, (n - 1) as nat);
        if t[n - 1].1 == beat {
            match (before, tempo_span(t, end, n - 1)) {
                (Some(a), Some(b)) => Some(a + b),
                _ => None,
            }
        } else {
            before
        }
    }
}

/// Whether it can be told how long the beat length of tempo `i` lasts.
pub open spec fn is_told(t: Seq<(Option<i128>, i128)>, end: int, i: int) -> bool {
    beat_span(t, end, t[i].1, t.len()) is Some
}

/// Which of the first `n` tempos has the beat length that lasts longest; the
/// first of equal ones. One of which that cannot be told ends the search.
pub open spec fn longest_tempo(t: Seq<(Option<i128>, i128)>, end: int, n: nat) -> int
    decreases n,
{
    if n <= 1 {
        0
    } else {
        let best = longest_tempo(t, end, (n - 1) as nat);
        if (forall|i: int| 0 <= i < n ==> #[trigger] is_told(t, end, i)) && beat_span(
            t,
            end,
            t[n - 1].1,
            t.len(),
        )->0 > beat_span(t, end, t[best].1, t.len())->0 {
            n - 1
        } else {
            best
        }
    }
}

/// What timing points say of tempo.
pub open spec fn bpm_items(points: Seq<TimingPoint>) -> Seq<TimeItem<BpmData>>
    decreases points.len(),
{
    if points.len() == 0 {
        Seq::empty()
    } else {
        let before = bpm_items(points.drop_last());
        match points.last() {
            TimingPoint::Uninherited { time, beat, meter } => before.push(
                TimeItem { time, data: BpmData { meter, ms_per_beat: beat } },
            ),
            TimingPoint::Inherited { .. } => before,
        }
    }
}

/// The beat length of files without timing points, in ticks: half a second.
pub const DEFAULT_BEAT: i128 = 500_000_000_000_000;

/// The number of columns that a file asks for; four where it does not say.
pub open spec fn keys_of(size: Option<Seq<char>>) -> int {
    match size {
        Some(v) => match decimal(v) {
            Some(Number::Ticks(t)) => if t < TICKS {
                1
            } else if t as int / TICKS as int > usize::MAX {
                usize::MAX as int
            } else {
                t as int / TICKS as int
            },
            _ => 4,
        },
        None => 4,
    }
}

/// When the last row is, in ticks; before all tempos where rows have no time.
pub open spec fn end_time(rows: Seq<RowView>, timed: bool) -> int {
    if timed {
        rows.last().time * TICKS
    } else {
        -LIMIT
    }
}

/// The chart of a file.
pub open spec fn chart_of(text: Seq<char>) -> Result<ChartView, ChartError> {
    let all = sections(split(text, '\n'));
    let keys = keys_of(value_of(lines_of(all, "Difficulty"@), "CircleSize"@)) as nat;
    let points = timing_points(lines_of(all, "TimingPoints"@));
    let notes = notes_of(lines_of(all, "HitObjects"@));
    let timed = notes.len() > 0 && notes[0].time is Some;
    match rows_of(notes, keys) {
        Err(x) => Err(x),
        Ok(rows) => if rows.len() == 0 {
            Err(ChartError::NoNotes)
        } else if points.len() == 0 {
            Ok(
                ChartView {
                    keys,
                    timed,
                    notes: rows,
                    bpm: seq![
                        TimeItem {
                            time: Some(0),
                            data: BpmData { meter: 4, ms_per_beat: DEFAULT_BEAT },
                        },
                    ],
                    sv: seq![TimeItem { time: Some(0), data: usual_speed() }],
                },
            )
        } else {
            let t = tempos(points);
            if t.len() == 0 {
                Err(ChartError::NoBpmPoints)
            } else {
                let end = end_time(rows, timed);
                Ok(
                    ChartView {
                        keys,
                        timed,
                        notes: rows,
                        bpm: bpm_items(points),
                        sv: cleaned(
                            speed_items(points, t[longest_tempo(t, end, t.len())].1),
                        ),
                    },
                )
            }
        },
    }
}

proof fn lemma_whole_ms(s: Seq<char>)
    ensures
        whole_ms(s) matches Some(t) ==> -TIME_LIMIT <= t <= TIME_LIMIT,
{
    lemma_decimal_bound(s);
}

proof fn lemma_notes_valid(lines: Seq<Seq<char>>)
    ensures
        notes_valid(notes_of(lines)),
    decreases lines.len(),
{
    if lines.len() > 0 {
        lemma_notes_valid(lines.drop_last());
        let parts = parts_of(lines.last());
        lemma_whole_ms(parts[2]);
        lemma_whole_ms(split(parts[5], ':')[0]);
        let before = notes_of(lines.drop_last());
        let all = notes_of(lines);
        assert forall|i: int| 0 <= i < all.len() implies note_valid(#[trigger] all[i]) by {
            if i < before.len() {
                assert(all[i] == before[i]);
            }
        }
    }
}

proof fn lemma_bpm_items(points: Seq<TimingPoint>)
    requires
        forall|i: int| 0 <= i < points.len() ==> point_valid(#[trigger] points[i]),
    ensures
        forall|i: int|
            0 <= i < bpm_items(points).len() ==> 0 <= (#[trigger] bpm_items(
                points,
            )[i]).data.ms_per_beat <= LIMIT,
    decreases points.len(),
{
    if points.len() > 0 {
        lemma_bpm_items(points.drop_last());
        assert(point_valid(points[points.len() - 1]));
        let before = bpm_items(points.drop_last());
        let all = bpm_items(points);
        assert forall|i: int| 0 <= i < all.len() implies 0 <= (#[trigger] all[i]).data.ms_per_beat
            <= LIMIT by {
            if i < before.len() {
                assert(all[i] == before[i]);
            }
        }
    }
}

proof fn lemma_points(lines: Seq<Seq<char>>)
    ensures
        forall|i: int|
            0 <= i < timing_points(lines).len() ==> point_valid(#[trigger] timing_points(lines)[i]),
    decreases lines.len(),
{
    if lines.len() > 0 {
        lemma_points(lines.drop_last());
        let parts = parts_of(lines.last());
        lemma_decimal_bound(parts[0]);
        lemma_decimal_bound(parts[1]);
        let before = timing_points(lines.drop_last());
        let all = timing_points(lines);
        assert forall|i: int| 0 <= i < all.len() implies point_valid(#[trigger] all[i]) by {
            if i < before.len() {
                assert(all[i] == before[i]);
            }
        }
    }
}

/// Whether a time lies within the limits of numbers.
pub open spec fn ticks_valid(t: Option<i128>) -> bool {
    match t {
        Some(t) => -LIMIT <= t <= LIMIT,
        None => true,
    }
}

/// Whether what a timing point says lies within the limits of numbers.
pub open spec fn point_valid(p: TimingPoint) -> bool {
    match p {
        TimingPoint::Uninherited { time, beat, .. } => ticks_valid(time) && 0 <= beat <= LIMIT,
        TimingPoint::Inherited { time, beat } => ticks_valid(time) && ticks_valid(beat),
    }
}

/// Collects tempos.
fn find_tempos(points: &[TimingPoint]) -> (r: Vec<(Option<i128>, i128)>)
    requires
        forall|i: int| 0 <= i < points@.len() ==> point_valid(#[trigger] points@[i]),
    ensures
        r@ == tempos(points@),
        r@.len() <= points@.len(),
        forall|i: int|
            0 <= i < r@.len() ==> ticks_valid((#[trigger] r@[i]).0) && 0 <= r@[i].1 <= LIMIT,
{
    let mut out: Vec<(Option<i128>, i128)> = Vec::new();
    let mut i: usize = 0;
    assert(points@.take(0) =~= Seq::<TimingPoint>::empty());
    while i < points.len()
        invariant
            i <= points@.len(),
            forall|j: int| 0 <= j < points@.len() ==> point_valid(#[trigger] points@[j]),
            out@ == tempos(points@.take(i as int)),
            out@.len() <= i,
            forall|j: int|
                0 <= j < out@.len() ==> ticks_valid((#[trigger] out@[j]).0) && 0 <= out@[j].1
                    <= LIMIT,
        decreases points@.len() - i,
    {
        assert(points@.take(i + 1).drop_last() =~= points@.take(i as int));
        assert(point_valid(points@[i as int]));
        if let TimingPoint::Uninherited { time, beat, .. } = points[i] {
            out.push((time, beat));
        }
        i = i + 1;
    }
    assert(points@.take(i as int) =~= points@);
    out
}

fn span_of(t: &[(Option<i128>, i128)], end: i128, j: usize) -> (r: Option<i128>)
    requires
        j < t@.len(),
        forall|i: int| 0 <= i < t@.len() ==> ticks_valid((#[trigger] t@[i]).0),
        -LIMIT <= end <= LIMIT,
    ensures
        match r {
            Some(s) => tempo_span(t@, end as int, j as int) == Some(s as int) && -2 * LIMIT <= s
                <= 2 * LIMIT,
            None => tempo_span(t@, end as int, j as int) is None,
        },
{
    assert(ticks_valid(t@[j as int].0));
    if j < t.len() - 1 {
        assert(ticks_valid(t@[j + 1].0));
        match (t[j].0, t[j + 1].0) {
            (Some(a), Some(b)) => Some(b - a),
            _ => None,
        }
    } else {
        match t[j].0 {
            Some(a) => {
                if end > a {
                    Some(end - a)
                } else {
                    Some(0)
                }
            },
            None => Some(0),
        }
    }
}

fn total_span(t: &[(Option<i128>, i128)], end: i128, beat: i128) -> (r: Option<Wide>)
    requires
        forall|i: int| 0 <= i < t@.len() ==> ticks_valid((#[trigger] t@[i]).0),
        -LIMIT <= end <= LIMIT,
    ensures
        match r {
            Some(s) => beat_span(t@, end as int, beat, t@.len()) == Some(s@),
            None => beat_span(t@, end as int, beat, t@.len()) is None,
        },
{
    let mut sum: Option<Wide> = Some(Wide::zero());
    let mut n: usize = 0;
    while n < t.len()
        invariant
            n <= t@.len(),
            forall|i: int| 0 <= i < t@.len() ==> ticks_valid((#[trigger] t@[i]).0),
            -LIMIT <= end <= LIMIT,
            match sum {
                Some(s) => beat_span(t@, end as int, beat, n as nat) == Some(s@) && -n
                    * 0x2_0000_0000 <= s.high && s.high <= n * 0x2_0000_0000,
                None => beat_span(t@, end as int, beat, n as nat) is None,
            },
        decreases t@.len() - n,
    {
        if t[n].1 == beat {
            sum = match (sum, span_of(t, end, n)) {
                (Some(s), Some(x)) => Some(s.plus(x)),
                _ => None,
            };
        }
        n = n + 1;
    }
    sum
}

/// The beat length that lasts longest.
fn common_beat(t: &[(Option<i128>, i128)], end: i128) -> (r: i128)
    requires
        0 < t@.len(),
        forall|i: int| 0 <= i < t@.len() ==> ticks_valid((#[trigger] t@[i]).0),
        -LIMIT <= end <= LIMIT,
    ensures
        r == t@[longest_tempo(t@, end as int, t@.len())].1,
        exists|i: int| 0 <= i < t@.len() && r == (#[trigger] t@[i]).1,
{
    let mut best: usize = 0;
    let mut longest = match total_span(t, end, t[0].1) {
        Some(s) => s,
        None => {
            assert(!is_told(t@, end as int, 0));
            proof {
                lemma_untold(t@, end as int, 0, t@.len());
            }
            return t[0].1;
        },
    };
    let mut n: usize = 1;
    assert(is_told(t@, end as int, 0));
    while n < t.len()
        invariant
            1 <= n <= t@.len(),
            forall|i: int| 0 <= i < t@.len() ==> ticks_valid((#[trigger] t@[i]).0),
            -LIMIT <= end <= LIMIT,
            best < n,
            best == longest_tempo(t@, end as int, n as nat),
            forall|i: int| 0 <= i < n ==> #[trigger] is_told(t@, end as int, i),
            beat_span(t@, end as int, t@[best as int].1, t@.len()) == Some(longest@),
        decreases t@.len() - n,
    {
        match total_span(t, end, t[n].1) {
            Some(span) => {
                assert(is_told(t@, end as int, n as int));
                if longest.below(span) {
                    best = n;
                    longest = span;
                }
            },
            None => {
                assert(!is_told(t@, end as int, n as int));
                proof {
                    lemma_untold(t@, end as int, n as int, t@.len());
                }
                return t[best].1;
            },
        }
        n = n + 1;
    }
    t[best].1
}

proof fn lemma_longest_tempo(t: Seq<(Option<i128>, i128)>, end: int, n: nat)
    requires
        0 < n <= t.len(),
    ensures
        0 <= longest_tempo(t, end, n) < n,
    decreases n,
{
    if n > 1 {
        lemma_longest_tempo(t, end, (n - 1) as nat);
    }
}

proof fn lemma_tempos(points: Seq<TimingPoint>)
    requires
        forall|i: int| 0 <= i < points.len() ==> point_valid(#[trigger] points[i]),
    ensures
        forall|i: int| 0 <= i < tempos(points).len() ==> 0 <= (#[trigger] tempos(points)[i]).1 <= LIMIT,
    decreases points.len(),
{
    if points.len() > 0 {
        let front = points.drop_last();
        assert(point_valid(points[points.len() - 1]));
        assert forall|i: int| 0 <= i < front.len() implies point_valid(#[trigger] front[i]) by {
            assert(point_valid(points[i]));
        }
        lemma_tempos(front);
        let (before, all) = (tempos(front), tempos(points));
        assert forall|i: int| 0 <= i < all.len() implies 0 <= (#[trigger] all[i]).1 <= LIMIT by {
            if i < before.len() {
                assert(all[i] == before[i]);
            }
        }
    }
}

/// Behind a tempo that cannot be told none is taken.
proof fn lemma_untold(t: Seq<(Option<i128>, i128)>, end: int, k: int, n: nat)
    requires
        0 <= k < n,
        !is_told(t, end, k),
    ensures
        longest_tempo(t, end, n) == longest_tempo(t, end, k as nat),
    decreases n,
{
    if n > 1 {
        if k < n - 1 {
            lemma_untold(t, end, k, (n - 1) as nat);
        }
    }
}

fn tempo_items(points: &[TimingPoint]) -> (r: Vec<TimeItem<BpmData>>)
    ensures
        r@ == bpm_items(points@),
{
    let mut out: Vec<TimeItem<BpmData>> = Vec::new();
    let mut i: usize = 0;
    assert(points@.take(0) =~= Seq::<TimingPoint>::empty());
    while i < points.len()
        invariant
            i <= points@.len(),
            out@ == bpm_items(points@.take(i as int)),
        decreases points@.len() - i,
    {
        assert(points@.take(i + 1).drop_last() =~= points@.take(i as int));
        if let TimingPoint::Uninherited { time, beat, meter } = points[i] {
            out.push(TimeItem { time, data: BpmData { meter, ms_per_beat: beat } });
        }
        i = i + 1;
    }
    assert(points@.take(i as int) =~= points@);
    out
}

fn key_count(size: Option<&[char]>) -> (r: usize)
    ensures
        r == keys_of(
            match size {
                Some(v) => Some(v@),
                None => None,
            },
        ),
        0 < r,
{
    match size {
        Some(v) => match parse_decimal(v) {
            Some(Number::Ticks(t)) => {
                if t < TICKS {
                    1
                } else {
                    let k: i128 = t / TICKS;
                    if k > usize::MAX as i128 {
                        usize::MAX
                    } else {
                        k as usize
                    }
                }
            },
            _ => 4,
        },
        None => 4,
    }
}

/// Every chart that can be read has rows, as wide as it has keys and in order
/// of time.
pub proof fn law_chart_is_valid(text: Seq<char>)
    ensures
        chart_of(text) matches Ok(c) ==> c.valid(),
{
    let all = sections(split(text, '\n'));
    let size = value_of(lines_of(all, "Difficulty"@), "CircleSize"@);
    let keys = keys_of(size);
    assert(keys > 0);
    let lines = lines_of(all, "HitObjects"@);
    lemma_notes_valid(lines);
    law_rows_are_in_order(notes_of(lines), keys as nat);
    let timing = lines_of(all, "TimingPoints"@);
    let points = timing_points(timing);
    lemma_points(timing);
    lemma_bpm_items(points);
    let t = tempos(points);
    if t.len() > 0 {
        let notes = notes_of(lines);
        let timed = notes.len() > 0 && notes[0].time is Some;
        let end = end_time(rows_of(notes, keys as nat)->Ok_0, timed);
        let best = longest_tempo(t, end, t.len());
        lemma_longest_tempo(t, end, t.len());
        lemma_tempos(points);
        assert(0 <= t[best].1 <= LIMIT);
        lemma_cleaned_valid(points, t[best].1);
    }
}

/// Reads the characters of a beatmap file as a chart.
pub(crate) fn parse_chart(text: &[char]) -> (r: Result<Chart, ChartError>)
    ensures
        match r {
            Ok(c) => chart_of(text@) == Ok::<ChartView, ChartError>(c@) && c@.valid(),
            Err(x) => chart_of(text@) == Err::<ChartView, ChartError>(x),
        },
{
    let all = parse_sections(text);
    let keys: usize = key_count(kv(section(all.as_slice(), "Difficulty"), "CircleSize"));
    let points = parse_timing_points(section(all.as_slice(), "TimingPoints"));
    let notes = parse_hit_objects(section(all.as_slice(), "HitObjects"));
    let ghost views = section_views(all@);
    proof {
        lemma_notes_valid(lines_of(views, "HitObjects"@));
        lemma_points(lines_of(views, "TimingPoints"@));
        law_chart_is_valid(text@);
    }
    let timed = notes.len() > 0 && notes[0].time.is_some();
    let rows = match convert_hit_objects(notes.as_slice(), keys) {
        Ok(rows) => rows,
        Err(x) => {
            return Err(x);
        },
    };
    if rows.len() == 0 {
        return Err(ChartError::NoNotes);
    }
    if points.len() == 0 {
        let bpm: Vec<TimeItem<BpmData>> = vec![
            TimeItem { time: Some(0i128), data: BpmData { meter: 4, ms_per_beat: DEFAULT_BEAT } },
        ];
        let usual = Speed { tempo: Ratio { num: 1, den: 1 }, factor: -HUNDRED };
        let sv: Vec<TimeItem<Speed>> = vec![TimeItem { time: Some(0i128), data: usual }];
        let c = Chart { keys, timed, notes: rows, bpm, sv };
        proof {
            let view = chart_of(text@)->Ok_0;
            assert(c@.bpm =~= view.bpm);
            assert(c@.sv =~= view.sv);
            assert(c@ =~= view);
        }
        return Ok(c);
    }
    let t = find_tempos(points.as_slice());
    if t.len() == 0 {
        return Err(ChartError::NoBpmPoints);
    }
    let last: usize = rows.len() - 1;
    assert(row_views(rows@).last() == rows@[last as int]@);
    let end: i128 = if timed {
        rows[last].time as i128 * TICKS
    } else {
        -LIMIT
    };
    let common = common_beat(t.as_slice(), end);
    let bpm = tempo_items(points.as_slice());
    let speeds = find_speeds(points.as_slice(), common);
    let sv = cleaned_sv(speeds.as_slice());
    let c = Chart { keys, timed, notes: rows, bpm, sv };
    assert(chart_of(text@) == Ok::<ChartView, ChartError>(c@));
    Ok(c)
}

/// Reads a beatmap file as a chart.
pub fn parse_osu_mania(text: &str) -> (r: Result<Chart, ChartError>)
    ensures
        match r {
            Ok(c) => chart_of(text@) == Ok::<ChartView, ChartError>(c@) && c@.valid(),
            Err(x) => chart_of(text@) == Err::<ChartView, ChartError>(x),
        },
{
    let chars = to_chars(text);
    parse_chart(chars.as_slice())
}

} // verus!
