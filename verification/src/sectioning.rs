//! How the lines of a file become sections, timing points, notes and columns.

use crate::board::{rows_of, ChartError};
use crate::chart::{BpmData, TimeItem};
use crate::counting::how_many;
use crate::moving::lacks;
use crate::number::{decimal, signed_value, ticks_in, Number, LIMIT, TICKS};
use crate::parser::{
    bpm_items, chart_of, keys_of, lines_of, note_of, notes_of, parts_of, sections, tempos, timing_point,
    timing_points, value_of, whole_ms, SectionView, TimingPoint,
};
use crate::text::{begins_with, ends_in, lemma_position_is, position, split, trimmed};
use vstd::prelude::*;

verus! {

/// Whether a line says something: it is neither empty nor a comment.
pub open spec fn is_said(line: Seq<char>) -> bool {
    trimmed(line).len() > 0 && !begins_with(trimmed(line), "//"@)
}

/// Whether line `i` opens a section: it stands in brackets.
pub open spec fn opens(lines: Seq<Seq<char>>, i: int) -> bool {
    is_said(lines[i]) && begins_with(trimmed(lines[i]), "["@) && ends_in(trimmed(lines[i]), "]"@)
}

/// Whether line `i` says something and stands behind line `h`.
pub open spec fn follows(lines: Seq<Seq<char>>, h: int, i: int) -> bool {
    h < i && is_said(lines[i]) && !opens(lines, i)
}

/// How many sections the first `n` lines open.
pub open spec fn opened(lines: Seq<Seq<char>>, n: int) -> int {
    how_many(n as nat, |i: int| opens(lines, i)) as int
}

/// How many of the first `n` lines say something behind line `h`.
pub open spec fn following(lines: Seq<Seq<char>>, h: int, n: int) -> int {
    how_many(n as nat, |i: int| follows(lines, h, i)) as int
}

proof fn lemma_opened(lines: Seq<Seq<char>>, n: int)
    requires
        0 <= n <= lines.len(),
    ensures
        sections(lines.take(n)).len() == opened(lines, n),
    decreases n,
{
    if n > 0 {
        lemma_opened(lines, n - 1);
        assert(lines.take(n).drop_last() =~= lines.take(n - 1));
    }
}

proof fn lemma_opened_grows(lines: Seq<Seq<char>>, h: int, n: int)
    requires
        0 <= h < n,
        opens(lines, h),
    ensures
        0 <= opened(lines, h) < opened(lines, n),
    decreases n,
{
    if n > h + 1 {
        lemma_opened_grows(lines, h, n - 1);
    }
}

proof fn lemma_following_starts(lines: Seq<Seq<char>>, h: int, n: int)
    requires
        0 <= n <= h + 1,
    ensures
        following(lines, h, n) == 0,
    decreases n,
{
    if n > 0 {
        lemma_following_starts(lines, h, n - 1);
    }
}

proof fn lemma_following_grows(lines: Seq<Seq<char>>, h: int, i: int, n: int)
    requires
        0 <= i < n,
        follows(lines, h, i),
    ensures
        0 <= following(lines, h, i) < following(lines, h, n),
    decreases n,
{
    if n > i + 1 {
        lemma_following_grows(lines, h, i, n - 1);
    }
}

proof fn lemma_section(lines: Seq<Seq<char>>, h: int, n: int)
    requires
        0 <= h < n <= lines.len(),
        opens(lines, h),
        forall|i: int| h < i < n ==> !#[trigger] opens(lines, i),
    ensures
        ({
            let s = sections(lines.take(n));
            let header = trimmed(lines[h]);
            &&& s.len() == opened(lines, h) + 1
            &&& s.last().name == header.subrange(1, header.len() - 1)
            &&& s.last().lines.len() == following(lines, h, n)
            &&& forall|i: int|
                #![trigger follows(lines, h, i)]
                h < i < n && follows(lines, h, i) ==> s.last().lines[following(lines, h, i)]
                    == trimmed(lines[i])
        }),
    decreases n,
{
    assert(lines.take(n).drop_last() =~= lines.take(n - 1));
    assert(lines.take(n).last() == lines[n - 1]);
    if n == h + 1 {
        lemma_opened(lines, h);
        lemma_following_starts(lines, h, n);
    } else {
        lemma_section(lines, h, n - 1);
        assert(!opens(lines, n - 1));
        let (before, s) = (sections(lines.take(n - 1)), sections(lines.take(n)));
        assert forall|i: int|
            #![trigger follows(lines, h, i)]
            h < i < n && follows(lines, h, i) implies s.last().lines[following(lines, h, i)]
            == trimmed(lines[i]) by {
            if i < n - 1 {
                lemma_following_grows(lines, h, i, n - 1);
            }
        }
    }
}

proof fn lemma_section_stays(lines: Seq<Seq<char>>, h: int, m: int, n: int)
    requires
        0 <= h < m < n <= lines.len(),
        opens(lines, h),
        opens(lines, m),
    ensures
        sections(lines.take(n))[opened(lines, h)] == sections(lines.take(m))[opened(lines, h)],
    decreases n,
{
    assert(lines.take(n).drop_last() =~= lines.take(n - 1));
    assert(lines.take(n).last() == lines[n - 1]);
    lemma_opened(lines, m);
    lemma_opened(lines, n - 1);
    lemma_opened_grows(lines, h, m);
    if n > m + 1 {
        lemma_section_stays(lines, h, m, n - 1);
        lemma_opened_grows(lines, m, n - 1);
    }
}

/// Each header opens a section of its name, in their order, and the lines
/// between it and the next, `n`, that say something stand in it in their order,
/// trimmed.
pub proof fn law_lines_fall_into_sections(lines: Seq<Seq<char>>, h: int, n: int, i: int)
    requires
        0 <= h < n <= lines.len(),
        opens(lines, h),
        forall|j: int| h < j < n ==> !#[trigger] opens(lines, j),
        n < lines.len() ==> opens(lines, n),
    ensures
        ({
            let k = opened(lines, h);
            let s = sections(lines)[k];
            let header = trimmed(lines[h]);
            &&& 0 <= k < sections(lines).len() == opened(lines, lines.len() as int)
            &&& s.name == header.subrange(1, header.len() - 1)
            &&& s.lines.len() == following(lines, h, n)
            &&& h < i < n && is_said(lines[i]) ==> 0 <= following(lines, h, i) < s.lines.len()
                && s.lines[following(lines, h, i)] == trimmed(lines[i])
        }),
{
    let all = lines.len() as int;
    assert(lines.take(all) =~= lines);
    lemma_opened(lines, all);
    lemma_opened_grows(lines, h, all);
    lemma_section(lines, h, n);
    if n < all {
        lemma_section_stays(lines, h, n, all);
    }
    if h < i < n && is_said(lines[i]) {
        assert(!opens(lines, i));
        assert(follows(lines, h, i));
        lemma_following_grows(lines, h, i, n);
    }
}

/// The lines of a name are those of the first section of that name; there are
/// none where no section has it.
pub proof fn law_first_section_counts(all: Seq<SectionView>, name: Seq<char>, k: int)
    requires
        0 <= k <= all.len(),
        forall|j: int| 0 <= j < k ==> (#[trigger] all[j]).name != name,
        k < all.len() ==> all[k].name == name,
    ensures
        k < all.len() ==> lines_of(all, name) == all[k].lines,
        k == all.len() ==> lines_of(all, name).len() == 0,
    decreases all.len(),
{
    if all.len() > 0 && k > 0 {
        assert(all[0].name != name);
        let rest = all.skip(1);
        assert forall|j: int| 0 <= j < k - 1 implies (#[trigger] rest[j]).name != name by {
            assert(rest[j] == all[j + 1]);
        }
        law_first_section_counts(rest, name, k - 1);
    }
}

/// Whether a line assigns a key: the key stands before its first colon.
pub open spec fn assigns(line: Seq<char>, key: Seq<char>) -> bool {
    exists|k: int|
        0 <= k < line.len() && line[k] == ':' && lacks(#[trigger] line.take(k), ':') && trimmed(
            line.take(k),
        ) == key
}

pub(crate) proof fn lemma_position_of(line: Seq<char>, k: int)
    requires
        0 <= k < line.len(),
        line[k] == ':',
        lacks(line.take(k), ':'),
    ensures
        position(line, ':') == k,
{
    assert forall|j: int| 0 <= j < k implies #[trigger] line[j] != ':' by {
        assert(line.take(k)[j] == line[j]);
    }
    lemma_position_is(line, ':', k);
}

pub(crate) proof fn lemma_assigns(line: Seq<char>, key: Seq<char>)
    ensures
        assigns(line, key) <==> position(line, ':') < line.len() && trimmed(
            line.take(position(line, ':')),
        ) == key,
{
    if assigns(line, key) {
        let k = choose|k: int|
            0 <= k < line.len() && line[k] == ':' && lacks(#[trigger] line.take(k), ':')
                && trimmed(line.take(k)) == key;
        lemma_position_of(line, k);
    }
    crate::text::lemma_position(line, ':');
    let k = position(line, ':');
    if k < line.len() && trimmed(line.take(k)) == key {
        assert(lacks(line.take(k), ':'));
    }
}

/// The value of a key is what stands behind the first colon of the first line
/// that assigns it, trimmed; there is none where no line does.
pub proof fn law_first_value_counts(lines: Seq<Seq<char>>, key: Seq<char>, i: int, k: int)
    requires
        0 <= i <= lines.len(),
        forall|j: int| 0 <= j < i ==> !assigns(#[trigger] lines[j], key),
        i < lines.len() ==> 0 <= k < lines[i].len() && lines[i][k] == ':' && lacks(
            lines[i].take(k),
            ':',
        ) && trimmed(lines[i].take(k)) == key,
    ensures
        i < lines.len() ==> value_of(lines, key) == Some(trimmed(lines[i].skip(k + 1))),
        i == lines.len() ==> value_of(lines, key) is None,
    decreases lines.len(),
{
    if lines.len() > 0 {
        if i == 0 {
            lemma_position_of(lines[0], k);
        } else {
            assert(!assigns(lines[0], key));
            lemma_assigns(lines[0], key);
            let rest = lines.skip(1);
            assert forall|j: int| 0 <= j < i - 1 implies !assigns(#[trigger] rest[j], key) by {
                assert(rest[j] == lines[j + 1]);
            }
            law_first_value_counts(rest, key, i - 1, k);
        }
    }
}

/// Part `k` of a line between commas, trimmed.
pub open spec fn part(line: Seq<char>, k: int) -> Seq<char> {
    trimmed(split(line, ',')[k])
}

/// Whether a text is so many ticks; an infinite number is as many as fit.
pub open spec fn is_ticks(s: Seq<char>, t: Option<i128>) -> bool {
    match decimal(s) {
        Some(Number::Ticks(x)) => t == Some(x),
        Some(Number::Infinite(negative)) => t matches Some(x) && x == (if negative {
            -10_000_000_000_000_000_000_000_000_000
        } else {
            10_000_000_000_000_000_000_000_000_000
        }),
        _ => t is None,
    }
}

/// Whether a line has another number than `usual` in part `k`.
pub open spec fn says_otherwise(line: Seq<char>, k: int, usual: int) -> bool {
    k < split(line, ',').len() && signed_value(part(line, k)) is Some && i64::MIN <= signed_value(
        part(line, k),
    )->0 <= i64::MAX && signed_value(part(line, k))->0 != usual
}

/// A line of the timing section sets a tempo unless its seventh part is another
/// number than one, and a scroll velocity otherwise, unless its second part is
/// zero. The first part is the time; the second the beat, which for a tempo is
/// positive or nothing; the third the meter, which is four where it is left out.
pub proof fn law_what_timing_lines_set(line: Seq<char>)
    ensures
        ({
            let n = split(line, ',').len();
            &&& n < 2 ==> timing_point(line) is None
            &&& n >= 2 && !says_otherwise(line, 6, 1) ==> (timing_point(line) matches Some(
                TimingPoint::Uninherited { time, beat, meter },
            ) && {
                &&& is_ticks(part(line, 0), time)
                &&& beat > 0 ==> is_ticks(part(line, 1), Some(beat))
                &&& beat <= 0 ==> beat == 0 && forall|b: i128|
                    b > 0 ==> !#[trigger] is_ticks(part(line, 1), Some(b))
                &&& !says_otherwise(line, 2, 4) ==> meter == 4
                &&& says_otherwise(line, 2, 4) ==> signed_value(part(line, 2)) == Some(meter as int)
            })
            &&& n >= 2 && says_otherwise(line, 6, 1) && is_ticks(part(line, 1), Some(0i128))
                ==> timing_point(line) is None
            &&& n >= 2 && says_otherwise(line, 6, 1) && !is_ticks(part(line, 1), Some(0i128))
                ==> (timing_point(line) matches Some(TimingPoint::Inherited { time, beat })
                && is_ticks(part(line, 0), time) && is_ticks(part(line, 1), beat))
        }),
{
    let parts = parts_of(line);
    let n = split(line, ',').len();
    assert(parts.len() == n);
    assert(forall|k: int| 0 <= k < n ==> #[trigger] parts[k] == part(line, k));
    if n >= 2 {
        assert(parts[0] == part(line, 0) && parts[1] == part(line, 1));
    }
    if n > 2 {
        assert(parts[2] == part(line, 2));
    }
    if n > 6 {
        assert(parts[6] == part(line, 6));
    }
}

/// A sequence with an item behind it, where there is one.
pub open spec fn grown<T>(s: Seq<T>, item: Option<T>) -> Seq<T> {
    match item {
        Some(x) => s.push(x),
        None => s,
    }
}

proof fn lemma_rank_grows(p: spec_fn(int) -> bool, i: int, n: nat)
    requires
        0 <= i < n,
    ensures
        p(i) ==> how_many(i as nat, p) < how_many(n, p),
    decreases n,
{
    if n > i + 1 {
        lemma_rank_grows(p, i, (n - 1) as nat);
    }
}

proof fn lemma_grown<T>(
    outs: Seq<Seq<T>>,
    items: Seq<Option<T>>,
    p: spec_fn(int) -> bool,
    n: nat,
)
    requires
        n <= items.len(),
        outs.len() == items.len() + 1,
        outs[0].len() == 0,
        forall|k: int| 0 <= k < items.len() ==> outs[k + 1] == grown(outs[k], #[trigger] items[k]),
        forall|k: int| 0 <= k < items.len() ==> (#[trigger] p(k) <==> items[k] is Some),
    ensures
        outs[n as int].len() == how_many(n, p),
        forall|i: int|
            0 <= i < n && #[trigger] p(i) ==> outs[n as int][how_many(i as nat, p) as int]
                == items[i]->0,
    decreases n,
{
    if n > 0 {
        let m = (n - 1) as nat;
        lemma_grown(outs, items, p, m);
        assert(outs[n as int] == grown(outs[m as int], items[m as int]));
        assert(p(m as int) <==> items[m as int] is Some);
        assert forall|i: int| 0 <= i < n && #[trigger] p(i) implies outs[n as int][how_many(
            i as nat,
            p,
        ) as int] == items[i]->0 by {
            if i < m {
                lemma_rank_grows(p, i, m);
            }
        }
    }
}

/// Whether line `i` of the timing section sets something.
pub open spec fn sets(lines: Seq<Seq<char>>, i: int) -> bool {
    timing_point(lines[i]) is Some
}

/// What the lines of the timing section set stands in their order.
pub proof fn law_timing_points_stand_in_order(lines: Seq<Seq<char>>, i: int)
    requires
        0 <= i < lines.len(),
    ensures
        timing_points(lines).len() == how_many(lines.len(), |j: int| sets(lines, j)),
        sets(lines, i) ==> how_many(i as nat, |j: int| sets(lines, j)) < timing_points(lines).len()
            && timing_points(lines)[how_many(i as nat, |j: int| sets(lines, j)) as int]
            == timing_point(lines[i])->0,
{
    let items = Seq::new(lines.len(), |j: int| timing_point(lines[j]));
    let outs = Seq::new(lines.len() + 1, |k: int| timing_points(lines.take(k)));
    assert(outs[0] =~= Seq::empty());
    assert forall|k: int| 0 <= k < items.len() implies outs[k + 1] == grown(
        outs[k],
        #[trigger] items[k],
    ) by {
        assert(lines.take(k + 1).drop_last() =~= lines.take(k));
        assert(lines.take(k + 1).last() == lines[k]);
    }
    assert(lines.take(lines.len() as int) =~= lines);
    let p = |j: int| sets(lines, j);
    lemma_grown(outs, items, p, items.len());
    lemma_rank_grows(p, i, items.len());
}

proof fn lemma_whole_ms(s: Seq<char>)
    ensures
        is_whole(s, whole_ms(s)),
{
    crate::number::lemma_decimal_bound(s);
    assert(TICKS == 1_000_000_000_000 && LIMIT == 10_000_000_000_000_000_000_000_000_000);
    if let Some(t) = ticks_in(s) {
        let q = t as int / 1_000_000_000_000;
        assert(t as int / TICKS as int == q);
        assert(i64::MIN <= q <= i64::MAX);
        assert(is_ticks(s, Some(t)));
    }
}

/// Whether a number has bit 7 set.
pub open spec fn is_kind_of_hold(kind: Option<int>) -> bool {
    kind matches Some(v) && i64::MIN <= v <= i64::MAX && v % 256 >= 128
}

proof fn lemma_bit(v: int)
    ensures
        (v / 128) % 2 == 1 <==> v % 256 >= 128,
{
}

/// A line of the notes section with at least five parts is a note: the first
/// part tells where it lies, the third when, in whole milliseconds rounded down.
/// It is a hold if bit 7 of its fourth part is set: its end then stands before
/// the first colon of its sixth part, and is its time where none is there.
pub proof fn law_what_note_lines_say(line: Seq<char>)
    ensures
        ({
            let n = split(line, ',').len();
            let kind = signed_value(part(line, 3));
            let last = split(part(line, 5), ':')[0];
            &&& n < 5 ==> note_of(line) is None
            &&& n >= 5 ==> (note_of(line) matches Some(note) && {
                &&& is_ticks(part(line, 0), note.x)
                &&& is_whole(part(line, 2), note.time)
                &&& !is_kind_of_hold(kind) ==> note.end is None
                &&& is_kind_of_hold(kind) && n > 5 && part(line, 5).len() > 0 && decimal(last) is Some
                    ==> is_whole(last, note.end)
                &&& is_kind_of_hold(kind) && !(n > 5 && part(line, 5).len() > 0 && decimal(
                    last,
                ) is Some) ==> note.end == note.time
            })
        }),
{
    let parts = parts_of(line);
    let n = split(line, ',').len();
    assert(parts.len() == n);
    if n >= 5 {
        assert(parts[0] == part(line, 0) && parts[2] == part(line, 2) && parts[3] == part(line, 3));
        let kind = signed_value(part(line, 3));
        if kind is Some {
            lemma_bit(kind->0);
        }
        lemma_whole_ms(parts[2]);
    }
    if n > 5 {
        assert(parts[5] == part(line, 5));
        lemma_whole_ms(split(parts[5], ':')[0]);
    }
}

/// Whether a text is a number of milliseconds whose whole part is `ms`.
pub open spec fn is_whole(s: Seq<char>, ms: Option<i64>) -> bool {
    match ms {
        Some(x) => exists|t: i128| #[trigger]
            is_ticks(s, Some(t)) && x * 1_000_000_000_000 <= t < (x + 1) * 1_000_000_000_000,
        None => is_ticks(s, None),
    }
}

/// Whether line `i` of the notes section is a note.
pub open spec fn notes(lines: Seq<Seq<char>>, i: int) -> bool {
    note_of(lines[i]) is Some
}

/// The notes of a file stand in the order of their lines.
pub proof fn law_notes_stand_in_order(lines: Seq<Seq<char>>, i: int)
    requires
        0 <= i < lines.len(),
    ensures
        notes_of(lines).len() == how_many(lines.len(), |j: int| notes(lines, j)),
        notes(lines, i) ==> how_many(i as nat, |j: int| notes(lines, j)) < notes_of(lines).len()
            && notes_of(lines)[how_many(i as nat, |j: int| notes(lines, j)) as int] == note_of(
            lines[i],
        )->0,
{
    let items = Seq::new(lines.len(), |j: int| note_of(lines[j]));
    let outs = Seq::new(lines.len() + 1, |k: int| notes_of(lines.take(k)));
    assert(outs[0] =~= Seq::empty());
    assert forall|k: int| 0 <= k < items.len() implies outs[k + 1] == grown(
        outs[k],
        #[trigger] items[k],
    ) by {
        assert(lines.take(k + 1).drop_last() =~= lines.take(k));
        assert(lines.take(k + 1).last() == lines[k]);
    }
    assert(lines.take(lines.len() as int) =~= lines);
    let p = |j: int| notes(lines, j);
    lemma_grown(outs, items, p, items.len());
    lemma_rank_grows(p, i, items.len());
}

/// Whether timing point `i` sets a tempo.
pub open spec fn sets_tempo(points: Seq<TimingPoint>, i: int) -> bool {
    points[i] is Uninherited
}

/// The tempos of a chart are those that timing points set, in their order.
pub proof fn law_tempos_stand_in_order(points: Seq<TimingPoint>, i: int)
    requires
        0 <= i < points.len(),
    ensures
        ({
            let k = how_many(i as nat, |j: int| sets_tempo(points, j)) as int;
            let (t, b) = (tempos(points), bpm_items(points));
            &&& t.len() == b.len() == how_many(points.len(), |j: int| sets_tempo(points, j))
            &&& points[i] matches TimingPoint::Uninherited { time, beat, meter } ==> {
                &&& k < t.len()
                &&& t[k] == (time, beat)
                &&& b[k] == (TimeItem { time, data: BpmData { meter, ms_per_beat: beat } })
            }
        }),
    decreases points.len(),
{
    let front = points.drop_last();
    let (p, q) = (|j: int| sets_tempo(points, j), |j: int| sets_tempo(front, j));
    assert forall|j: int| 0 <= j < front.len() implies #[trigger] p(j) == q(j) by {
        assert(front[j] == points[j]);
    }
    crate::counting::lemma_counts_agree(front.len(), p, q);
    if front.len() > 0 {
        let j = if i < front.len() {
            i
        } else {
            0
        };
        law_tempos_stand_in_order(front, j);
    }
    if i < front.len() {
        crate::counting::lemma_counts_agree(i as nat, p, q);
        assert(front[i] == points[i]);
    }
}

/// A chart has as many columns as the whole part of the number that the file
/// gives, but at least one; it has four where the file gives no number.
pub proof fn law_columns_are_what_the_file_says(v: Seq<char>)
    ensures
        keys_of(None) == 4,
        match decimal(v) {
            Some(Number::Ticks(t)) => {
                let k = keys_of(Some(v));
                &&& k >= 1
                &&& t < 2_000_000_000_000 ==> k == 1
                &&& t >= 1_000_000_000_000 && k < usize::MAX ==> k * 1_000_000_000_000 <= t < (k + 1)
                    * 1_000_000_000_000
            },
            _ => keys_of(Some(v)) == 4,
        },
{
    assert(TICKS == 1_000_000_000_000);
}

/// A chart is made of the notes, timing points and columns that a file gives in
/// the sections for them. It has the tempos of the timing points, and one of half
/// a second in four-four time where there are none; timing points that set no
/// tempo make no chart, and no more do files without notes.
pub proof fn law_charts_are_made_of_files(text: Seq<char>)
    ensures
        ({
            let all = sections(split(text, '\n'));
            let keys = keys_of(value_of(lines_of(all, "Difficulty"@), "CircleSize"@));
            let points = timing_points(lines_of(all, "TimingPoints"@));
            let ns = notes_of(lines_of(all, "HitObjects"@));
            let r = chart_of(text);
            &&& r matches Ok(c) ==> {
                &&& c.keys == keys
                &&& rows_of(ns, c.keys) == Ok::<_, ChartError>(c.notes)
                &&& c.notes.len() > 0
                &&& points.len() == 0 ==> c.bpm.len() == 1 && c.bpm[0].time == Some(0i128)
                    && c.bpm[0].data.meter == 4 && c.bpm[0].data.ms_per_beat == 500
                    * 1_000_000_000_000
                &&& points.len() > 0 ==> c.bpm == bpm_items(points) && tempos(points).len() > 0
                &&& ns.len() > 0 ==> (c.timed <==> ns[0].time is Some)
            }
            &&& match rows_of(ns, keys as nat) {
                Err(x) => r matches Err(y) && y == x,
                Ok(rows) => if rows.len() == 0 {
                    r matches Err(ChartError::NoNotes)
                } else if points.len() > 0 && tempos(points).len() == 0 {
                    r matches Err(ChartError::NoBpmPoints)
                } else {
                    r is Ok
                },
            }
        }),
{
    assert(keys_of(
        value_of(lines_of(sections(split(text, '\n')), "Difficulty"@), "CircleSize"@),
    ) >= 0);
}

} // verus!
