//! What each row of a chart shows: its columns, repeats, direction and holds.

use crate::chart::{BpmData, Chart, ChartView, NoteType, RowView, TimeItem, TIME_LIMIT};
use crate::number::TICKS;
use crate::types::Ratio;
use vstd::prelude::*;

verus! {

/// Where a row lies relative to the one before it.
#[derive(Clone, Copy, Debug, PartialEq, Eq, Structural)]
pub enum Direction {
    /// Neither edge moved.
    Still,
    Left,
    Right,
    Outwards,
    Inwards,
}

/// What a row shows.
#[derive(Clone, Debug)]
pub struct Primitive {
    /// The number of the row; the first is zero.
    pub index: usize,
    /// Milliseconds since the first row.
    pub time: i64,
    /// Four times the gap to the row before, in milliseconds: a beat, if the
    /// gap is a quarter of one.
    pub ms_per_beat: i64,
    /// The length of a beat of the music, in ticks.
    pub beat_length: i128,
    /// How many columns are struck.
    pub notes: usize,
    /// How many of them were struck the time before.
    pub jacks: usize,
    pub direction: Direction,
    /// Whether the row lies wholly to one side of the strike before it.
    pub roll: bool,
    pub keys: usize,
    pub left_hand_keys: usize,
    pub ln_heads: Vec<usize>,
    pub ln_bodies: Vec<usize>,
    pub ln_tails: Vec<usize>,
    pub normal_notes: Vec<usize>,
    /// The columns that are struck.
    pub raw_notes: Vec<usize>,
}

/// A [`Primitive`] as a value.
#[verifier::ext_equal]
pub struct PrimitiveView {
    pub index: int,
    pub time: int,
    pub ms_per_beat: int,
    pub beat_length: int,
    pub notes: int,
    pub jacks: int,
    pub direction: Direction,
    pub roll: bool,
    pub keys: int,
    pub left_hand_keys: int,
    pub ln_heads: Seq<usize>,
    pub ln_bodies: Seq<usize>,
    pub ln_tails: Seq<usize>,
    pub normal_notes: Seq<usize>,
    pub raw_notes: Seq<usize>,
}

impl View for Primitive {
    type V = PrimitiveView;

    open spec fn view(&self) -> PrimitiveView {
        PrimitiveView {
            index: self.index as int,
            time: self.time as int,
            ms_per_beat: self.ms_per_beat as int,
            beat_length: self.beat_length as int,
            notes: self.notes as int,
            jacks: self.jacks as int,
            direction: self.direction,
            roll: self.roll,
            keys: self.keys as int,
            left_hand_keys: self.left_hand_keys as int,
            ln_heads: self.ln_heads@,
            ln_bodies: self.ln_bodies@,
            ln_tails: self.ln_tails@,
            normal_notes: self.normal_notes@,
            raw_notes: self.raw_notes@,
        }
    }
}

/// Primitives as values.
pub open spec fn views(v: Seq<Primitive>) -> Seq<PrimitiveView> {
    v.map_values(|p: Primitive| p@)
}

/// How many of the keys the left hand plays.
pub open spec fn left_keys(keymode: nat) -> nat {
    if keymode == 3 || keymode == 4 {
        2
    } else if keymode == 5 || keymode == 6 {
        3
    } else if keymode == 7 || keymode == 8 {
        4
    } else if keymode == 9 || keymode == 10 {
        5
    } else if keymode < 2 {
        1
    } else {
        keymode / 2
    }
}

/// How many of the keys the left hand plays.
pub fn keys_on_left_hand(keymode: usize) -> (r: usize)
    ensures
        r == left_keys(keymode as nat),
{
    if keymode == 3 || keymode == 4 {
        2
    } else if keymode == 5 || keymode == 6 {
        3
    } else if keymode == 7 || keymode == 8 {
        4
    } else if keymode == 9 || keymode == 10 {
        5
    } else if keymode < 2 {
        1
    } else {
        keymode / 2
    }
}

/// Where a row from `cl` to `cr` lies relative to one from `pl` to `pr`.
pub open spec fn direction_between(pl: usize, pr: usize, cl: usize, cr: usize) -> Direction {
    if cl > pl {
        if cr > pr {
            Direction::Right
        } else {
            Direction::Inwards
        }
    } else if cl < pl {
        if cr < pr {
            Direction::Left
        } else {
            Direction::Outwards
        }
    } else if cr < pr {
        Direction::Inwards
    } else if cr > pr {
        Direction::Outwards
    } else {
        Direction::Still
    }
}

/// Where a row lies relative to the one before it.
pub open spec fn direction_of(previous: Seq<usize>, current: Seq<usize>) -> Direction {
    direction_between(previous[0], previous.last(), current[0], current.last())
}

/// Whether a row lies wholly to one side of the one before it.
pub open spec fn is_roll(previous: Seq<usize>, current: Seq<usize>) -> bool {
    previous[0] > current.last() || previous.last() < current[0]
}

/// Where a row lies relative to the one before it, and whether wholly to one
/// side of it; columns are in order.
pub fn detect_direction(previous_row: &[usize], current_row: &[usize]) -> (r: (Direction, bool))
    requires
        previous_row@.len() > 0,
        current_row@.len() > 0,
    ensures
        r.0 == direction_of(previous_row@, current_row@),
        r.1 == is_roll(previous_row@, current_row@),
{
    let pl: usize = previous_row[0];
    let pr: usize = previous_row[previous_row.len() - 1];
    let cl: usize = current_row[0];
    let cr: usize = current_row[current_row.len() - 1];
    let direction = if cl > pl {
        if cr > pr {
            Direction::Right
        } else {
            Direction::Inwards
        }
    } else if cl < pl {
        if cr < pr {
            Direction::Left
        } else {
            Direction::Outwards
        }
    } else if cr < pr {
        Direction::Inwards
    } else if cr > pr {
        Direction::Outwards
    } else {
        Direction::Still
    };
    (direction, pl > cr || pr < cl)
}

/// The columns below `n` that hold something of a kind.
pub open spec fn columns_with(data: Seq<NoteType>, kind: NoteType, n: nat) -> Seq<usize>
    decreases n,
{
    if n == 0 {
        Seq::empty()
    } else if data[n - 1] == kind {
        columns_with(data, kind, (n - 1) as nat).push((n - 1) as usize)
    } else {
        columns_with(data, kind, (n - 1) as nat)
    }
}

/// The columns below `n` that are struck.
pub open spec fn columns_struck(data: Seq<NoteType>, n: nat) -> Seq<usize>
    decreases n,
{
    if n == 0 {
        Seq::empty()
    } else if data[n - 1] == NoteType::Normal || data[n - 1] == NoteType::HoldHead {
        columns_struck(data, (n - 1) as nat).push((n - 1) as usize)
    } else {
        columns_struck(data, (n - 1) as nat)
    }
}

/// All columns of a row that are struck.
pub open spec fn struck(row: RowView) -> Seq<usize> {
    columns_struck(row.data, row.data.len())
}

/// All columns of a row that hold something of a kind.
pub open spec fn with_kind(row: RowView, kind: NoteType) -> Seq<usize> {
    columns_with(row.data, kind, row.data.len())
}

/// Whether a row shows nothing.
pub open spec fn is_blank(row: RowView) -> bool {
    struck(row).len() == 0 && with_kind(row, NoteType::HoldBody).len() == 0 && with_kind(
        row,
        NoteType::HoldTail,
    ).len() == 0
}

/// The columns struck last before row `i`.
pub open spec fn struck_before(rows: Seq<RowView>, i: int) -> Seq<usize>
    decreases i,
{
    if i <= 0 {
        Seq::empty()
    } else if struck(rows[i - 1]).len() > 0 {
        struck(rows[i - 1])
    } else {
        struck_before(rows, i - 1)
    }
}

/// The time of the last row before row `i` that shows anything; that of the
/// first row otherwise.
pub open spec fn time_before(rows: Seq<RowView>, i: int) -> int
    decreases i,
{
    if i <= 1 {
        rows[0].time
    } else if is_blank(rows[i - 1]) {
        time_before(rows, i - 1)
    } else {
        rows[i - 1].time
    }
}

/// How many of the first `n` columns of a list occur in another.
pub open spec fn shared(current: Seq<usize>, previous: Seq<usize>, n: nat) -> nat
    decreases n,
{
    if n == 0 {
        0
    } else {
        shared(current, previous, (n - 1) as nat) + (if previous.contains(current[n - 1]) {
            1nat
        } else {
            0
        })
    }
}

/// The beat length at a time, from item `i` on; `current` before it.
pub open spec fn beat_from(items: Seq<TimeItem<BpmData>>, t: int, i: nat, current: i128) -> i128
    decreases items.len() - i,
{
    if i >= items.len() {
        current
    } else {
        match items[i as int].time {
            Some(x) if x > t => current,
            _ => beat_from(items, t, i + 1, items[i as int].data.ms_per_beat),
        }
    }
}

/// The beat length at a time in milliseconds; half a second without tempos.
pub open spec fn beat_at(items: Seq<TimeItem<BpmData>>, ms: int) -> i128 {
    if items.len() == 0 {
        crate::parser::DEFAULT_BEAT
    } else {
        beat_from(items, ms * TICKS, 0, items[0].data.ms_per_beat)
    }
}

/// What row `i` shows.
pub open spec fn primitive_at(c: ChartView, i: int) -> PrimitiveView {
    let row = c.notes[i];
    let current = struck(row);
    let previous = struck_before(c.notes, i);
    PrimitiveView {
        index: i,
        time: row.time - c.notes[0].time,
        ms_per_beat: (row.time - time_before(c.notes, i)) * 4,
        beat_length: beat_at(c.bpm, row.time) as int,
        notes: current.len() as int,
        jacks: shared(current, previous, current.len()) as int,
        direction: if current.len() > 0 {
            direction_of(previous, current)
        } else {
            Direction::Still
        },
        roll: current.len() > 0 && is_roll(previous, current),
        keys: c.keys as int,
        left_hand_keys: left_keys(c.keys) as int,
        ln_heads: with_kind(row, NoteType::HoldHead),
        ln_bodies: with_kind(row, NoteType::HoldBody),
        ln_tails: with_kind(row, NoteType::HoldTail),
        normal_notes: with_kind(row, NoteType::Normal),
        raw_notes: current,
    }
}

/// What the rows before row `n` show, but for the first row and rows that show
/// nothing.
pub open spec fn primitives_upto(c: ChartView, n: nat) -> Seq<PrimitiveView>
    decreases n,
{
    if n <= 1 {
        Seq::empty()
    } else {
        let before = primitives_upto(c, (n - 1) as nat);
        if is_blank(c.notes[n - 1]) {
            before
        } else {
            before.push(primitive_at(c, n - 1))
        }
    }
}

/// What the rows of a chart show; nothing unless its first row is struck.
pub open spec fn primitives(c: ChartView) -> Seq<PrimitiveView> {
    if struck(c.notes[0]).len() == 0 {
        Seq::empty()
    } else {
        primitives_upto(c, c.notes.len())
    }
}

/// Whether a column occurs in a list.
pub fn has_column(v: &[usize], column: usize) -> (r: bool)
    ensures
        r == v@.contains(column),
{
    let mut i: usize = 0;
    while i < v.len()
        invariant
            i <= v@.len(),
            forall|j: int| 0 <= j < i ==> v@[j] != column,
        decreases v@.len() - i,
    {
        if v[i] == column {
            assert(v@[i as int] == column);
            return true;
        }
        i = i + 1;
    }
    false
}

/// How many columns of a list occur in another.
pub fn count_shared(current: &[usize], previous: &[usize]) -> (r: usize)
    ensures
        r == shared(current@, previous@, current@.len()),
        r <= current@.len(),
{
    let mut sum: usize = 0;
    let mut n: usize = 0;
    while n < current.len()
        invariant
            n <= current@.len(),
            sum <= n,
            sum == shared(current@, previous@, n as nat),
        decreases current@.len() - n,
    {
        if has_column(previous, current[n]) {
            sum = sum + 1;
        }
        n = n + 1;
    }
    sum
}

fn columns_of(data: &[NoteType], kind: NoteType) -> (r: Vec<usize>)
    ensures
        r@ == columns_with(data@, kind, data@.len()),
{
    let mut out: Vec<usize> = Vec::new();
    let mut n: usize = 0;
    while n < data.len()
        invariant
            n <= data@.len(),
            out@ == columns_with(data@, kind, n as nat),
        decreases data@.len() - n,
    {
        if data[n] == kind {
            out.push(n);
        }
        n = n + 1;
    }
    out
}

fn struck_columns(data: &[NoteType]) -> (r: Vec<usize>)
    ensures
        r@ == columns_struck(data@, data@.len()),
        r@.len() <= data@.len(),
{
    let mut out: Vec<usize> = Vec::new();
    let mut n: usize = 0;
    while n < data.len()
        invariant
            n <= data@.len(),
            out@ == columns_struck(data@, n as nat),
            out@.len() <= n,
        decreases data@.len() - n,
    {
        if data[n] == NoteType::Normal || data[n] == NoteType::HoldHead {
            out.push(n);
        }
        n = n + 1;
    }
    out
}

/// The beat length at a time in milliseconds.
fn beat_length_at(items: &[TimeItem<BpmData>], ms: i64) -> (r: i128)
    ensures
        r == beat_at(items@, ms as int),
{
    if items.len() == 0 {
        return crate::parser::DEFAULT_BEAT;
    }
    let t: i128 = ms as i128 * TICKS;
    let mut current: i128 = items[0].data.ms_per_beat;
    let mut i: usize = 0;
    while i < items.len()
        invariant
            i <= items@.len(),
            items@.len() > 0,
            t == ms * TICKS,
            beat_at(items@, ms as int) == beat_from(items@, t as int, i as nat, current),
        decreases items@.len() - i,
    {
        if let Some(x) = items[i].time {
            if x > t {
                return current;
            }
        }
        current = items[i].data.ms_per_beat;
        i = i + 1;
    }
    current
}

/// Times before a row are those of rows before it.
pub proof fn lemma_time_before(rows: Seq<RowView>, i: int)
    requires
        0 < i <= rows.len(),
    ensures
        exists|j: int| 0 <= j < i && time_before(rows, i) == (#[trigger] rows[j]).time,
    decreases i,
{
    if i <= 1 {
        assert(time_before(rows, i) == rows[0].time);
    } else if is_blank(rows[i - 1]) {
        lemma_time_before(rows, i - 1);
    } else {
        assert(time_before(rows, i) == rows[i - 1].time);
    }
}

proof fn lemma_struck_before(rows: Seq<RowView>, i: int)
    requires
        0 < i <= rows.len(),
        struck(rows[0]).len() > 0,
    ensures
        struck_before(rows, i).len() > 0,
    decreases i,
{
    if i > 1 && struck(rows[i - 1]).len() == 0 {
        lemma_struck_before(rows, i - 1);
    }
}

/// What the rows of a chart show.
pub fn calculate_primitives(chart: &Chart) -> (r: Vec<Primitive>)
    requires
        chart@.valid(),
    ensures
        views(r@) == primitives(chart@),
        r@.len() < chart@.notes.len(),
{
    let ghost c = chart@;
    let ghost rows = c.notes;
    assert(rows[0] == chart.notes@[0]@);
    let mut previous = struck_columns(chart.notes[0].data.as_slice());
    let mut out: Vec<Primitive> = Vec::new();
    if previous.len() == 0 {
        assert(views(out@) =~= primitives(c));
        return out;
    }
    let first: i64 = chart.notes[0].time;
    let left: usize = keys_on_left_hand(chart.keys);
    let mut previous_time: i64 = first;
    let mut i: usize = 1;
    assert(views(out@) =~= primitives_upto(c, 1));
    while i < chart.notes.len()
        invariant
            1 <= i <= chart.notes@.len(),
            c == chart@,
            rows == c.notes,
            c.valid(),
            struck(rows[0]).len() > 0,
            first == rows[0].time,
            left == left_keys(c.keys),
            previous@ == struck_before(rows, i as int),
            previous_time == time_before(rows, i as int),
            views(out@) == primitives_upto(c, i as nat),
            out@.len() < i,
        decreases chart.notes@.len() - i,
    {
        let row = &chart.notes[i];
        let ghost view = row@;
        proof {
            assert(rows[i as int] == view);
            lemma_time_before(rows, i as int);
            lemma_struck_before(rows, i as int);
            let j = choose|j: int|
                0 <= j < i && time_before(rows, i as int) == (#[trigger] rows[j]).time;
            assert(rows[j].time < rows[i as int].time);
            assert(-TIME_LIMIT <= rows[i as int].time <= TIME_LIMIT);
            assert(-TIME_LIMIT <= rows[j].time <= TIME_LIMIT);
            assert(-TIME_LIMIT <= rows[0].time <= TIME_LIMIT);
        }
        let current = struck_columns(row.data.as_slice());
        let ln_bodies = columns_of(row.data.as_slice(), NoteType::HoldBody);
        let ln_tails = columns_of(row.data.as_slice(), NoteType::HoldTail);
        if current.len() > 0 || ln_bodies.len() > 0 || ln_tails.len() > 0 {
            let (direction, roll) = if current.len() > 0 {
                detect_direction(previous.as_slice(), current.as_slice())
            } else {
                (Direction::Still, false)
            };
            let p = Primitive {
                index: i,
                time: row.time - first,
                ms_per_beat: (row.time - previous_time) * 4,
                beat_length: beat_length_at(chart.bpm.as_slice(), row.time),
                notes: current.len(),
                jacks: count_shared(current.as_slice(), previous.as_slice()),
                direction,
                roll,
                keys: chart.keys,
                left_hand_keys: left,
                ln_heads: columns_of(row.data.as_slice(), NoteType::HoldHead),
                ln_bodies,
                ln_tails,
                normal_notes: columns_of(row.data.as_slice(), NoteType::Normal),
                raw_notes: current.clone(),
            };
            assert(p@ =~= primitive_at(c, i as int));
            let ghost before = views(out@);
            out.push(p);
            assert(views(out@) =~= before.push(p@));
            previous_time = row.time;
            if current.len() > 0 {
                previous = current;
            }
        }
        i = i + 1;
    }
    out
}

/// How many notes the first `n` columns strike.
pub open spec fn count_kind(data: Seq<NoteType>, kind: NoteType, n: nat) -> nat
    decreases n,
{
    if n == 0 {
        0
    } else {
        count_kind(data, kind, (n - 1) as nat) + (if data[n - 1] == kind {
            1nat
        } else {
            0
        })
    }
}

/// How often something of a kind occurs in the first `n` rows.
pub open spec fn kind_total(rows: Seq<RowView>, kind: NoteType, n: nat) -> nat
    decreases n,
{
    if n == 0 {
        0
    } else {
        kind_total(rows, kind, (n - 1) as nat) + count_kind(
            rows[n - 1].data,
            kind,
            rows[n - 1].data.len(),
        )
    }
}

/// How many notes are holds, of all notes.
pub open spec fn hold_share(c: ChartView) -> Ratio {
    let holds = kind_total(c.notes, NoteType::HoldHead, c.notes.len()) as int;
    let taps = kind_total(c.notes, NoteType::Normal, c.notes.len()) as int;
    Ratio::spec_or_zero(holds, holds + taps)
}

fn count_in_row(data: &[NoteType], kind: NoteType) -> (r: i128)
    ensures
        r == count_kind(data@, kind, data@.len()),
        0 <= r <= data@.len(),
{
    let mut sum: i128 = 0;
    let mut n: usize = 0;
    while n < data.len()
        invariant
            n <= data@.len(),
            0 <= sum <= n,
            sum == count_kind(data@, kind, n as nat),
        decreases data@.len() - n,
    {
        if data[n] == kind {
            sum = sum + 1;
        }
        n = n + 1;
    }
    sum
}

/// How often something of a kind occurs in a chart.
pub fn count_in_chart(chart: &Chart, kind: NoteType) -> (r: i128)
    requires
        chart@.valid(),
        chart@.keys <= u32::MAX,
    ensures
        r == kind_total(chart@.notes, kind, chart@.notes.len()),
        0 <= r <= 0xffff_ffff_ffff_ffff * 0xffff_ffff,
{
    let mut sum: i128 = 0;
    let mut n: usize = 0;
    while n < chart.notes.len()
        invariant
            n <= chart.notes@.len(),
            chart@.valid(),
            chart@.keys <= u32::MAX,
            0 <= sum <= n * 0xffff_ffff,
            sum == kind_total(chart@.notes, kind, n as nat),
        decreases chart.notes@.len() - n,
    {
        assert(chart@.notes[n as int] == chart.notes@[n as int]@);
        sum = sum + count_in_row(chart.notes[n].data.as_slice(), kind);
        n = n + 1;
    }
    sum
}

/// How many notes are holds, of all notes; tails are not counted.
pub fn ln_percent(chart: &Chart) -> (r: Ratio)
    requires
        chart@.valid(),
        chart@.keys <= u32::MAX,
    ensures
        r == hold_share(chart@),
        0 <= r.num <= r.den,
        0 < r.den <= 0x1_0000_0000_0000_0000_0000_0000_0000,
{
    let holds = count_in_chart(chart, NoteType::HoldHead);
    let taps = count_in_chart(chart, NoteType::Normal);
    Ratio::or_zero(holds, holds + taps)
}

} // verus!
