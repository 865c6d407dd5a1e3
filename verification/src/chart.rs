//! Charts: rows of notes, with tempo.

use crate::number::LIMIT;
use crate::velocity::{items_valid, speeds_valid, Speed};
use vstd::prelude::*;

verus! {

/// What a column holds in a row.
#[derive(Clone, Copy, Debug, PartialEq, Eq, Structural)]
pub enum NoteType {
    Nothing,
    Normal,
    HoldHead,
    HoldBody,
    HoldTail,
}

/// What the columns hold at one time, in milliseconds.
#[derive(Clone, Debug)]
pub struct Row {
    pub time: i64,
    pub data: Vec<NoteType>,
}

/// A [`Row`] as a value.
#[verifier::ext_equal]
pub struct RowView {
    pub time: int,
    pub data: Seq<NoteType>,
}

impl View for Row {
    type V = RowView;

    open spec fn view(&self) -> RowView {
        RowView { time: self.time as int, data: self.data@ }
    }
}

impl Row {
    /// An empty row.
    pub fn new(time: i64, keys: usize) -> (r: Row)
        ensures
            r@ == (RowView { time: time as int, data: Seq::new(keys as nat, |c: int| NoteType::Nothing) }),
    {
        let mut data: Vec<NoteType> = Vec::new();
        let mut c: usize = 0;
        while c < keys
            invariant
                c <= keys,
                data@.len() == c,
                forall|d: int| 0 <= d < c ==> #[trigger] data@[d] == NoteType::Nothing,
            decreases keys - c,
        {
            data.push(NoteType::Nothing);
            c = c + 1;
        }
        assert(data@ =~= Seq::new(keys as nat, |c: int| NoteType::Nothing));
        Row { time, data }
    }
}

/// Rows as values.
pub open spec fn row_views(rows: Seq<Row>) -> Seq<RowView> {
    rows.map_values(|r: Row| r@)
}

/// Something that holds from a time on, in ticks; a time that cannot be read
/// is none.
#[derive(Clone, Copy, Debug)]
pub struct TimeItem<T> {
    pub time: Option<i128>,
    pub data: T,
}

/// A meter and the length of a beat, in ticks.
#[derive(Clone, Copy, Debug, PartialEq, Eq, Structural)]
pub struct BpmData {
    pub meter: i64,
    pub ms_per_beat: i128,
}

/// A chart.
#[derive(Clone, Debug)]
pub struct Chart {
    pub keys: usize,
    /// Whether the first note has a time. Where it has none, there is one row,
    /// and its time says nothing.
    pub timed: bool,
    pub notes: Vec<Row>,
    pub bpm: Vec<TimeItem<BpmData>>,
    /// The changes of scroll velocity.
    pub sv: Vec<TimeItem<Speed>>,
}

/// A [`Chart`] as a value.
#[verifier::ext_equal]
pub struct ChartView {
    pub keys: nat,
    pub timed: bool,
    pub notes: Seq<RowView>,
    pub bpm: Seq<TimeItem<BpmData>>,
    pub sv: Seq<TimeItem<Speed>>,
}

impl View for Chart {
    type V = ChartView;

    open spec fn view(&self) -> ChartView {
        ChartView {
            keys: self.keys as nat,
            timed: self.timed,
            notes: row_views(self.notes@),
            bpm: self.bpm@,
            sv: self.sv@,
        }
    }
}

/// The largest time of a row, in milliseconds, either way.
pub const TIME_LIMIT: i64 = 10_000_000_000_000_000;

impl ChartView {
    /// Whether there are rows, as wide as there are keys, in order of time, and
    /// tempo and velocity lie within the limits of numbers.
    pub open spec fn valid(self) -> bool {
        &&& self.keys > 0
        &&& self.notes.len() > 0
        &&& rows_valid(self.notes, self.keys)
        &&& items_valid(self.sv)
        &&& speeds_valid(self.sv)
        &&& forall|i: int|
            0 <= i < self.bpm.len() ==> 0 <= (#[trigger] self.bpm[i]).data.ms_per_beat <= LIMIT
    }

    /// The time of the first row.
    pub open spec fn first_note(self) -> int {
        self.notes[0].time
    }

    /// The time of the last row.
    pub open spec fn last_note(self) -> int {
        self.notes.last().time
    }

    /// From the first row to the last.
    pub open spec fn duration(self) -> int {
        self.last_note() - self.first_note()
    }
}

/// Whether rows are as wide as there are keys and in order of time.
pub open spec fn rows_valid(rows: Seq<RowView>, keys: nat) -> bool {
    &&& forall|i: int| 0 <= i < rows.len() ==> (#[trigger] rows[i]).data.len() == keys
    &&& forall|i: int|
        0 <= i < rows.len() ==> -TIME_LIMIT <= (#[trigger] rows[i]).time <= TIME_LIMIT
    &&& forall|i: int, j: int|
        0 <= i < j < rows.len() ==> (#[trigger] rows[i]).time < (#[trigger] rows[j]).time
}

impl Chart {
    /// The time of the first row.
    pub fn first_note(&self) -> (r: i64)
        requires
            self@.notes.len() > 0,
        ensures
            r == self@.first_note(),
    {
        assert(self@.notes[0] == self.notes@[0]@);
        self.notes[0].time
    }

    /// The time of the last row.
    pub fn last_note(&self) -> (r: i64)
        requires
            self@.notes.len() > 0,
        ensures
            r == self@.last_note(),
    {
        let n: usize = self.notes.len() - 1;
        assert(self@.notes[n as int] == self.notes@[n as int]@);
        self.notes[n].time
    }

    /// From the first row to the last.
    pub fn duration(&self) -> (r: i64)
        requires
            self@.valid(),
        ensures
            r == self@.duration(),
            0 <= r <= 2 * TIME_LIMIT,
    {
        proof {
            let n = self@.notes.len() - 1;
            assert(-TIME_LIMIT <= self@.notes[0].time <= TIME_LIMIT);
            assert(-TIME_LIMIT <= self@.notes[n].time <= TIME_LIMIT);
            if n > 0 {
                assert(self@.notes[0].time < self@.notes[n].time);
            }
        }
        self.last_note() - self.first_note()
    }
}

} // verus!
