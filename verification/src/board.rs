//! Laying notes out in rows, with the bodies and tails of holds between them.

use crate::chart::{row_views, rows_valid, NoteType, Row, RowView, TIME_LIMIT};
use crate::number::TICKS;
use crate::parser::Note;
use vstd::prelude::*;

verus! {

/// Why a file gives no chart.
#[derive(Clone, Copy, Debug)]
pub enum ChartError {
    /// A hold ends where something else stands.
    TailConflict,
    /// A note falls on a hold; columns count from one.
    StackedNote { time: Option<i64>, column: usize, kind: NoteType },
    /// A hold starts on another hold; columns count from one.
    StackedHold { time: Option<i64>, column: usize, kind: NoteType },
    /// No timing point sets a tempo.
    NoBpmPoints,
    /// There are no notes.
    NoNotes,
}

/// Rows laid out so far, and until when each column is held.
#[verifier::ext_equal]
pub struct BoardView {
    pub rows: Seq<RowView>,
    pub until: Seq<Option<i64>>,
}

/// The column of a horizontal coordinate.
pub open spec fn column_of(x: Option<i128>, keys: nat) -> int {
    match x {
        Some(t) => if t <= 0 {
            0
        } else if t >= 512 * TICKS {
            keys - 1
        } else {
            t * keys / (512 * TICKS)
        },
        None => 0,
    }
}

/// A row in which every held column holds a body.
pub open spec fn held_row(time: int, until: Seq<Option<i64>>) -> RowView {
    RowView {
        time,
        data: Seq::new(
            until.len(),
            |c: int|
                if until[c] is Some {
                    NoteType::HoldBody
                } else {
                    NoteType::Nothing
                },
        ),
    }
}

/// The board with a row at a time, unless its last row is as late.
pub open spec fn opened(b: BoardView, time: int) -> BoardView {
    if b.rows.len() == 0 || time > b.rows.last().time {
        BoardView { rows: b.rows.push(held_row(time, b.until)), ..b }
    } else {
        b
    }
}

/// What a column of the last row holds.
pub open spec fn cell(b: BoardView, c: int) -> NoteType {
    b.rows.last().data[c]
}

/// The board with something put into a column of its last row.
pub open spec fn put(b: BoardView, c: int, kind: NoteType) -> BoardView {
    let last = b.rows.last();
    BoardView {
        rows: b.rows.drop_last().push(RowView { data: last.data.update(c, kind), ..last }),
        ..b
    }
}

/// When the first of the first `n` columns is let go.
pub open spec fn earliest(until: Seq<Option<i64>>, n: nat) -> Option<i64>
    decreases n,
{
    if n == 0 {
        None
    } else {
        let before = earliest(until, (n - 1) as nat);
        match (before, until[n - 1]) {
            (Some(a), Some(b)) => if b < a {
                Some(b)
            } else {
                before
            },
            (None, b) => b,
            (_, None) => before,
        }
    }
}

/// How many of the first `n` columns are held.
pub open spec fn held_count(until: Seq<Option<i64>>, n: nat) -> nat
    decreases n,
{
    if n == 0 {
        0
    } else {
        held_count(until, (n - 1) as nat) + (if until[n - 1] is Some {
            1nat
        } else {
            0
        })
    }
}

/// The board with a column let go, if that is due at `e`.
pub open spec fn let_go(b: BoardView, e: i64, c: int) -> Result<BoardView, ChartError> {
    if b.until[c] != Some(e) {
        Ok(b)
    } else {
        let o = opened(b, e as int);
        if cell(o, c) == NoteType::Nothing || cell(o, c) == NoteType::HoldBody {
            let p = put(o, c, NoteType::HoldTail);
            Ok(BoardView { until: p.until.update(c, None), ..p })
        } else {
            Err(ChartError::TailConflict)
        }
    }
}

/// The board with the first `n` columns let go, as far as that is due at `e`.
pub open spec fn let_all_go(b: BoardView, e: i64, n: nat) -> Result<BoardView, ChartError>
    decreases n,
{
    if n == 0 {
        Ok(b)
    } else {
        match let_all_go(b, e, (n - 1) as nat) {
            Ok(a) => let_go(a, e, n - 1),
            Err(x) => Err(x),
        }
    }
}

/// The board stays as wide, and only what is due is let go.
pub proof fn lemma_let_all_go(b: BoardView, e: i64, n: nat)
    requires
        n <= b.until.len(),
    ensures
        let_all_go(b, e, n) matches Ok(a) ==> {
            &&& a.until.len() == b.until.len()
            &&& forall|c: int|
                0 <= c < b.until.len() ==> #[trigger] a.until[c] == (if c < n && b.until[c] == Some(
                    e,
                ) {
                    None
                } else {
                    b.until[c]
                })
        },
    decreases n,
{
    if n > 0 {
        lemma_let_all_go(b, e, (n - 1) as nat);
    }
}

/// Letting go of one column leaves fewer held.
pub proof fn lemma_fewer_held(u: Seq<Option<i64>>, v: Seq<Option<i64>>, e: i64, n: nat)
    requires
        n <= u.len(),
        u.len() == v.len(),
        forall|c: int|
            0 <= c < u.len() ==> #[trigger] v[c] == (if u[c] == Some(e) {
                None
            } else {
                u[c]
            }),
    ensures
        held_count(v, n) <= held_count(u, n),
        earliest(u, n) == Some(e) ==> held_count(v, n) < held_count(u, n),
    decreases n,
{
    if n > 0 {
        lemma_fewer_held(u, v, e, (n - 1) as nat);
        assert(v[n - 1] == (if u[n - 1] == Some(e) {
            None
        } else {
            u[n - 1]
        }));
    }
}

/// Whether a release at `e` is due before `time`; without a time, always.
pub open spec fn due(e: i64, time: Option<int>) -> bool {
    match time {
        Some(t) => e < t,
        None => true,
    }
}

/// The board with everything let go that is due before a time.
pub open spec fn finished(b: BoardView, time: Option<int>) -> Result<BoardView, ChartError>
    decreases held_count(b.until, b.until.len()),
{
    match earliest(b.until, b.until.len()) {
        Some(e) if due(e, time) => match let_all_go(b, e, b.until.len()) {
            Ok(a) => {
                proof {
                    lemma_let_all_go(b, e, b.until.len());
                    lemma_fewer_held(b.until, a.until, e, b.until.len());
                }
                finished(a, time)
            },
            Err(x) => Err(x),
        },
        _ => Ok(b),
    }
}

/// The board brought to the time of a note. A note without a time joins the
/// last row; where there is none, it opens one that nothing is later than.
pub open spec fn reached(b: BoardView, time: Option<i64>) -> Result<BoardView, ChartError> {
    match time {
        Some(t) => match finished(b, Some(t as int)) {
            Ok(a) => Ok(opened(a, t as int)),
            Err(x) => Err(x),
        },
        None => if b.rows.len() == 0 {
            Ok(opened(b, TIME_LIMIT as int))
        } else {
            Ok(b)
        },
    }
}

/// Whether a note is a hold that lasts.
pub open spec fn lasts(n: Note) -> bool {
    match (n.time, n.end) {
        (Some(t), Some(e)) => e > t,
        _ => false,
    }
}

/// The board with a note.
pub open spec fn placed(b: BoardView, n: Note) -> Result<BoardView, ChartError> {
    let c = column_of(n.x, b.until.len());
    match reached(b, n.time) {
        Ok(a) => {
            let kind = cell(a, c);
            if lasts(n) {
                if kind == NoteType::Nothing || kind == NoteType::Normal {
                    let p = put(a, c, NoteType::HoldHead);
                    Ok(BoardView { until: p.until.update(c, n.end), ..p })
                } else {
                    Err(
                        ChartError::StackedHold { time: n.time, column: (c + 1) as usize, kind },
                    )
                }
            } else if kind == NoteType::Nothing {
                Ok(put(a, c, NoteType::Normal))
            } else if kind == NoteType::Normal || kind == NoteType::HoldHead {
                Ok(a)
            } else {
                Err(ChartError::StackedNote { time: n.time, column: (c + 1) as usize, kind })
            }
        },
        Err(x) => Err(x),
    }
}

/// A board without rows.
pub open spec fn blank_board(keys: nat) -> BoardView {
    BoardView { rows: Seq::empty(), until: Seq::new(keys, |c: int| None) }
}

/// The board with some notes.
pub open spec fn laid(notes: Seq<Note>, keys: nat) -> Result<BoardView, ChartError>
    decreases notes.len(),
{
    if notes.len() == 0 {
        Ok(blank_board(keys))
    } else {
        match laid(notes.drop_last(), keys) {
            Ok(b) => placed(b, notes.last()),
            Err(x) => Err(x),
        }
    }
}

/// The rows of some notes.
pub open spec fn rows_of(notes: Seq<Note>, keys: nat) -> Result<Seq<RowView>, ChartError> {
    match laid(notes, keys) {
        Ok(b) => match finished(b, None) {
            Ok(a) => Ok(a.rows),
            Err(x) => Err(x),
        },
        Err(x) => Err(x),
    }
}

/// Whether a time lies within the limits.
pub open spec fn in_range(t: Option<i64>) -> bool {
    match t {
        Some(t) => -TIME_LIMIT <= t <= TIME_LIMIT,
        None => true,
    }
}

/// Whether rows are as wide as the board and in order, and times in range.
pub open spec fn board_valid(b: BoardView) -> bool {
    &&& b.until.len() > 0
    &&& rows_valid(b.rows, b.until.len())
    &&& forall|c: int| 0 <= c < b.until.len() ==> in_range(#[trigger] b.until[c])
}

proof fn lemma_opened(b: BoardView, time: int)
    requires
        board_valid(b),
        -TIME_LIMIT <= time <= TIME_LIMIT,
    ensures
        board_valid(opened(b, time)),
        opened(b, time).rows.len() > 0,
        opened(b, time).until == b.until,
{
    let o = opened(b, time);
    if b.rows.len() == 0 || time > b.rows.last().time {
        assert forall|i: int, j: int| 0 <= i < j < o.rows.len() implies (#[trigger] o.rows[i]).time
            < (#[trigger] o.rows[j]).time by {
            if j == b.rows.len() {
                if i < b.rows.len() - 1 {
                    assert(b.rows[i].time < b.rows[b.rows.len() - 1].time);
                }
            }
        }
    }
}

proof fn lemma_put(b: BoardView, c: int, kind: NoteType)
    requires
        board_valid(b),
        b.rows.len() > 0,
        0 <= c < b.until.len(),
    ensures
        board_valid(put(b, c, kind)),
        put(b, c, kind).rows.len() == b.rows.len(),
        put(b, c, kind).until == b.until,
{
    let p = put(b, c, kind);
    assert forall|i: int| 0 <= i < p.rows.len() implies (#[trigger] p.rows[i]).time
        == b.rows[i].time && p.rows[i].data.len() == b.rows[i].data.len() by {}
}

proof fn lemma_earliest(until: Seq<Option<i64>>, n: nat)
    requires
        n <= until.len(),
        forall|c: int| 0 <= c < until.len() ==> in_range(#[trigger] until[c]),
    ensures
        in_range(earliest(until, n)),
        earliest(until, n) is None ==> forall|c: int| 0 <= c < n ==> (#[trigger] until[c]) is None,
    decreases n,
{
    if n > 0 {
        lemma_earliest(until, (n - 1) as nat);
        assert(in_range(until[n - 1]));
    }
}

proof fn lemma_let_go_valid(b: BoardView, e: i64, c: int)
    requires
        board_valid(b),
        0 <= c < b.until.len(),
    ensures
        let_go(b, e, c) matches Ok(a) ==> board_valid(a) && a.until.len() == b.until.len(),
{
    if b.until[c] == Some(e) {
        assert(in_range(b.until[c]));
        lemma_opened(b, e as int);
        let o = opened(b, e as int);
        lemma_put(o, c, NoteType::HoldTail);
        if let Ok(a) = let_go(b, e, c) {
            assert forall|d: int| 0 <= d < a.until.len() implies in_range(#[trigger] a.until[d]) by {
                assert(in_range(b.until[d]));
            }
        }
    }
}

proof fn lemma_let_all_go_valid(b: BoardView, e: i64, n: nat)
    requires
        board_valid(b),
        n <= b.until.len(),
    ensures
        let_all_go(b, e, n) matches Ok(a) ==> board_valid(a) && a.until.len() == b.until.len(),
    decreases n,
{
    if n > 0 {
        lemma_let_all_go_valid(b, e, (n - 1) as nat);
        if let Ok(a) = let_all_go(b, e, (n - 1) as nat) {
            lemma_let_go_valid(a, e, n - 1);
        }
    }
}

proof fn lemma_finished_valid(b: BoardView, time: Option<int>)
    requires
        board_valid(b),
    ensures
        finished(b, time) matches Ok(a) ==> board_valid(a) && a.until.len() == b.until.len(),
    decreases held_count(b.until, b.until.len()),
{
    if let Some(e) = earliest(b.until, b.until.len()) {
        if due(e, time) {
            lemma_let_all_go_valid(b, e, b.until.len());
            lemma_let_all_go(b, e, b.until.len());
            if let Ok(a) = let_all_go(b, e, b.until.len()) {
                lemma_fewer_held(b.until, a.until, e, b.until.len());
                lemma_finished_valid(a, time);
            }
        }
    }
}

/// Whether the times of a note are in range.
pub open spec fn note_valid(n: Note) -> bool {
    in_range(n.time) && in_range(n.end)
}

/// Every position lies in a column.
pub proof fn lemma_column(x: Option<i128>, keys: nat)
    requires
        keys > 0,
    ensures
        0 <= column_of(x, keys) < keys,
{
    if let Some(t) = x {
        if 0 < t < 512 * TICKS {
            let d = 512 * TICKS;
            assert(0 <= t * keys / d < keys) by (nonlinear_arith)
                requires
                    0 < t < d,
                    keys > 0,
            ;
        }
    }
}

proof fn lemma_placed_valid(b: BoardView, n: Note)
    requires
        board_valid(b),
        note_valid(n),
    ensures
        placed(b, n) matches Ok(a) ==> board_valid(a) && a.until.len() == b.until.len(),
        reached(b, n.time) matches Ok(a) ==> board_valid(a) && a.rows.len() > 0 && a.until.len()
            == b.until.len(),
{
    let c = column_of(n.x, b.until.len());
    lemma_column(n.x, b.until.len());
    if n.time is None && b.rows.len() == 0 {
        lemma_opened(b, TIME_LIMIT as int);
    }
    if let Some(t) = n.time {
        lemma_finished_valid(b, Some(t as int));
        if let Ok(a) = finished(b, Some(t as int)) {
            lemma_opened(a, t as int);
        }
    }
    if let Ok(a) = reached(b, n.time) {
        lemma_put(a, c, NoteType::HoldHead);
        lemma_put(a, c, NoteType::Normal);
        if let Ok(r) = placed(b, n) {
            assert forall|d: int| 0 <= d < r.until.len() implies in_range(#[trigger] r.until[d]) by {
                assert(in_range(a.until[d]));
            }
        }
    }
}

/// Whether all notes have times in range.
pub open spec fn notes_valid(notes: Seq<Note>) -> bool {
    forall|i: int| 0 <= i < notes.len() ==> note_valid(#[trigger] notes[i])
}

proof fn lemma_laid_valid(notes: Seq<Note>, keys: nat)
    requires
        notes_valid(notes),
        keys > 0,
    ensures
        laid(notes, keys) matches Ok(b) ==> board_valid(b) && b.until.len() == keys,
    decreases notes.len(),
{
    if notes.len() > 0 {
        assert(note_valid(notes[notes.len() - 1]));
        lemma_laid_valid(notes.drop_last(), keys);
        if let Ok(b) = laid(notes.drop_last(), keys) {
            lemma_placed_valid(b, notes.last());
        }
    }
}

/// Rows are as wide as there are keys, and each is later than the one before.
pub proof fn law_rows_are_in_order(notes: Seq<Note>, keys: nat)
    requires
        notes_valid(notes),
        keys > 0,
    ensures
        rows_of(notes, keys) matches Ok(rows) ==> rows_valid(rows, keys),
{
    lemma_laid_valid(notes, keys);
    if let Ok(b) = laid(notes, keys) {
        lemma_finished_valid(b, None);
    }
}

struct Board {
    rows: Vec<Row>,
    until: Vec<Option<i64>>,
}

impl View for Board {
    type V = BoardView;

    closed spec fn view(&self) -> BoardView {
        BoardView { rows: row_views(self.rows@), until: self.until@ }
    }
}

impl Board {
    fn new(keys: usize) -> (r: Board)
        ensures
            r@ == blank_board(keys as nat),
    {
        let mut until: Vec<Option<i64>> = Vec::new();
        let mut c: usize = 0;
        while c < keys
            invariant
                c <= keys,
                until@.len() == c,
                forall|d: int| 0 <= d < c ==> (#[trigger] until@[d]) is None,
            decreases keys - c,
        {
            until.push(None);
            c = c + 1;
        }
        let r = Board { rows: Vec::new(), until };
        assert(r@ =~= blank_board(keys as nat));
        r
    }

    fn open(&mut self, time: i64)
        ensures
            final(self)@ == opened(old(self)@, time as int),
    {
        let n: usize = self.rows.len();
        let ghost before = self@;
        if n > 0 {
            assert(before.rows.last() == self.rows@[n - 1]@);
            if time <= self.rows[n - 1].time {
                return;
            }
        }
        let mut data: Vec<NoteType> = Vec::new();
        let mut c: usize = 0;
        while c < self.until.len()
            invariant
                c <= self.until@.len(),
                self.until@ == before.until,
                row_views(self.rows@) == before.rows,
                data@.len() == c,
                forall|d: int|
                    0 <= d < c ==> #[trigger] data@[d] == held_row(time as int, before.until).data[d],
            decreases self.until@.len() - c,
        {
            data.push(
                if self.until[c].is_some() {
                    NoteType::HoldBody
                } else {
                    NoteType::Nothing
                },
            );
            c = c + 1;
        }
        assert(data@ =~= held_row(time as int, before.until).data);
        self.rows.push(Row { time, data });
        assert(self@.rows =~= opened(before, time as int).rows);
    }

    fn cell(&self, c: usize) -> (r: NoteType)
        requires
            board_valid(self@),
            self@.rows.len() > 0,
            c < self@.until.len(),
        ensures
            r == cell(self@, c as int),
    {
        let n: usize = self.rows.len() - 1;
        assert(self@.rows[n as int] == self.rows@[n as int]@);
        self.rows[n].data[c]
    }

    fn put(&mut self, c: usize, kind: NoteType)
        requires
            board_valid(old(self)@),
            old(self)@.rows.len() > 0,
            c < old(self)@.until.len(),
        ensures
            final(self)@ == put(old(self)@, c as int, kind),
    {
        let ghost before = self@;
        assert(before.rows.len() == self.rows@.len());
        assert(before.rows.last() == self.rows@.last()@);
        let mut row = self.rows.pop().unwrap();
        assert(row_views(self.rows@) =~= before.rows.drop_last());
        row.data.set(c, kind);
        self.rows.push(row);
        assert(self@.rows =~= put(before, c as int, kind).rows);
    }

    fn first_release(&self) -> (r: Option<i64>)
        ensures
            r == earliest(self@.until, self@.until.len()),
    {
        let mut best: Option<i64> = None;
        let mut c: usize = 0;
        while c < self.until.len()
            invariant
                c <= self.until@.len(),
                best == earliest(self.until@, c as nat),
            decreases self.until@.len() - c,
        {
            best = match (best, self.until[c]) {
                (Some(a), Some(b)) => {
                    if b < a {
                        Some(b)
                    } else {
                        best
                    }
                },
                (None, b) => b,
                (_, None) => best,
            };
            c = c + 1;
        }
        best
    }

    /// Lets go what is due at `e`.
    fn release(&mut self, e: i64) -> (r: Result<(), ChartError>)
        requires
            board_valid(old(self)@),
        ensures
            match r {
                Ok(_) => let_all_go(old(self)@, e, old(self)@.until.len()) == Ok::<
                    BoardView,
                    ChartError,
                >(final(self)@),
                Err(x) => let_all_go(old(self)@, e, old(self)@.until.len()) == Err::<
                    BoardView,
                    ChartError,
                >(x),
            },
    {
        let ghost before = self@;
        let mut c: usize = 0;
        while c < self.until.len()
            invariant
                before == old(self)@,
                board_valid(before),
                board_valid(self@),
                c <= self.until@.len(),
                self@.until.len() == before.until.len(),
                let_all_go(before, e, c as nat) == Ok::<BoardView, ChartError>(self@),
            decreases self.until@.len() - c,
        {
            proof {
                lemma_let_go_valid(self@, e, c as int);
            }
            let due_now = match self.until[c] {
                Some(u) => u == e,
                None => false,
            };
            if due_now {
                proof {
                    assert(in_range(self@.until[c as int]));
                    lemma_opened(self@, e as int);
                }
                let ghost held = self@;
                self.open(e);
                let kind = self.cell(c);
                if kind == NoteType::Nothing || kind == NoteType::HoldBody {
                    self.put(c, NoteType::HoldTail);
                    let ghost set = self@;
                    self.until.set(c, None);
                    assert(let_go(held, e, c as int) == Ok::<BoardView, ChartError>(self@));
                } else {
                    proof {
                        assert(let_go(held, e, c as int) == Err::<BoardView, ChartError>(
                            ChartError::TailConflict,
                        ));
                        lemma_conflict_stays(before, e, (c + 1) as nat, before.until.len());
                    }
                    return Err(ChartError::TailConflict);
                }
            }
            c = c + 1;
        }
        Ok(())
    }

    /// Lets go all that is due before a time.
    fn finish(&mut self, time: Option<i64>) -> (r: Result<(), ChartError>)
        requires
            board_valid(old(self)@),
        ensures
            match r {
                Ok(_) => finished(old(self)@, moment(time)) == Ok::<BoardView, ChartError>(
                    final(self)@,
                ) && board_valid(final(self)@) && final(self)@.until.len() == old(
                    self,
                )@.until.len(),
                Err(x) => finished(old(self)@, moment(time)) == Err::<BoardView, ChartError>(x),
            },
    {
        let ghost before = self@;
        loop
            invariant
                before == old(self)@,
                board_valid(before),
                board_valid(self@),
                self@.until.len() == before.until.len(),
                finished(before, moment(time)) == finished(self@, moment(time)),
            decreases held_count(self@.until, self@.until.len()),
        {
            let e = match self.first_release() {
                Some(e) => e,
                None => {
                    return Ok(());
                },
            };
            let due_now = match time {
                Some(t) => e < t,
                None => true,
            };
            if !due_now {
                return Ok(());
            }
            let ghost held = self@;
            proof {
                lemma_let_all_go(held, e, held.until.len());
                lemma_let_all_go_valid(held, e, held.until.len());
            }
            if let Err(x) = self.release(e) {
                return Err(x);
            }
            proof {
                lemma_fewer_held(held.until, self@.until, e, held.until.len());
            }
        }
    }

    /// Adds a note.
    fn place(&mut self, n: Note) -> (r: Result<(), ChartError>)
        requires
            board_valid(old(self)@),
            note_valid(n),
        ensures
            match r {
                Ok(_) => placed(old(self)@, n) == Ok::<BoardView, ChartError>(final(self)@)
                    && board_valid(final(self)@) && final(self)@.until.len() == old(
                    self,
                )@.until.len(),
                Err(x) => placed(old(self)@, n) == Err::<BoardView, ChartError>(x),
            },
    {
        let ghost before = self@;
        proof {
            lemma_placed_valid(before, n);
            lemma_column(n.x, before.until.len());
        }
        let c: usize = column_at(n.x, self.until.len());
        match n.time {
            Some(t) => {
                if let Err(x) = self.finish(Some(t)) {
                    return Err(x);
                }
                self.open(t);
            },
            None => {
                if self.rows.len() == 0 {
                    self.open(TIME_LIMIT);
                }
            },
        }
        let ghost here = self@;
        assert(reached(before, n.time) == Ok::<BoardView, ChartError>(here));
        let kind = self.cell(c);
        let long = match (n.time, n.end) {
            (Some(t), Some(e)) => e > t,
            _ => false,
        };
        if long {
            if kind == NoteType::Nothing || kind == NoteType::Normal {
                self.put(c, NoteType::HoldHead);
                self.until.set(c, n.end);
                assert(placed(before, n) == Ok::<BoardView, ChartError>(self@));
            } else {
                return Err(ChartError::StackedHold { time: n.time, column: c + 1, kind });
            }
        } else if kind == NoteType::Nothing {
            self.put(c, NoteType::Normal);
        } else if kind == NoteType::Normal || kind == NoteType::HoldHead {
        } else {
            return Err(ChartError::StackedNote { time: n.time, column: c + 1, kind });
        }
        Ok(())
    }
}

spec fn moment(time: Option<i64>) -> Option<int> {
    match time {
        Some(t) => Some(t as int),
        None => None,
    }
}

proof fn lemma_conflict_stays(b: BoardView, e: i64, m: nat, n: nat)
    requires
        m <= n,
        let_all_go(b, e, m) is Err,
    ensures
        let_all_go(b, e, n) == let_all_go(b, e, m),
    decreases n - m,
{
    if m < n {
        lemma_conflict_stays(b, e, m + 1, n);
    }
}

/// The column of a horizontal coordinate.
fn column_at(x: Option<i128>, keys: usize) -> (r: usize)
    requires
        keys > 0,
    ensures
        r == column_of(x, keys as nat),
        r < keys,
{
    proof {
        lemma_column(x, keys as nat);
    }
    match x {
        Some(t) => {
            if t <= 0 {
                0
            } else if t >= 512 * TICKS {
                keys - 1
            } else {
                proof {
                    let d = 512 * TICKS;
                    assert(t * keys <= d * 0xffff_ffff_ffff_ffff) by (nonlinear_arith)
                        requires
                            0 < t < d,
                            0 <= keys <= 0xffff_ffff_ffff_ffff,
                    ;
                }
                (t * (keys as i128) / (512 * TICKS)) as usize
            }
        },
        None => 0,
    }
}

/// Lays notes out in rows.
pub fn convert_hit_objects(notes: &[Note], keys: usize) -> (r: Result<Vec<Row>, ChartError>)
    requires
        0 < keys,
        notes_valid(notes@),
    ensures
        match r {
            Ok(rows) => rows_of(notes@, keys as nat) == Ok::<Seq<RowView>, ChartError>(
                row_views(rows@),
            ) && rows_valid(row_views(rows@), keys as nat),
            Err(x) => rows_of(notes@, keys as nat) == Err::<Seq<RowView>, ChartError>(x),
        },
{
    let mut board = Board::new(keys);
    let mut i: usize = 0;
    proof {
        assert(notes@.take(0) =~= Seq::<Note>::empty());
        law_rows_are_in_order(notes@, keys as nat);
    }
    while i < notes.len()
        invariant
            0 < keys,
            i <= notes@.len(),
            notes_valid(notes@),
            board_valid(board@),
            board@.until.len() == keys,
            laid(notes@.take(i as int), keys as nat) == Ok::<BoardView, ChartError>(board@),
        decreases notes@.len() - i,
    {
        proof {
            assert(note_valid(notes@[i as int]));
            assert(notes@.take(i + 1).drop_last() =~= notes@.take(i as int));
        }
        if let Err(x) = board.place(notes[i]) {
            proof {
                lemma_laying_fails(notes@, keys as nat, i + 1);
            }
            return Err(x);
        }
        i = i + 1;
    }
    assert(notes@.take(i as int) =~= notes@);
    match board.finish(None) {
        Ok(_) => Ok(board.rows),
        Err(x) => Err(x),
    }
}

proof fn lemma_laying_fails(notes: Seq<Note>, keys: nat, n: int)
    requires
        0 <= n <= notes.len(),
        laid(notes.take(n), keys) is Err,
    ensures
        laid(notes, keys) == laid(notes.take(n), keys),
    decreases notes.len() - n,
{
    if n < notes.len() {
        assert(notes.take(n + 1).drop_last() =~= notes.take(n));
        lemma_laying_fails(notes, keys, n + 1);
    } else {
        assert(notes.take(n) =~= notes);
    }
}

} // verus!
