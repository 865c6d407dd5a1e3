//! The rows of a chart, told by its notes.

use crate::board::{
    column_of, due, earliest, finished, held_row, laid, let_all_go, let_go, opened, placed, put,
    rows_of, BoardView,
};
use crate::chart::{NoteType, RowView};
use crate::course::is_hit;
use crate::number::TICKS;
use crate::parser::Note;
use vstd::prelude::*;

verus! {

/// Whether all notes have times, and come in the order of them.
pub open spec fn timed_in_order(notes: Seq<Note>) -> bool {
    &&& forall|k: int| 0 <= k < notes.len() ==> (#[trigger] notes[k]).time is Some
    &&& forall|k: int, l: int|
        0 <= k < l < notes.len() ==> (#[trigger] notes[k]).time->0 <= (#[trigger] notes[l]).time->0
}

/// Whether a row at a time strikes a column.
pub open spec fn strikes_at(rows: Seq<RowView>, t: int, column: int) -> bool {
    exists|i: int| 0 <= i < rows.len() && (#[trigger] rows[i]).time == t && is_hit(rows[i], column)
}

/// Whether one of the first `n` notes lies at a time on a column.
pub open spec fn note_at(notes: Seq<Note>, keys: nat, n: nat, t: int, column: int) -> bool {
    exists|k: int|
        0 <= k < n && (#[trigger] notes[k]).time->0 == t && column_of(notes[k].x, keys) == column
}

spec fn wide(b: BoardView) -> bool {
    forall|i: int| 0 <= i < b.rows.len() ==> (#[trigger] b.rows[i]).data.len() == b.until.len()
}

spec fn same_hits(a: BoardView, b: BoardView) -> bool {
    forall|t: int, column: int|
        0 <= column < b.until.len() ==> #[trigger] strikes_at(a.rows, t, column) == strikes_at(
            b.rows,
            t,
            column,
        )
}

spec fn not_later(b: BoardView, t: int) -> bool {
    b.rows.len() == 0 || b.rows.last().time <= t
}

proof fn lemma_opened(b: BoardView, time: int)
    requires
        wide(b),
    ensures
        wide(opened(b, time)),
        same_hits(opened(b, time), b),
        opened(b, time).until == b.until,
        opened(b, time).rows.len() > 0,
        opened(b, time).rows.last().time >= time,
        not_later(b, time) ==> opened(b, time).rows.last().time == time,
{
    let o = opened(b, time);
    if b.rows.len() == 0 || time > b.rows.last().time {
        let row = held_row(time, b.until);
        assert(o.rows =~= b.rows.push(row));
        assert forall|t: int, column: int| 0 <= column < b.until.len() implies #[trigger] strikes_at(
            o.rows,
            t,
            column,
        ) == strikes_at(b.rows, t, column) by {
            if strikes_at(o.rows, t, column) {
                let i = choose|i: int|
                    0 <= i < o.rows.len() && (#[trigger] o.rows[i]).time == t && is_hit(
                        o.rows[i],
                        column,
                    );
                if i < b.rows.len() {
                    assert(b.rows[i] == o.rows[i]);
                } else {
                    assert(o.rows[i] == row);
                }
            }
            if strikes_at(b.rows, t, column) {
                let i = choose|i: int|
                    0 <= i < b.rows.len() && (#[trigger] b.rows[i]).time == t && is_hit(
                        b.rows[i],
                        column,
                    );
                assert(o.rows[i] == b.rows[i]);
            }
        }
        assert forall|i: int| 0 <= i < o.rows.len() implies (#[trigger] o.rows[i]).data.len()
            == o.until.len() by {
            if i < b.rows.len() {
                assert(o.rows[i] == b.rows[i]);
            }
        }
    }
}

proof fn lemma_put(b: BoardView, c: int, kind: NoteType)
    requires
        wide(b),
        b.rows.len() > 0,
        0 <= c < b.until.len(),
        is_hit(b.rows.last(), c) ==> kind == NoteType::Normal || kind == NoteType::HoldHead,
    ensures
        ({
            let p = put(b, c, kind);
            &&& wide(p)
            &&& p.until == b.until
            &&& p.rows.len() == b.rows.len()
            &&& p.rows.last().time == b.rows.last().time
            &&& forall|t: int, column: int|
                0 <= column < b.until.len() ==> #[trigger] strikes_at(p.rows, t, column) == (
                strikes_at(b.rows, t, column) || ((kind == NoteType::Normal || kind
                    == NoteType::HoldHead) && t == b.rows.last().time && column == c))
        }),
{
    let p = put(b, c, kind);
    let n = b.rows.len() - 1;
    assert(b.rows[n].data.len() == b.until.len());
    assert forall|i: int| 0 <= i < n implies #[trigger] p.rows[i] == b.rows[i] by {}
    assert(p.rows[n].data == b.rows[n].data.update(c, kind));
    assert forall|i: int| 0 <= i < p.rows.len() implies (#[trigger] p.rows[i]).data.len()
        == p.until.len() by {
        if i < n {
            assert(p.rows[i] == b.rows[i]);
        }
    }
    assert forall|t: int, column: int| 0 <= column < b.until.len() implies #[trigger] strikes_at(
        p.rows,
        t,
        column,
    ) == (strikes_at(b.rows, t, column) || ((kind == NoteType::Normal || kind
        == NoteType::HoldHead) && t == b.rows.last().time && column == c)) by {
        if strikes_at(p.rows, t, column) {
            let i = choose|i: int|
                0 <= i < p.rows.len() && (#[trigger] p.rows[i]).time == t && is_hit(
                    p.rows[i],
                    column,
                );
            if i < n {
                assert(b.rows[i] == p.rows[i]);
            } else if column != c {
                assert(is_hit(b.rows[n], column));
            }
        }
        if strikes_at(b.rows, t, column) {
            let i = choose|i: int|
                0 <= i < b.rows.len() && (#[trigger] b.rows[i]).time == t && is_hit(
                    b.rows[i],
                    column,
                );
            if i < n {
                assert(p.rows[i] == b.rows[i]);
            } else {
                assert(is_hit(p.rows[n], column));
            }
        }
        if (kind == NoteType::Normal || kind == NoteType::HoldHead) && t == b.rows.last().time
            && column == c {
            assert(is_hit(p.rows[n], column));
        }
    }
}

proof fn lemma_let_go(b: BoardView, e: i64, c: int, t: int)
    requires
        wide(b),
        0 <= c < b.until.len(),
        not_later(b, t),
        e <= t,
    ensures
        let_go(b, e, c) matches Ok(a) ==> wide(a) && same_hits(a, b) && not_later(a, t)
            && a.until.len() == b.until.len(),
{
    if b.until[c] == Some(e) {
        let o = opened(b, e as int);
        lemma_opened(b, e as int);
        assert(o.rows[o.rows.len() - 1].data.len() == o.until.len());
        if let Ok(a) = let_go(b, e, c) {
            lemma_put(o, c, NoteType::HoldTail);
            let p = put(o, c, NoteType::HoldTail);
            assert(a.rows == p.rows);
            assert forall|u: int, column: int|
                0 <= column < b.until.len() implies #[trigger] strikes_at(a.rows, u, column)
                == strikes_at(b.rows, u, column) by {
                assert(strikes_at(p.rows, u, column) == strikes_at(o.rows, u, column));
            }
            assert(b.rows.len() == 0 || e > b.rows.last().time || o == b);
        }
    }
}

proof fn lemma_let_all_go(b: BoardView, e: i64, n: nat, t: int)
    requires
        wide(b),
        n <= b.until.len(),
        not_later(b, t),
        e <= t,
    ensures
        let_all_go(b, e, n) matches Ok(a) ==> wide(a) && same_hits(a, b) && not_later(a, t)
            && a.until.len() == b.until.len(),
    decreases n,
{
    if n > 0 {
        lemma_let_all_go(b, e, (n - 1) as nat, t);
        if let Ok(m) = let_all_go(b, e, (n - 1) as nat) {
            lemma_let_go(m, e, n - 1, t);
            if let Ok(a) = let_all_go(b, e, n) {
                assert forall|u: int, column: int|
                    0 <= column < b.until.len() implies #[trigger] strikes_at(a.rows, u, column)
                    == strikes_at(b.rows, u, column) by {
                    assert(strikes_at(a.rows, u, column) == strikes_at(m.rows, u, column));
                }
            }
        }
    }
}

proof fn lemma_finished(b: BoardView, time: Option<int>)
    requires
        wide(b),
        time matches Some(t) ==> not_later(b, t),
    ensures
        finished(b, time) matches Ok(a) ==> {
            &&& wide(a)
            &&& same_hits(a, b)
            &&& a.until.len() == b.until.len()
            &&& time matches Some(t) ==> not_later(a, t)
        },
    decreases crate::board::held_count(b.until, b.until.len()),
{
    match earliest(b.until, b.until.len()) {
        Some(e) if due(e, time) => {
            let t = match time {
                Some(t) => t,
                None => if b.rows.len() == 0 || b.rows.last().time < e {
                    e as int
                } else {
                    b.rows.last().time
                },
            };
            lemma_let_all_go(b, e, b.until.len(), t);
            if let Ok(a) = let_all_go(b, e, b.until.len()) {
                crate::board::lemma_let_all_go(b, e, b.until.len());
                crate::board::lemma_fewer_held(b.until, a.until, e, b.until.len());
                lemma_finished(a, time);
                if let Ok(z) = finished(b, time) {
                    assert forall|u: int, column: int|
                        0 <= column < b.until.len() implies #[trigger] strikes_at(z.rows, u, column)
                        == strikes_at(b.rows, u, column) by {
                        assert(strikes_at(z.rows, u, column) == strikes_at(a.rows, u, column));
                    }
                }
            }
        },
        _ => {},
    }
}

proof fn lemma_placed(b: BoardView, n: Note)
    requires
        wide(b),
        b.until.len() > 0,
        n.time is Some,
        not_later(b, n.time->0 as int),
    ensures
        placed(b, n) matches Ok(a) ==> {
            &&& wide(a)
            &&& a.until.len() == b.until.len()
            &&& a.rows.len() > 0
            &&& a.rows.last().time == n.time->0
            &&& forall|t: int, column: int|
                0 <= column < b.until.len() ==> #[trigger] strikes_at(a.rows, t, column) == (
                strikes_at(b.rows, t, column) || (t == n.time->0 && column == column_of(
                    n.x,
                    b.until.len(),
                )))
        },
{
    let t = n.time->0 as int;
    let c = column_of(n.x, b.until.len());
    crate::board::lemma_column(n.x, b.until.len());
    lemma_finished(b, Some(t));
    if let Ok(f) = finished(b, Some(t)) {
        lemma_opened(f, t);
        let o = opened(f, t);
        assert forall|u: int, column: int| 0 <= column < b.until.len() implies #[trigger] strikes_at(
            o.rows,
            u,
            column,
        ) == strikes_at(b.rows, u, column) by {
            assert(strikes_at(f.rows, u, column) == strikes_at(b.rows, u, column));
        }
        let last = o.rows.len() - 1;
        if is_hit(o.rows[last], c) {
            assert(strikes_at(o.rows, t, c));
        }
        lemma_put_if(o, c, NoteType::HoldHead);
        lemma_put_if(o, c, NoteType::Normal);
        if let Ok(a) = placed(b, n) {
            assert forall|u: int, column: int|
                0 <= column < b.until.len() implies #[trigger] strikes_at(a.rows, u, column) == (
            strikes_at(b.rows, u, column) || (u == t && column == c)) by {
                assert(strikes_at(o.rows, u, column) == strikes_at(b.rows, u, column));
            }
        }
    }
}

proof fn lemma_put_if(b: BoardView, c: int, kind: NoteType)
    requires
        wide(b),
        b.rows.len() > 0,
        0 <= c < b.until.len(),
        kind == NoteType::Normal || kind == NoteType::HoldHead,
    ensures
        ({
            let p = put(b, c, kind);
            &&& wide(p)
            &&& p.until == b.until
            &&& p.rows.len() == b.rows.len()
            &&& p.rows.last().time == b.rows.last().time
            &&& forall|t: int, column: int|
                0 <= column < b.until.len() ==> #[trigger] strikes_at(p.rows, t, column) == (
                strikes_at(b.rows, t, column) || (t == b.rows.last().time && column == c))
        }),
{
    lemma_put(b, c, kind);
}

proof fn lemma_laid(notes: Seq<Note>, keys: nat)
    requires
        keys > 0,
        timed_in_order(notes),
    ensures
        laid(notes, keys) matches Ok(b) ==> {
            &&& wide(b)
            &&& b.until.len() == keys
            &&& notes.len() == 0 ==> b.rows.len() == 0
            &&& notes.len() > 0 ==> b.rows.len() > 0 && b.rows.last().time == notes.last().time->0
            &&& forall|t: int, column: int|
                0 <= column < keys ==> #[trigger] strikes_at(b.rows, t, column) == note_at(
                    notes,
                    keys,
                    notes.len(),
                    t,
                    column,
                )
        },
    decreases notes.len(),
{
    if notes.len() > 0 {
        let front = notes.drop_last();
        let n = notes.last();
        let m = front.len();
        assert(timed_in_order(front)) by {
            assert forall|k: int| 0 <= k < front.len() implies (#[trigger] front[k]).time is Some by {
                assert(front[k] == notes[k]);
            }
            assert forall|k: int, l: int| 0 <= k < l < front.len() implies (#[trigger] front[k]).time->0
                <= (#[trigger] front[l]).time->0 by {
                assert(front[k] == notes[k] && front[l] == notes[l]);
            }
        }
        lemma_laid(front, keys);
        if let Ok(b) = laid(front, keys) {
            if m > 0 {
                assert(front.last() == notes[m - 1]);
                assert(notes[m - 1].time->0 <= notes[m as int].time->0);
            }
            assert(notes[m as int].time is Some);
            lemma_placed(b, n);
            if let Ok(a) = laid(notes, keys) {
                assert forall|t: int, column: int| 0 <= column < keys implies #[trigger] strikes_at(
                    a.rows,
                    t,
                    column,
                ) == note_at(notes, keys, notes.len(), t, column) by {
                    assert(strikes_at(b.rows, t, column) == note_at(front, keys, m, t, column));
                    if note_at(front, keys, m, t, column) {
                        let k = choose|k: int|
                            0 <= k < m && (#[trigger] front[k]).time->0 == t && column_of(
                                front[k].x,
                                keys,
                            ) == column;
                        assert(notes[k] == front[k]);
                    }
                    if note_at(notes, keys, notes.len(), t, column) {
                        let k = choose|k: int|
                            0 <= k < notes.len() && (#[trigger] notes[k]).time->0 == t && column_of(
                                notes[k].x,
                                keys,
                            ) == column;
                        if k < m {
                            assert(front[k] == notes[k]);
                        }
                    }
                    if t == n.time->0 && column == column_of(n.x, keys) {
                        assert(notes[m as int] == n);
                    }
                }
            }
        }
    }
}

/// The rows of a chart strike just where its notes are: a row at a time strikes
/// a column just if a note lies at that time on that column.
pub proof fn law_rows_strike_where_notes_are(notes: Seq<Note>, keys: nat, t: int, column: int)
    requires
        timed_in_order(notes),
        0 <= column < keys,
    ensures
        rows_of(notes, keys) matches Ok(rows) ==> (strikes_at(rows, t, column) <==> note_at(
            notes,
            keys,
            notes.len(),
            t,
            column,
        )),
{
    lemma_laid(notes, keys);
    if let Ok(b) = laid(notes, keys) {
        lemma_finished(b, None);
        if let Ok(a) = finished(b, None) {
            assert(strikes_at(a.rows, t, column) == strikes_at(b.rows, t, column));
        }
    }
}

/// The columns of a chart share a field 512 wide evenly; what lies beyond it
/// belongs to the column at the edge, and so does a note without a coordinate
/// to the first.
pub proof fn law_columns_share_the_field(x: Option<i128>, keys: nat)
    requires
        keys > 0,
    ensures
        ({
            let column = column_of(x, keys);
            &&& 0 <= column < keys
            &&& match x {
                None => column == 0,
                Some(t) => {
                    &&& t <= 0 ==> column == 0
                    &&& t >= 512_000_000_000_000 ==> column == keys - 1
                    &&& 0 < t < 512_000_000_000_000 ==> column * 512_000_000_000_000 <= t * keys < (
                    column + 1) * 512_000_000_000_000
                },
            }
        }),
{
    crate::board::lemma_column(x, keys);
    if let Some(t) = x {
        let width = 512 * TICKS;
        assert(width == 512_000_000_000_000);
        let p = t * keys;
        assert(p / width == p / 512_000_000_000_000int);
    }
}

} // verus!
