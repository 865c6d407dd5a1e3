//! What the rows of a chart say of holds: each head is followed by bodies up to
//! one tail, which stands where the hold ends.

use crate::board::{
    blank_board, cell, column_of, due, earliest, finished, held_count, held_row, laid, lasts,
    lemma_column, lemma_fewer_held, lemma_let_all_go, let_all_go, let_go, opened, placed, put,
    reached, rows_of, BoardView,
};
use crate::chart::{NoteType, RowView, TIME_LIMIT};
use crate::parser::{chart_of, law_chart_is_valid, Note};
use vstd::prelude::*;

verus! {

/// Whether a column is held after a row that holds this.
pub open spec fn begun(kind: NoteType) -> bool {
    kind == NoteType::HoldHead || kind == NoteType::HoldBody
}

/// Whether a column was held before a row that holds this.
pub open spec fn inside(kind: NoteType) -> bool {
    kind == NoteType::HoldBody || kind == NoteType::HoldTail
}

/// Whether the cells of a column fit together: a body or a tail stands exactly
/// where a head or a body stands in the row before.
pub open spec fn cells_fit(rows: Seq<RowView>, c: int) -> bool {
    &&& rows.len() > 0 ==> !inside(rows[0].data[c])
    &&& forall|i: int, j: int|
        0 <= i && j == i + 1 && j < rows.len() ==> begun((#[trigger] rows[i]).data[c]) == inside(
            (#[trigger] rows[j]).data[c],
        )
}

/// Whether a hold stands in a column from row `h` to row `t`: a head, bodies
/// and a tail.
pub open spec fn is_hold_of(rows: Seq<RowView>, c: int, h: int, t: int) -> bool {
    &&& 0 <= h < t < rows.len()
    &&& rows[h].data[c] == NoteType::HoldHead
    &&& rows[t].data[c] == NoteType::HoldTail
    &&& forall|i: int| h < i < t ==> (#[trigger] rows[i]).data[c] == NoteType::HoldBody
}

/// Whether a hold stands in a column from row `h` on and ends at `e`.
pub open spec fn ends_at(rows: Seq<RowView>, c: int, h: int, e: int) -> bool {
    exists|t: int| #[trigger] is_hold_of(rows, c, h, t) && rows[t].time == e
}

/// Whether a hold from row `h` on is still held, until `e`, or has ended at
/// `e`.
spec fn held_from(b: BoardView, c: int, h: int, e: i64) -> bool {
    ||| {
        &&& b.until[c] == Some(e)
        &&& 0 <= h < b.rows.len()
        &&& b.rows[h].data[c] == NoteType::HoldHead
        &&& forall|i: int|
            h < i < b.rows.len() ==> (#[trigger] b.rows[i]).data[c] == NoteType::HoldBody
    }
    ||| ends_at(b.rows, c, h, e as int)
}

/// Whether note `k` is a hold in a column.
pub open spec fn is_lasting(notes: Seq<Note>, keys: nat, c: int, k: int) -> bool {
    0 <= k < notes.len() && lasts(notes[k]) && column_of(notes[k].x, keys) == c
}

spec fn note_told(b: BoardView, n: Note) -> bool {
    exists|h: int| #[trigger] held_from(b, column_of(n.x, b.until.len()), h, n.end->0)
}

spec fn head_told(b: BoardView, notes: Seq<Note>, c: int, h: int) -> bool {
    exists|k: int| #[trigger]
        is_lasting(notes, b.until.len(), c, k) && held_from(b, c, h, notes[k].end->0)
}

spec fn column_fits(b: BoardView, c: int) -> bool {
    &&& cells_fit(b.rows, c)
    &&& b.rows.len() == 0 ==> b.until[c] is None
    &&& b.rows.len() > 0 ==> (begun(b.rows.last().data[c]) <==> b.until[c] is Some)
    &&& b.until[c] matches Some(e) ==> e >= b.rows.last().time || b.rows.last().data[c]
        == NoteType::HoldHead
}

spec fn wide(b: BoardView) -> bool {
    forall|i: int| 0 <= i < b.rows.len() ==> (#[trigger] b.rows[i]).data.len() == b.until.len()
}

/// Whether the rows so far say of each hold among some notes where it starts
/// and until when it is held.
spec fn told(b: BoardView, notes: Seq<Note>) -> bool {
    &&& wide(b)
    &&& forall|c: int| 0 <= c < b.until.len() ==> #[trigger] column_fits(b, c)
    &&& forall|k: int|
        0 <= k < notes.len() && lasts(#[trigger] notes[k]) ==> note_told(b, notes[k])
    &&& forall|c: int, h: int|
        0 <= c < b.until.len() && 0 <= h < b.rows.len() && (#[trigger] b.rows[h].data[c])
            == NoteType::HoldHead ==> head_told(b, notes, c, h)
}

spec fn none_before(b: BoardView, time: int) -> bool {
    forall|c: int|
        0 <= c < b.until.len() ==> (#[trigger] b.until[c] matches Some(e) ==> e >= time)
}

/// Whether holds stay where they were from one board to the next.
spec fn keeps_holds(b: BoardView, a: BoardView) -> bool {
    forall|c: int, h: int, e: i64|
        0 <= c < b.until.len() && #[trigger] held_from(b, c, h, e) ==> held_from(a, c, h, e)
}

proof fn lemma_told_kept(b: BoardView, a: BoardView, notes: Seq<Note>)
    requires
        told(b, notes),
        wide(a),
        a.until.len() == b.until.len() > 0,
        keeps_holds(b, a),
        forall|c: int| 0 <= c < a.until.len() ==> #[trigger] column_fits(a, c),
        forall|c: int, h: int|
            0 <= c < a.until.len() && 0 <= h < a.rows.len() && (#[trigger] a.rows[h].data[c])
                == NoteType::HoldHead ==> h < b.rows.len() && b.rows[h].data[c]
                == NoteType::HoldHead,
    ensures
        told(a, notes),
{
    assert forall|k: int| 0 <= k < notes.len() && lasts(#[trigger] notes[k]) implies note_told(
        a,
        notes[k],
    ) by {
        assert(note_told(b, notes[k]));
        let c = column_of(notes[k].x, b.until.len());
        lemma_column(notes[k].x, b.until.len());
        let h = choose|h: int| #[trigger] held_from(b, c, h, notes[k].end->0);
        assert(held_from(a, c, h, notes[k].end->0));
    }
    assert forall|c: int, h: int|
        0 <= c < a.until.len() && 0 <= h < a.rows.len() && (#[trigger] a.rows[h].data[c])
            == NoteType::HoldHead implies head_told(a, notes, c, h) by {
        assert(b.rows[h].data[c] == NoteType::HoldHead);
        assert(head_told(b, notes, c, h));
        let k = choose|k: int| #[trigger]
            is_lasting(notes, b.until.len(), c, k) && held_from(b, c, h, notes[k].end->0);
        assert(held_from(a, c, h, notes[k].end->0));
        assert(is_lasting(notes, a.until.len(), c, k));
    }
}

proof fn lemma_opened(b: BoardView, time: int, notes: Seq<Note>)
    requires
        told(b, notes),
        b.until.len() > 0,
        none_before(b, time),
    ensures
        told(opened(b, time), notes),
        opened(b, time).until == b.until,
        opened(b, time).rows.len() > 0,
        opened(b, time).rows.last().time >= time,
        b.rows.len() == 0 || time > b.rows.last().time ==> opened(b, time).rows.last().time
            == time,
{
    let a = opened(b, time);
    if b.rows.len() == 0 || time > b.rows.last().time {
        let n = b.rows.len() as int;
        assert(a.rows[n] == held_row(time, b.until));
        assert forall|c: int| 0 <= c < a.until.len() implies #[trigger] column_fits(a, c) by {
            assert(column_fits(b, c));
            assert(b.until[c] matches Some(e) ==> e >= time);
            assert forall|i: int, j: int|
                0 <= i && j == i + 1 && j < a.rows.len() implies begun(
                (#[trigger] a.rows[i]).data[c],
            ) == inside((#[trigger] a.rows[j]).data[c]) by {
                if j < n {
                    assert(a.rows[i] == b.rows[i] && a.rows[j] == b.rows[j]);
                } else {
                    assert(a.rows[i] == b.rows.last());
                }
            }
        }
        assert forall|c: int, h: int, e: i64|
            0 <= c < b.until.len() && #[trigger] held_from(b, c, h, e) implies held_from(
            a,
            c,
            h,
            e,
        ) by {
            if ends_at(b.rows, c, h, e as int) {
                let t = choose|t: int| #[trigger]
                    is_hold_of(b.rows, c, h, t) && b.rows[t].time == e;
                assert forall|i: int| h < i < t implies (#[trigger] a.rows[i]).data[c]
                    == NoteType::HoldBody by {
                    assert(a.rows[i] == b.rows[i]);
                }
                assert(is_hold_of(a.rows, c, h, t));
            } else {
                assert forall|i: int| h < i < a.rows.len() implies (#[trigger] a.rows[i]).data[c]
                    == NoteType::HoldBody by {
                    if i < n {
                        assert(a.rows[i] == b.rows[i]);
                    }
                }
            }
        }
        lemma_told_kept(b, a, notes);
    }
}

/// Putting something that is neither held before nor after where nothing is
/// held, or a tail where a column is let go.
proof fn lemma_put(b: BoardView, c: int, kind: NoteType, until: Option<i64>, notes: Seq<Note>)
    requires
        told(b, notes),
        b.rows.len() > 0,
        0 <= c < b.until.len(),
        ({
            ||| {
                &&& kind == NoteType::Normal
                &&& cell(b, c) == NoteType::Nothing
                &&& until == b.until[c]
            }
            ||| {
                &&& kind == NoteType::HoldTail
                &&& cell(b, c) == NoteType::HoldBody
                &&& b.until[c] == Some(b.rows.last().time as i64)
                &&& b.rows.last().time == b.until[c]->0
                &&& until is None
            }
        }),
    ensures
        told(
            (BoardView { rows: put(b, c, kind).rows, until: b.until.update(c, until) }),
            notes,
        ),
{
    let a = BoardView { rows: put(b, c, kind).rows, until: b.until.update(c, until) };
    let n = b.rows.len() - 1;
    assert(column_fits(b, c));
    assert forall|i: int| 0 <= i < n implies #[trigger] a.rows[i] == b.rows[i] by {}
    assert(a.rows[n].data == b.rows[n].data.update(c, kind));
    assert(b.rows[n].data.len() == b.until.len());
    assert forall|d: int| 0 <= d < a.until.len() implies #[trigger] column_fits(a, d) by {
        assert(column_fits(b, d));
        assert forall|i: int, j: int| 0 <= i && j == i + 1 && j < a.rows.len() implies begun(
            (#[trigger] a.rows[i]).data[d],
        ) == inside((#[trigger] a.rows[j]).data[d]) by {
            assert(begun(b.rows[i].data[d]) == inside(b.rows[j].data[d]));
        }
    }
    assert forall|d: int, h: int, e: i64|
        0 <= d < b.until.len() && #[trigger] held_from(b, d, h, e) implies held_from(
        a,
        d,
        h,
        e,
    ) by {
        assert(column_fits(b, d));
        if ends_at(b.rows, d, h, e as int) {
            let t = choose|t: int| #[trigger] is_hold_of(b.rows, d, h, t) && b.rows[t].time == e;
            assert forall|i: int| h < i < t implies (#[trigger] a.rows[i]).data[d]
                == NoteType::HoldBody by {
                assert(a.rows[i] == b.rows[i]);
            }
            assert(is_hold_of(a.rows, d, h, t));
        } else if d == c && kind == NoteType::HoldTail {
            assert(h < n) by {
                if h == n {
                    assert(b.rows[h].data[c] == cell(b, c));
                }
            }
            assert forall|i: int| h < i < n implies (#[trigger] a.rows[i]).data[d]
                == NoteType::HoldBody by {
                assert(a.rows[i] == b.rows[i]);
            }
            assert(is_hold_of(a.rows, c, h, n));
            assert(a.rows[n].time == e);
        } else {
            assert forall|i: int| h < i < a.rows.len() implies (#[trigger] a.rows[i]).data[d]
                == NoteType::HoldBody by {
                assert(b.rows[i].data[d] == NoteType::HoldBody);
            }
            assert(b.rows[h].data[d] == NoteType::HoldHead);
        }
    }
    assert forall|d: int, h: int|
        0 <= d < a.until.len() && 0 <= h < a.rows.len() && (#[trigger] a.rows[h].data[d])
            == NoteType::HoldHead implies h < b.rows.len() && b.rows[h].data[d]
        == NoteType::HoldHead by {}
    lemma_told_kept(b, a, notes);
}

proof fn lemma_let_go(b: BoardView, e: i64, c: int, notes: Seq<Note>)
    requires
        told(b, notes),
        0 <= c < b.until.len(),
        none_before(b, e as int),
    ensures
        let_go(b, e, c) matches Ok(a) ==> told(a, notes) && a.until.len() == b.until.len()
            && none_before(a, e as int),
{
    if b.until[c] == Some(e) {
        if let Ok(a) = let_go(b, e, c) {
            let o = opened(b, e as int);
            assert(column_fits(b, c));
            lemma_opened(b, e as int, notes);
            assert(column_fits(o, c));
            assert(cell(o, c) == NoteType::HoldBody);
            assert(o.rows.last().time == e);
            lemma_put(o, c, NoteType::HoldTail, None, notes);
            assert(a =~= (BoardView {
                rows: put(o, c, NoteType::HoldTail).rows,
                until: o.until.update(c, None),
            }));
            assert forall|d: int| 0 <= d < a.until.len() implies (#[trigger] a.until[d] matches Some(
                f,
            ) ==> f >= e) by {
                assert(b.until[d] matches Some(f) ==> f >= e);
            }
        }
    }
}

proof fn lemma_all_go(b: BoardView, e: i64, n: nat, notes: Seq<Note>)
    requires
        told(b, notes),
        n <= b.until.len(),
        none_before(b, e as int),
    ensures
        let_all_go(b, e, n) matches Ok(a) ==> told(a, notes) && a.until.len() == b.until.len()
            && none_before(a, e as int),
    decreases n,
{
    if n > 0 {
        lemma_all_go(b, e, (n - 1) as nat, notes);
        if let Ok(a) = let_all_go(b, e, (n - 1) as nat) {
            lemma_let_go(a, e, n - 1, notes);
        }
    }
}

proof fn lemma_earliest(until: Seq<Option<i64>>, n: nat)
    requires
        n <= until.len(),
    ensures
        forall|c: int|
            0 <= c < n ==> (#[trigger] until[c] matches Some(e) ==> earliest(until, n) is Some
                && earliest(until, n)->0 <= e),
    decreases n,
{
    if n > 0 {
        lemma_earliest(until, (n - 1) as nat);
    }
}

proof fn lemma_finished(b: BoardView, time: Option<int>, notes: Seq<Note>)
    requires
        told(b, notes),
    ensures
        finished(b, time) matches Ok(a) ==> {
            &&& told(a, notes)
            &&& a.until.len() == b.until.len()
            &&& time matches Some(t) ==> none_before(a, t)
            &&& time is None ==> forall|c: int|
                0 <= c < a.until.len() ==> (#[trigger] a.until[c]) is None
        },
    decreases held_count(b.until, b.until.len()),
{
    lemma_earliest(b.until, b.until.len());
    if let Some(e) = earliest(b.until, b.until.len()) {
        if due(e, time) {
            assert(none_before(b, e as int));
            lemma_all_go(b, e, b.until.len(), notes);
            lemma_let_all_go(b, e, b.until.len());
            if let Ok(a) = let_all_go(b, e, b.until.len()) {
                lemma_fewer_held(b.until, a.until, e, b.until.len());
                lemma_finished(a, time, notes);
            }
        }
    }
}

/// A hold that starts in the last row.
proof fn lemma_head(b: BoardView, c: int, n: Note, notes: Seq<Note>)
    requires
        told(b, notes),
        b.rows.len() > 0,
        lasts(n),
        c == column_of(n.x, b.until.len()),
        0 <= c < b.until.len(),
        cell(b, c) == NoteType::Nothing || cell(b, c) == NoteType::Normal,
    ensures
        told(
            (BoardView {
                rows: put(b, c, NoteType::HoldHead).rows,
                until: b.until.update(c, n.end),
            }),
            notes.push(n),
        ),
{
    let a = BoardView {
        rows: put(b, c, NoteType::HoldHead).rows,
        until: b.until.update(c, n.end),
    };
    let all = notes.push(n);
    let m = b.rows.len() - 1;
    assert(column_fits(b, c));
    assert forall|i: int| 0 <= i < m implies #[trigger] a.rows[i] == b.rows[i] by {}
    assert(a.rows[m].data == b.rows[m].data.update(c, NoteType::HoldHead));
    assert(b.rows[m].data.len() == b.until.len());
    assert forall|d: int| 0 <= d < a.until.len() implies #[trigger] column_fits(a, d) by {
        assert(column_fits(b, d));
        assert forall|i: int, j: int| 0 <= i && j == i + 1 && j < a.rows.len() implies begun(
            (#[trigger] a.rows[i]).data[d],
        ) == inside((#[trigger] a.rows[j]).data[d]) by {
            assert(begun(b.rows[i].data[d]) == inside(b.rows[j].data[d]));
        }
    }
    assert forall|d: int, h: int, e: i64|
        0 <= d < b.until.len() && #[trigger] held_from(b, d, h, e) implies held_from(
        a,
        d,
        h,
        e,
    ) by {
        assert(column_fits(b, d));
        if ends_at(b.rows, d, h, e as int) {
            let t = choose|t: int| #[trigger] is_hold_of(b.rows, d, h, t) && b.rows[t].time == e;
            assert forall|i: int| h < i < t implies (#[trigger] a.rows[i]).data[d]
                == NoteType::HoldBody by {
                assert(a.rows[i] == b.rows[i]);
            }
            assert(is_hold_of(a.rows, d, h, t));
        } else {
            assert(d != c);
            assert forall|i: int| h < i < a.rows.len() implies (#[trigger] a.rows[i]).data[d]
                == NoteType::HoldBody by {
                assert(b.rows[i].data[d] == NoteType::HoldBody);
            }
            assert(b.rows[h].data[d] == NoteType::HoldHead);
        }
    }
    assert(n.end is Some && a.until[c] == n.end);
    assert(held_from(a, c, m, n.end->0));
    assert forall|k: int| 0 <= k < all.len() && lasts(#[trigger] all[k]) implies note_told(
        a,
        all[k],
    ) by {
        if k < notes.len() {
            assert(all[k] == notes[k]);
            assert(note_told(b, notes[k]));
            let d = column_of(notes[k].x, b.until.len());
            lemma_column(notes[k].x, b.until.len());
            let h = choose|h: int| #[trigger] held_from(b, d, h, notes[k].end->0);
            assert(a.until.len() == b.until.len());
            assert(held_from(a, d, h, notes[k].end->0));
            assert(note_told(a, notes[k]));
        } else {
            assert(all[k] == n && a.until.len() == b.until.len());
            assert(held_from(a, column_of(n.x, a.until.len()), m, n.end->0));
            assert(note_told(a, n));
        }
    }
    assert forall|d: int, h: int|
        0 <= d < a.until.len() && 0 <= h < a.rows.len() && (#[trigger] a.rows[h].data[d])
            == NoteType::HoldHead implies head_told(a, all, d, h) by {
        if d == c && h == m {
            assert(is_lasting(all, a.until.len(), c, notes.len() as int));
        } else {
            assert(b.rows[h].data[d] == NoteType::HoldHead);
            assert(head_told(b, notes, d, h));
            let k = choose|k: int| #[trigger]
                is_lasting(notes, b.until.len(), d, k) && held_from(b, d, h, notes[k].end->0);
            assert(all[k] == notes[k]);
            assert(held_from(a, d, h, notes[k].end->0));
            assert(is_lasting(all, a.until.len(), d, k));
        }
    }
}

/// A note that is no hold changes nothing for the others.
proof fn lemma_one_more(b: BoardView, n: Note, notes: Seq<Note>)
    requires
        told(b, notes),
        !lasts(n),
    ensures
        told(b, notes.push(n)),
{
    let all = notes.push(n);
    assert forall|k: int| 0 <= k < all.len() && lasts(#[trigger] all[k]) implies note_told(
        b,
        all[k],
    ) by {
        assert(all[k] == notes[k]);
    }
    assert forall|d: int, h: int|
        0 <= d < b.until.len() && 0 <= h < b.rows.len() && (#[trigger] b.rows[h].data[d])
            == NoteType::HoldHead implies head_told(b, all, d, h) by {
        assert(head_told(b, notes, d, h));
        let k = choose|k: int| #[trigger]
            is_lasting(notes, b.until.len(), d, k) && held_from(b, d, h, notes[k].end->0);
        assert(all[k] == notes[k]);
        assert(is_lasting(all, b.until.len(), d, k));
    }
}

proof fn lemma_placed(b: BoardView, n: Note, notes: Seq<Note>)
    requires
        told(b, notes),
        b.until.len() > 0,
    ensures
        placed(b, n) matches Ok(a) ==> told(a, notes.push(n)) && a.until.len() == b.until.len(),
{
    if let Ok(r) = placed(b, n) {
        let c = column_of(n.x, b.until.len());
        lemma_column(n.x, b.until.len());
        if n.time is None && b.rows.len() == 0 {
            assert(none_before(b, TIME_LIMIT as int)) by {
                assert forall|d: int| 0 <= d < b.until.len() implies #[trigger] b.until[d] is None by {
                    assert(column_fits(b, d));
                }
            }
            lemma_opened(b, TIME_LIMIT as int, notes);
        }
        if let Some(t) = n.time {
            lemma_finished(b, Some(t as int), notes);
            lemma_opened(finished(b, Some(t as int))->Ok_0, t as int, notes);
        }
        let a = reached(b, n.time)->Ok_0;
        assert(told(a, notes) && a.rows.len() > 0);
        if lasts(n) {
            lemma_head(a, c, n, notes);
            assert(r =~= (BoardView {
                rows: put(a, c, NoteType::HoldHead).rows,
                until: a.until.update(c, n.end),
            }));
        } else {
            if cell(a, c) == NoteType::Nothing {
                lemma_put(a, c, NoteType::Normal, a.until[c], notes);
                assert(a.until.update(c, a.until[c]) =~= a.until);
                assert(r =~= put(a, c, NoteType::Normal));
            }
            lemma_one_more(r, n, notes);
        }
    }
}

proof fn lemma_laid(notes: Seq<Note>, keys: nat)
    requires
        keys > 0,
    ensures
        laid(notes, keys) matches Ok(b) ==> told(b, notes) && b.until.len() == keys,
    decreases notes.len(),
{
    if notes.len() == 0 {
        let b = blank_board(keys);
        assert forall|c: int| 0 <= c < b.until.len() implies #[trigger] column_fits(b, c) by {}
    } else {
        lemma_laid(notes.drop_last(), keys);
        if let Ok(b) = laid(notes.drop_last(), keys) {
            lemma_placed(b, notes.last(), notes.drop_last());
            assert(notes.drop_last().push(notes.last()) =~= notes);
        }
    }
}

/// In each column of a chart a body or a tail stands exactly where a head or a
/// body stands in the row before, and nothing is held after the last row. So
/// every head is followed by bodies up to one tail, and none stands elsewhere.
pub proof fn law_holds_are_whole(notes: Seq<Note>, keys: nat, c: int)
    requires
        keys > 0,
        0 <= c < keys,
    ensures
        rows_of(notes, keys) matches Ok(rows) ==> {
            &&& cells_fit(rows, c)
            &&& rows.len() > 0 ==> !begun(rows.last().data[c])
        },
{
    lemma_laid(notes, keys);
    if let Ok(b) = laid(notes, keys) {
        lemma_finished(b, None, notes);
        if let Ok(a) = finished(b, None) {
            assert(column_fits(a, c));
            assert(a.until[c] is None);
        }
    }
}

/// The same of the chart that a file gives.
pub proof fn law_chart_holds_are_whole(text: Seq<char>, c: int)
    requires
        0 <= c,
    ensures
        chart_of(text) matches Ok(chart) ==> c < chart.keys ==> cells_fit(chart.notes, c) && !begun(
            chart.notes.last().data[c],
        ),
{
    if let Ok(chart) = chart_of(text) {
        law_chart_is_valid(text);
        let all = crate::parser::sections(crate::text::split(text, '\n'));
        let notes = crate::parser::notes_of(crate::parser::lines_of(all, "HitObjects"@));
        if c < chart.keys {
            law_holds_are_whole(notes, chart.keys, c);
        }
    }
}

/// Each hold among the notes stands in its column, with its tail at its end
/// time; and each head of a column is that of such a note, whose hold ends
/// there.
pub proof fn law_holds_end_in_time(notes: Seq<Note>, keys: nat)
    requires
        keys > 0,
    ensures
        rows_of(notes, keys) matches Ok(rows) ==> {
            &&& forall|c: int, k: int| #[trigger]
                is_lasting(notes, keys, c, k) ==> exists|h: int| #[trigger]
                    ends_at(rows, c, h, notes[k].end->0 as int)
            &&& forall|c: int, h: int|
                0 <= c < keys && 0 <= h < rows.len() && (#[trigger] rows[h].data[c])
                    == NoteType::HoldHead ==> exists|k: int| #[trigger]
                    is_lasting(notes, keys, c, k) && ends_at(rows, c, h, notes[k].end->0 as int)
        },
{
    lemma_laid(notes, keys);
    if let Ok(b) = laid(notes, keys) {
        lemma_finished(b, None, notes);
        if let Ok(a) = finished(b, None) {
            let rows = a.rows;
            assert forall|c: int, h: int, e: i64|
                0 <= c < keys && #[trigger] held_from(a, c, h, e) implies ends_at(
                rows,
                c,
                h,
                e as int,
            ) by {
                assert(a.until[c] is None);
            }
            assert forall|c: int, k: int| #[trigger] is_lasting(notes, keys, c, k) implies exists|
                h: int,
            | #[trigger] ends_at(rows, c, h, notes[k].end->0 as int) by {
                lemma_column(notes[k].x, keys);
                assert(note_told(a, notes[k]));
                let h = choose|h: int| #[trigger] held_from(a, c, h, notes[k].end->0);
                assert(ends_at(rows, c, h, notes[k].end->0 as int));
            }
            assert forall|c: int, h: int|
                0 <= c < keys && 0 <= h < rows.len() && (#[trigger] rows[h].data[c])
                    == NoteType::HoldHead implies exists|k: int| #[trigger]
                is_lasting(notes, keys, c, k) && ends_at(rows, c, h, notes[k].end->0 as int) by {
                assert(head_told(a, notes, c, h));
                let k = choose|k: int| #[trigger]
                    is_lasting(notes, keys, c, k) && held_from(a, c, h, notes[k].end->0);
                assert(ends_at(rows, c, h, notes[k].end->0 as int));
            }
        }
    }
}

} // verus!
