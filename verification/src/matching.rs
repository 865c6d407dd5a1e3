//! What is told of rows and windows of rows, by the columns of a chart: strikes,
//! repeats, directions, and the kinds of pattern that follow from them.

use crate::chart::{ChartView, NoteType, RowView};
use crate::counting::{how_many, lemma_count, lemma_counts_agree};
use crate::course::{hits, is_hit, lemma_hits};
use crate::primitives::{
    columns_struck, columns_with, is_blank, primitive_at, primitives, primitives_upto, shared, struck,
    struck_before, time_before, with_kind, Direction,
};
use vstd::prelude::*;

verus! {

/// Whether row `j` is the last row before row `i` that strikes.
pub open spec fn struck_last(c: ChartView, j: int, i: int) -> bool {
    &&& 0 <= j < i
    &&& hits(c.notes[j]) > 0
    &&& forall|k: int| j < k < i ==> hits(#[trigger] c.notes[k]) == 0
}

/// Whether a row holds nothing in any column.
pub open spec fn is_empty(row: RowView) -> bool {
    forall|column: int|
        0 <= column < row.data.len() ==> #[trigger] row.data[column] == NoteType::Nothing
}

/// Whether row `j` is the last row before row `i` that is not empty; the first
/// row counts as such.
pub open spec fn shown_last(c: ChartView, j: int, i: int) -> bool {
    &&& 0 <= j < i
    &&& j == 0 || !is_empty(c.notes[j])
    &&& forall|k: int| j < k < i ==> is_empty(#[trigger] c.notes[k])
}

/// Whether a row strikes from column `left` to column `right`.
pub open spec fn reaches(row: RowView, left: int, right: int) -> bool {
    &&& 0 <= left <= right < row.data.len()
    &&& is_hit(row, left) && is_hit(row, right)
    &&& forall|column: int| #[trigger]
        is_hit(row, column) && 0 <= column < row.data.len() ==> left <= column <= right
}

/// Columns below `n` in order.
pub open spec fn ascending(s: Seq<usize>, n: nat) -> bool {
    &&& forall|a: int, b: int| 0 <= a < b < s.len() ==> #[trigger] s[a] < #[trigger] s[b]
    &&& forall|a: int| 0 <= a < s.len() ==> #[trigger] s[a] < n
}

proof fn lemma_columns_struck(row: RowView, n: nat)
    requires
        n <= row.data.len() <= usize::MAX,
    ensures
        ascending(columns_struck(row.data, n), n),
        forall|column: int|
            0 <= column < n ==> #[trigger] columns_struck(row.data, n).contains(column as usize)
                == is_hit(row, column),
    decreases n,
{
    if n > 0 {
        let m = (n - 1) as nat;
        lemma_columns_struck(row, m);
        let before = columns_struck(row.data, m);
        let all = columns_struck(row.data, n);
        assert forall|column: int| 0 <= column < n implies #[trigger] all.contains(column as usize)
            == is_hit(row, column) by {
            if column < m {
                assert(before.contains(column as usize) == is_hit(row, column));
                if before.contains(column as usize) {
                    let k = choose|k: int| 0 <= k < before.len() && before[k] == column as usize;
                    assert(all[k] == column as usize);
                }
                if all.contains(column as usize) {
                    let k = choose|k: int| 0 <= k < all.len() && all[k] == column as usize;
                    assert(before[k] == column as usize);
                }
            } else if is_hit(row, column) {
                assert(all[before.len() as int] == column as usize);
            } else if all.contains(column as usize) {
                let k = choose|k: int| 0 <= k < all.len() && all[k] == column as usize;
                assert(before[k] < m);
            }
        }
    }
}

proof fn lemma_columns_with(data: Seq<NoteType>, kind: NoteType, n: nat)
    requires
        n <= data.len() <= usize::MAX,
    ensures
        ascending(columns_with(data, kind, n), n),
        forall|column: int|
            0 <= column < n ==> #[trigger] columns_with(data, kind, n).contains(column as usize) == (
            data[column] == kind),
    decreases n,
{
    if n > 0 {
        let m = (n - 1) as nat;
        lemma_columns_with(data, kind, m);
        let before = columns_with(data, kind, m);
        let all = columns_with(data, kind, n);
        assert forall|column: int| 0 <= column < n implies #[trigger] all.contains(column as usize)
            == (data[column] == kind) by {
            if column < m {
                assert(before.contains(column as usize) == (data[column] == kind));
                if before.contains(column as usize) {
                    let k = choose|k: int| 0 <= k < before.len() && before[k] == column as usize;
                    assert(all[k] == column as usize);
                }
                if all.contains(column as usize) {
                    let k = choose|k: int| 0 <= k < all.len() && all[k] == column as usize;
                    assert(before[k] == column as usize);
                }
            } else if data[column] == kind {
                assert(all[before.len() as int] == column as usize);
            } else if all.contains(column as usize) {
                let k = choose|k: int| 0 <= k < all.len() && all[k] == column as usize;
                assert(before[k] < m);
            }
        }
    }
}

proof fn lemma_shared_front(a: Seq<usize>, x: usize, previous: Seq<usize>, n: nat)
    requires
        n <= a.len(),
    ensures
        shared(a.push(x), previous, n) == shared(a, previous, n),
    decreases n,
{
    if n > 0 {
        lemma_shared_front(a, x, previous, (n - 1) as nat);
    }
}

proof fn lemma_shared(row: RowView, previous: Seq<usize>, n: nat)
    requires
        n <= row.data.len() <= usize::MAX,
    ensures
        shared(columns_struck(row.data, n), previous, columns_struck(row.data, n).len()) == how_many(
            n,
            |column: int| is_hit(row, column) && previous.contains(column as usize),
        ),
    decreases n,
{
    if n > 0 {
        let m = (n - 1) as nat;
        lemma_shared(row, previous, m);
        let before = columns_struck(row.data, m);
        if is_hit(row, n - 1) {
            lemma_shared_front(before, (n - 1) as usize, previous, before.len());
        }
    }
}

proof fn lemma_struck_before(c: ChartView, i: int)
    requires
        0 <= i <= c.notes.len(),
    ensures
        (exists|j: int| 0 <= j < i && hits(#[trigger] c.notes[j]) > 0) ==> exists|j: int| #[trigger]
            struck_last(c, j, i),
        forall|j: int| #[trigger]
            struck_last(c, j, i) ==> struck_before(c.notes, i) == struck(c.notes[j]),
    decreases i,
{
    if i > 0 {
        lemma_struck_before(c, i - 1);
        lemma_hits(c.notes[i - 1]);
        if hits(c.notes[i - 1]) > 0 {
            assert(struck_last(c, i - 1, i));
            assert forall|j: int| #[trigger] struck_last(c, j, i) implies struck_before(c.notes, i)
                == struck(c.notes[j]) by {
                assert(hits(c.notes[i - 1]) > 0);
            }
        } else {
            assert forall|j: int| #[trigger] struck_last(c, j, i) implies struck_before(c.notes, i)
                == struck(c.notes[j]) by {
                assert(hits(c.notes[j]) > 0);
                assert(struck_last(c, j, i - 1));
            }
            if exists|j: int| 0 <= j < i && hits(#[trigger] c.notes[j]) > 0 {
                let j = choose|j: int| 0 <= j < i && hits(#[trigger] c.notes[j]) > 0;
                assert(j < i - 1);
                let k = choose|k: int| #[trigger] struck_last(c, k, i - 1);
                assert(struck_last(c, k, i));
            }
        }
    }
}

pub(crate) proof fn lemma_blank(row: RowView)
    requires
        row.data.len() <= usize::MAX,
    ensures
        is_blank(row) <==> is_empty(row),
{
    let n = row.data.len();
    lemma_columns_struck(row, n);
    lemma_columns_with(row.data, NoteType::HoldBody, n);
    lemma_columns_with(row.data, NoteType::HoldTail, n);
    let (a, b, t) = (
        struck(row),
        with_kind(row, NoteType::HoldBody),
        with_kind(row, NoteType::HoldTail),
    );
    if is_blank(row) {
        assert forall|column: int| 0 <= column < n implies #[trigger] row.data[column]
            == NoteType::Nothing by {
            assert(!a.contains(column as usize));
            assert(!b.contains(column as usize));
            assert(!t.contains(column as usize));
            assert(!is_hit(row, column));
        }
    }
    if is_empty(row) {
        if a.len() > 0 {
            assert(a.contains(a[0] as int as usize));
            assert(row.data[a[0] as int] == NoteType::Nothing);
        }
        if b.len() > 0 {
            assert(b.contains(b[0] as int as usize));
            assert(row.data[b[0] as int] == NoteType::Nothing);
        }
        if t.len() > 0 {
            assert(t.contains(t[0] as int as usize));
            assert(row.data[t[0] as int] == NoteType::Nothing);
        }
    }
}

proof fn lemma_time_before(c: ChartView, i: int)
    requires
        c.valid(),
        c.keys <= usize::MAX,
        0 < i <= c.notes.len(),
    ensures
        forall|j: int| #[trigger] shown_last(c, j, i) ==> time_before(c.notes, i) == c.notes[j].time,
        exists|j: int| #[trigger] shown_last(c, j, i),
    decreases i,
{
    assert(c.notes[i - 1].data.len() == c.keys);
    lemma_blank(c.notes[i - 1]);
    if i == 1 {
        assert(shown_last(c, 0, 1));
    } else {
        lemma_time_before(c, i - 1);
        if is_empty(c.notes[i - 1]) {
            assert forall|j: int| #[trigger] shown_last(c, j, i) implies time_before(c.notes, i)
                == c.notes[j].time by {
                assert(shown_last(c, j, i - 1));
            }
            let k = choose|k: int| #[trigger] shown_last(c, k, i - 1);
            assert(shown_last(c, k, i));
        } else {
            assert(shown_last(c, i - 1, i));
            assert forall|j: int| #[trigger] shown_last(c, j, i) implies time_before(c.notes, i)
                == c.notes[j].time by {
                assert(!is_empty(c.notes[i - 1]));
            }
        }
    }
}

/// What is told at place `k` is told of a row behind the first that is not
/// empty, in order.
proof fn lemma_told(c: ChartView, n: nat)
    requires
        c.valid(),
        c.keys <= usize::MAX,
        n <= c.notes.len(),
    ensures
        forall|k: int|
            0 <= k < primitives_upto(c, n).len() ==> {
                let p = #[trigger] primitives_upto(c, n)[k];
                0 < p.index < n && p == primitive_at(c, p.index) && !is_empty(c.notes[p.index])
            },
        forall|k: int, l: int|
            0 <= k < l < primitives_upto(c, n).len() ==> (#[trigger] primitives_upto(c, n)[k]).index
                < (#[trigger] primitives_upto(c, n)[l]).index,
    decreases n,
{
    if n > 1 {
        let m = (n - 1) as nat;
        lemma_told(c, m);
        let before = primitives_upto(c, m);
        let all = primitives_upto(c, n);
        assert(c.notes[m as int].data.len() == c.keys);
        lemma_blank(c.notes[m as int]);
        assert forall|k: int| 0 <= k < all.len() implies {
            let p = #[trigger] all[k];
            0 < p.index < n && p == primitive_at(c, p.index) && !is_empty(c.notes[p.index])
        } by {
            if k < before.len() {
                assert(all[k] == before[k]);
            }
        }
        assert forall|k: int, l: int| 0 <= k < l < all.len() implies (#[trigger] all[k]).index < (
        #[trigger] all[l]).index by {
            assert(all[k] == before[k]);
            if l < before.len() {
                assert(all[l] == before[l]);
            }
        }
    }
}

proof fn lemma_tells(c: ChartView, n: nat, i: int) -> (k: int)
    requires
        c.valid(),
        c.keys <= usize::MAX,
        n <= c.notes.len(),
        0 < i < n,
        !is_empty(c.notes[i]),
    ensures
        0 <= k < primitives_upto(c, n).len(),
        primitives_upto(c, n)[k].index == i,
    decreases n,
{
    let m = (n - 1) as nat;
    let before = primitives_upto(c, m);
    if i < m {
        let k = lemma_tells(c, m, i);
        assert(primitives_upto(c, n)[k] == before[k]);
        k
    } else {
        assert(c.notes[i].data.len() == c.keys);
        lemma_blank(c.notes[i]);
        before.len() as int
    }
}

/// Rows are told in order, none of them empty, and not the first. A chart that
/// strikes nothing in its first row tells nothing.
pub proof fn law_rows_are_told_in_order(c: ChartView)
    requires
        c.valid(),
        c.keys <= usize::MAX,
    ensures
        hits(c.notes[0]) == 0 ==> primitives(c).len() == 0,
        forall|k: int|
            0 <= k < primitives(c).len() ==> 0 < (#[trigger] primitives(c)[k]).index < c.notes.len()
                && !is_empty(c.notes[primitives(c)[k].index]),
        forall|k: int, l: int|
            0 <= k < l < primitives(c).len() ==> (#[trigger] primitives(c)[k]).index < (
            #[trigger] primitives(c)[l]).index,
{
    lemma_hits(c.notes[0]);
    lemma_told(c, c.notes.len());
}

/// A chart that strikes in its first row tells of every other row that is not
/// empty.
pub proof fn law_all_rows_are_told(c: ChartView, i: int)
    requires
        c.valid(),
        c.keys <= usize::MAX,
        hits(c.notes[0]) > 0,
        0 < i < c.notes.len(),
        !is_empty(c.notes[i]),
    ensures
        exists|k: int| 0 <= k < primitives(c).len() && (#[trigger] primitives(c)[k]).index == i,
{
    lemma_hits(c.notes[0]);
    let k = lemma_tells(c, c.notes.len(), i);
    assert(primitives(c)[k].index == i);
}

/// What is told of a row: when it comes, how long ago the last row before it
/// that is not empty was (four such gaps make a beat), how many columns it
/// strikes, and how many of them the last strike before it struck too.
pub proof fn law_rows_tell_strikes_and_repeats(c: ChartView, k: int)
    requires
        c.valid(),
        c.keys <= usize::MAX,
        0 <= k < primitives(c).len(),
    ensures
        ({
            let p = primitives(c)[k];
            let row = c.notes[p.index];
            &&& p.time == row.time - c.notes[0].time
            &&& p.keys == c.keys
            &&& p.notes == hits(row)
            &&& forall|j: int| #[trigger]
                shown_last(c, j, p.index) ==> p.ms_per_beat == 4 * (row.time - c.notes[j].time)
            &&& exists|j: int| #[trigger] struck_last(c, j, p.index)
            &&& forall|j: int| #[trigger]
                struck_last(c, j, p.index) ==> p.jacks == how_many(
                    c.keys,
                    |column: int| is_hit(row, column) && is_hit(c.notes[j], column),
                )
        }),
{
    let n = c.notes.len();
    lemma_told(c, n);
    let p = primitives(c)[k];
    let i = p.index;
    let row = c.notes[i];
    lemma_hits(c.notes[0]);
    lemma_hits(row);
    lemma_time_before(c, i);
    lemma_struck_before(c, i);
    assert(hits(c.notes[0]) > 0);
    assert(row.data.len() == c.keys);
    let previous = struck_before(c.notes, i);
    lemma_shared(row, previous, c.keys);
    assert forall|j: int| #[trigger] struck_last(c, j, i) implies p.jacks == how_many(
        c.keys,
        |column: int| is_hit(row, column) && is_hit(c.notes[j], column),
    ) by {
        assert(c.notes[j].data.len() == c.keys);
        lemma_columns_struck(c.notes[j], c.keys);
        lemma_counts_agree(
            c.keys,
            |column: int| is_hit(row, column) && previous.contains(column as usize),
            |column: int| is_hit(row, column) && is_hit(c.notes[j], column),
        );
    }
}

proof fn lemma_edges(row: RowView)
    requires
        row.data.len() <= usize::MAX,
        hits(row) > 0,
    ensures
        struck(row).len() > 0,
        reaches(row, struck(row)[0] as int, struck(row).last() as int),
        forall|l: int, r: int| #[trigger]
            reaches(row, l, r) ==> l == struck(row)[0] && r == struck(row).last(),
{
    lemma_hits(row);
    lemma_columns_struck(row, row.data.len());
    let s = struck(row);
    let (x, y) = (s[0], s[s.len() - 1]);
    assert(s.contains(x as int as usize) && s.contains(y as int as usize));
    assert forall|column: int| #[trigger]
        is_hit(row, column) && 0 <= column < row.data.len() implies x <= column <= y by {
        assert(s.contains(column as usize));
        let k = choose|k: int| 0 <= k < s.len() && s[k] == column as usize;
        if k > 0 {
            assert(s[0] < s[k]);
        }
        if k < s.len() - 1 {
            assert(s[k] < s[s.len() - 1]);
        }
    }
    assert(is_hit(row, x as int) && is_hit(row, y as int));
}

/// Where a row lies relative to the strike before it: to the left or the right
/// where both of its edges moved there, inwards or outwards where they moved
/// closer together or further apart, still where neither moved. It rolls where
/// it lies wholly to one side.
pub proof fn law_rows_tell_directions(
    c: ChartView,
    k: int,
    j: int,
    before: (int, int),
    now: (int, int),
)
    requires
        c.valid(),
        c.keys <= usize::MAX,
        0 <= k < primitives(c).len(),
        struck_last(c, j, primitives(c)[k].index),
        reaches(c.notes[j], before.0, before.1),
        reaches(c.notes[primitives(c)[k].index], now.0, now.1),
    ensures
        ({
            let p = primitives(c)[k];
            &&& p.direction == Direction::Left <==> now.0 < before.0 && now.1 < before.1
            &&& p.direction == Direction::Right <==> now.0 > before.0 && now.1 > before.1
            &&& p.direction == Direction::Inwards <==> now.0 >= before.0 && now.1 <= before.1 && now
                != before
            &&& p.direction == Direction::Outwards <==> now.0 <= before.0 && now.1 >= before.1
                && now != before
            &&& p.direction == Direction::Still <==> now == before
            &&& p.roll <==> now.1 < before.0 || now.0 > before.1
        }),
{
    lemma_told(c, c.notes.len());
    let p = primitives(c)[k];
    let row = c.notes[p.index];
    lemma_struck_before(c, p.index);
    assert(row.data.len() == c.keys && c.notes[j].data.len() == c.keys);
    assert(is_hit(row, now.0));
    lemma_count(row.data.len(), |column: int| is_hit(row, column));
    let q = |column: int| is_hit(row, column);
    assert(q(now.0));
    lemma_edges(row);
    lemma_edges(c.notes[j]);
}

/// The columns that are told of a row are those that hold what they stand for.
pub proof fn law_rows_tell_columns(c: ChartView, k: int, column: int)
    requires
        c.valid(),
        c.keys <= usize::MAX,
        0 <= k < primitives(c).len(),
        0 <= column < c.keys,
    ensures
        ({
            let p = primitives(c)[k];
            let row = c.notes[p.index];
            &&& p.raw_notes.contains(column as usize) <==> is_hit(row, column)
            &&& p.normal_notes.contains(column as usize) <==> row.data[column] == NoteType::Normal
            &&& p.ln_heads.contains(column as usize) <==> row.data[column] == NoteType::HoldHead
            &&& p.ln_bodies.contains(column as usize) <==> row.data[column] == NoteType::HoldBody
            &&& p.ln_tails.contains(column as usize) <==> row.data[column] == NoteType::HoldTail
            &&& ascending(p.raw_notes, c.keys) && ascending(p.normal_notes, c.keys)
            &&& ascending(p.ln_heads, c.keys) && ascending(p.ln_bodies, c.keys)
            &&& ascending(p.ln_tails, c.keys)
        }),
{
    lemma_told(c, c.notes.len());
    let row = c.notes[primitives(c)[k].index];
    assert(row.data.len() == c.keys);
    lemma_columns_struck(row, c.keys);
    lemma_columns_with(row.data, NoteType::Normal, c.keys);
    lemma_columns_with(row.data, NoteType::HoldHead, c.keys);
    lemma_columns_with(row.data, NoteType::HoldBody, c.keys);
    lemma_columns_with(row.data, NoteType::HoldTail, c.keys);
}

} // verus!
