//! How rows play, told by their columns: which pattern each row shows, what is
//! counted over all rows, and which family a chart belongs to.

use crate::columns::{has, lemma_common, lemma_same_mask, lemma_weight, ones, weight};
use crate::counting::{how_many, sum_of};
use crate::number::LIMIT;
use crate::strain::{
    anchored, jack_gaps, last_head, last_mask, last_struck, notes_within, steady, strain,
};
use crate::timeline::TimelineRow;
use crate::types::ManiaPattern;
use vstd::prelude::*;

verus! {

/// Whether a mask holds any column.
pub open spec fn any(mask: u8) -> bool {
    exists|c: int| 0 <= c < 8 && #[trigger] has(mask, c)
}

/// Whether two masks hold a column both.
pub open spec fn both(a: u8, b: u8) -> bool {
    exists|c: int| 0 <= c < 8 && #[trigger] has(a, c) && has(b, c)
}

/// How many columns a mask holds.
pub open spec fn size(mask: u8) -> nat {
    how_many(8, |c: int| has(mask, c))
}

/// Whether row `j` is the last row before row `i` that strikes.
pub open spec fn strikes_before(rows: Seq<TimelineRow>, j: int, i: int) -> bool {
    &&& 0 <= j < i
    &&& any(rows[j].head_mask)
    &&& forall|k: int| j < k < i ==> !any((#[trigger] rows[k]).head_mask)
}

/// Whether row `i` strikes a column of the last row before it that strikes.
pub open spec fn repeats(rows: Seq<TimelineRow>, i: int) -> bool {
    exists|j: int| #[trigger]
        strikes_before(rows, j, i) && both(rows[j].head_mask, rows[i].head_mask)
}

/// Whether row `i` strikes a column that row `j`, at most 220 ms before it,
/// struck.
pub open spec fn strikes_again(rows: Seq<TimelineRow>, keys: u8, j: int, i: int, c: int) -> bool {
    &&& 0 <= j < i
    &&& 0 <= c < keys
    &&& has(rows[j].head_mask, c)
    &&& has(rows[i].head_mask, c)
    &&& rows[i].time - rows[j].time <= 660_000_000_000_000
}

/// Whether row `i` strikes a column again within 220 ms.
pub open spec fn is_anchored(rows: Seq<TimelineRow>, keys: u8, i: int) -> bool {
    exists|j: int, c: int| #[trigger] strikes_again(rows, keys, j, i, c)
}

pub(crate) proof fn lemma_size(mask: u8)
    ensures
        size(mask) == ones(mask),
        any(mask) <==> mask != 0,
        any(mask) <==> size(mask) > 0,
        size(mask) <= 8,
{
    reveal_with_fuel(how_many, 9);
    lemma_weight();
    if !any(mask) {
        lemma_same_mask(mask, 0);
    } else {
        let c = choose|c: int| 0 <= c < 8 && #[trigger] has(mask, c);
        assert(0u8 & weight(c) == 0) by {
            assert(!(has(0u8, c)));
        }
        assert(c == 0 || c == 1 || c == 2 || c == 3 || c == 4 || c == 5 || c == 6 || c == 7);
    }
    if mask == 0 {
        assert(!(has(0u8, 0)) && !(has(0u8, 1)) && !(has(0u8, 2)) && !(has(0u8, 3)) && !(has(
            0u8,
            4,
        )) && !(has(0u8, 5)) && !(has(0u8, 6)) && !(has(0u8, 7)));
    }
}

pub(crate) proof fn lemma_both(a: u8, b: u8)
    ensures
        both(a, b) <==> a & b != 0,
        a & b == b & a,
{
    lemma_common(a, b);
    lemma_size(a & b);
    assert(a & b == b & a) by (bit_vector);
    if any(a & b) {
        let c = choose|c: int| 0 <= c < 8 && #[trigger] has(a & b, c);
        assert(has(a, c) && has(b, c));
    }
    if both(a, b) {
        let c = choose|c: int| 0 <= c < 8 && #[trigger] has(a, c) && has(b, c);
        assert(has(a & b, c));
    }
}

pub(crate) proof fn lemma_last_head(rows: Seq<TimelineRow>, i: int)
    requires
        i <= rows.len(),
    ensures
        match last_head(rows, i) {
            Some(j) => strikes_before(rows, j, i) && forall|k: int| #[trigger]
                strikes_before(rows, k, i) ==> k == j,
            None => forall|k: int| 0 <= k < i ==> !any((#[trigger] rows[k]).head_mask),
        },
    decreases i,
{
    if i > 0 {
        lemma_last_head(rows, i - 1);
        lemma_size(rows[i - 1].head_mask);
        if rows[i - 1].head_mask != 0 {
            assert(strikes_before(rows, i - 1, i));
            assert forall|k: int| #[trigger] strikes_before(rows, k, i) implies k == i - 1 by {
                assert(any(rows[i - 1].head_mask));
            }
        } else if let Some(j) = last_head(rows, i - 1) {
            assert(strikes_before(rows, j, i));
            assert forall|k: int| #[trigger] strikes_before(rows, k, i) implies k == j by {
                assert(any(rows[k].head_mask));
                assert(strikes_before(rows, k, i - 1));
            }
        }
    }
}

proof fn lemma_repeats(rows: Seq<TimelineRow>, i: int)
    requires
        0 <= i < rows.len(),
    ensures
        repeats(rows, i) <==> last_mask(rows, i) & rows[i].head_mask != 0,
{
    lemma_last_head(rows, i);
    match last_head(rows, i) {
        Some(j) => {
            lemma_both(rows[j].head_mask, rows[i].head_mask);
            if repeats(rows, i) {
                let k = choose|k: int| #[trigger]
                    strikes_before(rows, k, i) && both(rows[k].head_mask, rows[i].head_mask);
                assert(k == j);
            }
        },
        None => {
            let m = rows[i].head_mask;
            assert(0u8 & m == 0) by (bit_vector);
            if repeats(rows, i) {
                let k = choose|k: int| #[trigger]
                    strikes_before(rows, k, i) && both(rows[k].head_mask, rows[i].head_mask);
                assert(!any(rows[k].head_mask));
            }
        },
    }
}

proof fn lemma_last_struck(rows: Seq<TimelineRow>, i: int, c: int)
    requires
        i <= rows.len(),
    ensures
        match last_struck(rows, i, weight(c)) {
            Some(j) => 0 <= j < i && has(rows[j].head_mask, c) && forall|k: int|
                j < k < i ==> !(has((#[trigger] rows[k]).head_mask, c)),
            None => forall|k: int| 0 <= k < i ==> !(has((#[trigger] rows[k]).head_mask, c)),
        },
    decreases i,
{
    if i > 0 {
        lemma_last_struck(rows, i - 1, c);
    }
}

proof fn lemma_anchored(rows: Seq<TimelineRow>, i: int, n: nat)
    requires
        steady(rows),
        0 <= i < rows.len(),
        n <= 8,
    ensures
        anchored(jack_gaps(rows, i, n)) <==> is_anchored(rows, n as u8, i),
    decreases n,
{
    let all = jack_gaps(rows, i, n);
    if n == 0 {
        assert(!anchored(all));
    } else {
        let m = (n - 1) as nat;
        let c = n - 1;
        lemma_anchored(rows, i, m);
        lemma_last_struck(rows, i, c);
        let before = jack_gaps(rows, i, m);
        if anchored(before) {
            let k = choose|k: int| 0 <= k < before.len() && #[trigger] before[k] <= 660_000_000_000_000;
            assert(all[k] == before[k]);
        }
        if is_anchored(rows, m as u8, i) {
            let (j, d) = choose|j: int, d: int| #[trigger] strikes_again(rows, m as u8, j, i, d);
            assert(strikes_again(rows, n as u8, j, i, d));
        }
        if is_anchored(rows, n as u8, i) {
            let (j, d) = choose|j: int, d: int| #[trigger] strikes_again(rows, n as u8, j, i, d);
            if d < c {
                assert(strikes_again(rows, m as u8, j, i, d));
            } else {
                let last = last_struck(rows, i, weight(c))->0;
                assert(has(rows[j].head_mask, c));
                assert(j <= last);
                assert(rows[j].time <= rows[last].time);
                assert(-4 * LIMIT <= rows[i].time <= 4 * LIMIT);
                assert(-4 * LIMIT <= rows[last].time <= 4 * LIMIT);
                assert(all.last() <= 660_000_000_000_000);
                assert(all[all.len() - 1] <= 660_000_000_000_000);
            }
        }
        if anchored(all) {
            let k = choose|k: int| 0 <= k < all.len() && #[trigger] all[k] <= 660_000_000_000_000;
            if k < before.len() {
                assert(all[k] == before[k]);
            } else {
                let last = last_struck(rows, i, weight(c))->0;
                assert(-4 * LIMIT <= rows[i].time <= 4 * LIMIT);
                assert(-4 * LIMIT <= rows[last].time <= 4 * LIMIT);
                assert(strikes_again(rows, n as u8, last, i, c));
            }
        }
    }
}

/// A row shows coordination just where it strikes long notes and taps at once,
/// or strikes a column that it lets go. Else it shows density just where it
/// strikes long notes and either strikes two columns or more or holds two or
/// more.
pub proof fn law_long_notes_show_coordination_or_density(
    rows: Seq<TimelineRow>,
    keys: u8,
    i: int,
)
    requires
        0 <= i < rows.len(),
    ensures
        ({
            let row = rows[i];
            let pattern = strain(rows, keys)[i].pattern;
            let mixed = any(row.ln_head_mask) && any(row.normal_mask);
            let retaken = both(row.head_mask, row.release_mask);
            let full = size(row.head_mask) >= 2 || size(row.active_hold_mask) >= 2;
            &&& pattern == ManiaPattern::Coordination <==> mixed || retaken
            &&& pattern == ManiaPattern::Density <==> any(row.ln_head_mask) && !any(row.normal_mask)
                && !retaken && full
        }),
{
    let row = rows[i];
    lemma_size(row.ln_head_mask);
    lemma_size(row.normal_mask);
    lemma_size(row.head_mask);
    lemma_size(row.active_hold_mask);
    lemma_both(row.head_mask, row.release_mask);
}

/// A row without long notes that strikes shows jacks just where it strikes a
/// column of the strike before it, or one that was struck within 220 ms. Else
/// it is a stream where it strikes one column, and a chordstream where it
/// strikes more.
pub proof fn law_taps_show_jacks_or_streams(rows: Seq<TimelineRow>, keys: u8, i: int)
    requires
        steady(rows),
        keys <= 8,
        0 <= i < rows.len(),
    ensures
        ({
            let row = rows[i];
            let pattern = strain(rows, keys)[i].pattern;
            let taps = any(row.head_mask) && !any(row.ln_head_mask) && !any(row.release_mask)
                && !any(row.active_hold_mask);
            let again = repeats(rows, i) || is_anchored(rows, keys, i);
            &&& pattern == ManiaPattern::Jacks <==> taps && again
            &&& pattern == ManiaPattern::Chordstream <==> taps && !again && size(row.head_mask) >= 2
            &&& pattern == ManiaPattern::Stream <==> taps && !again && size(row.head_mask) == 1
        }),
{
    let row = rows[i];
    lemma_size(row.ln_head_mask);
    lemma_size(row.release_mask);
    lemma_size(row.head_mask);
    lemma_size(row.active_hold_mask);
    lemma_both(row.head_mask, row.release_mask);
    lemma_repeats(rows, i);
    lemma_anchored(rows, i, keys as nat);
    if row.release_mask == 0 {
        assert(!both(row.head_mask, row.release_mask)) by {
            lemma_weight();
        }
    }
    if row.head_mask == 0 {
        let m = last_mask(rows, i);
        assert(m & 0 == 0) by (bit_vector);
    }
    if row.release_mask == 0 && row.ln_head_mask == 0 && row.active_hold_mask == 0 && row.head_mask
        != 0 {
        assert(size(row.head_mask) == 1 || size(row.head_mask) >= 2);
    }
}

/// How many notes the rows up to row `i` strike, from `span` before it on.
pub open spec fn notes_since(rows: Seq<TimelineRow>, i: int, span: int) -> int {
    sum_of(
        (i + 1) as nat,
        |j: int|
            if rows[i].time - rows[j].time <= span {
                size(rows[j].head_mask) as int
            } else {
                0
            },
    )
}

pub(crate) proof fn lemma_notes_since(rows: Seq<TimelineRow>, i: int, n: nat, span: int)
    ensures
        notes_within(rows, i, n, span) == sum_of(
            n,
            |j: int|
                if rows[i].time - rows[j].time <= span {
                    size(rows[j].head_mask) as int
                } else {
                    0
                },
        ),
    decreases n,
{
    if n > 0 {
        lemma_notes_since(rows, i, (n - 1) as nat, span);
        lemma_size(rows[n - 1].head_mask);
    }
}

/// A row that strikes says how many columns it strikes, how long ago the last
/// strike was and whether that one was on other columns, whether a column is
/// struck again within 220 ms, and how many notes are struck within a second
/// and within four. A row that strikes nothing says none of this.
pub proof fn law_strikes_are_measured(rows: Seq<TimelineRow>, keys: u8, i: int)
    requires
        steady(rows),
        keys <= 8,
        0 <= i < rows.len(),
    ensures
        match strain(rows, keys)[i].head {
            None => !any(rows[i].head_mask),
            Some(h) => {
                &&& any(rows[i].head_mask)
                &&& h.count == size(rows[i].head_mask)
                &&& h.gap is None <==> forall|j: int|
                    0 <= j < i ==> !any((#[trigger] rows[j]).head_mask)
                &&& forall|j: int| #[trigger]
                    strikes_before(rows, j, i) ==> h.gap == Some(
                        (rows[i].time - rows[j].time) as i128,
                    ) && h.changed == (rows[j].head_mask != rows[i].head_mask)
                &&& h.gap is None ==> !h.changed
                &&& h.anchor == is_anchored(rows, keys, i)
                &&& h.count_1s == notes_since(rows, i, 3_000_000_000_000_000)
                &&& h.count_4s == notes_since(rows, i, 12_000_000_000_000_000)
            },
        },
{
    lemma_size(rows[i].head_mask);
    lemma_last_head(rows, i);
    lemma_anchored(rows, i, keys as nat);
    lemma_notes_since(rows, i, (i + 1) as nat, 3_000_000_000_000_000);
    lemma_notes_since(rows, i, (i + 1) as nat, 12_000_000_000_000_000);
    if any(rows[i].head_mask) {
        if let Some(j) = last_head(rows, i) {
            assert(strikes_before(rows, j, i));
            assert(any(rows[j].head_mask));
        }
    }
}

} // verus!
