//! What plain charts show: single taps, repeated taps, long notes.

use crate::columns::{has, lemma_common, ones, weight};
use crate::features::{
    dominant_of, lasting_sum, law_best_rank_is_last_largest, law_pattern_amounts_add_up,
    pattern_amount, pattern_amounts, row_pattern, style_of,
};
use crate::number::LIMIT;
use crate::strain::{
    anchored, jack_gaps, last_head, last_mask, last_struck, steady, strain, ANCHOR_GAP, SECOND,
};
use crate::timeline::TimelineRow;
use crate::types::ManiaPattern;
use vstd::prelude::*;

verus! {

/// Whether a row strikes, and neither starts, holds nor lets go a long note.
pub open spec fn is_tap(row: TimelineRow) -> bool {
    &&& row.head_mask != 0
    &&& row.ln_head_mask == 0
    &&& row.release_mask == 0
    &&& row.active_hold_mask == 0
}

/// Whether all rows are taps.
pub open spec fn all_taps(rows: Seq<TimelineRow>) -> bool {
    forall|i: int| 0 <= i < rows.len() ==> is_tap(#[trigger] rows[i])
}

/// Whether two rows strike a column both.
pub open spec fn meet(a: TimelineRow, b: TimelineRow) -> bool {
    a.head_mask & b.head_mask != 0
}

/// Whether no column is struck again in the next row or within the gap that
/// makes an anchor.
pub open spec fn spread_out(rows: Seq<TimelineRow>) -> bool {
    forall|i: int, j: int|
        0 <= j < i < rows.len() && #[trigger] meet(rows[j], rows[i]) ==> j < i - 1 && rows[i].time
            - rows[j].time > ANCHOR_GAP
}

/// Whether each row strikes a column of the row before it.
pub open spec fn repeating(rows: Seq<TimelineRow>) -> bool {
    forall|i: int| 0 < i < rows.len() ==> meet(rows[i - 1], #[trigger] rows[i])
}

proof fn lemma_nothing(m: u8, w: u8)
    ensures
        m & 0 == 0,
        0 & m == 0,
        m & w == w & m,
{
    assert(m & 0 == 0) by (bit_vector);
    assert(0 & m == 0) by (bit_vector);
    assert(m & w == w & m) by (bit_vector);
}

proof fn lemma_last_struck(rows: Seq<TimelineRow>, i: int, mask: u8)
    requires
        i <= rows.len(),
    ensures
        last_struck(rows, i, mask) matches Some(j) ==> 0 <= j < i && rows[j].head_mask & mask != 0,
    decreases i,
{
    if i > 0 {
        lemma_last_struck(rows, i - 1, mask);
    }
}

/// Columns that two rows strike are columns in which they meet.
proof fn lemma_meet(a: TimelineRow, b: TimelineRow, c: int)
    requires
        0 <= c < 8,
        has(a.head_mask, c),
        has(b.head_mask, c),
    ensures
        meet(a, b),
{
    lemma_common(a.head_mask, b.head_mask);
    assert(has(a.head_mask & b.head_mask, c));
    lemma_nothing(weight(c), 0);
}

proof fn lemma_gaps(rows: Seq<TimelineRow>, i: int, n: nat)
    requires
        steady(rows),
        spread_out(rows),
        0 <= i < rows.len(),
        n <= 8,
    ensures
        !anchored(jack_gaps(rows, i, n)),
    decreases n,
{
    if n > 0 {
        lemma_gaps(rows, i, (n - 1) as nat);
        let c = n - 1;
        lemma_last_struck(rows, i, weight(c));
        let before = jack_gaps(rows, i, c as nat);
        let all = jack_gaps(rows, i, n);
        if let Some(j) = last_struck(rows, i, weight(c)) {
            assert(-4 * LIMIT <= rows[i].time <= 4 * LIMIT && -4 * LIMIT <= rows[j].time <= 4
                * LIMIT);
            if has(rows[i].head_mask, c) {
                lemma_meet(rows[j], rows[i], c);
            }
        }
        assert forall|k: int| 0 <= k < all.len() implies #[trigger] all[k] > ANCHOR_GAP by {
            if k < before.len() {
                assert(all[k] == before[k]);
            }
        }
    }
}

proof fn lemma_last_head(rows: Seq<TimelineRow>, i: int)
    requires
        all_taps(rows),
        0 <= i < rows.len(),
    ensures
        i > 0 ==> last_mask(rows, i) == rows[i - 1].head_mask,
        i == 0 ==> last_mask(rows, i) == 0,
{
    if i > 0 {
        assert(is_tap(rows[i - 1]));
        assert(last_head(rows, i) == Some(i - 1));
    }
}

/// Rows of one tap each, in which no column is struck again in the next row or
/// within the gap that makes an anchor, are all a stream.
pub proof fn law_single_taps_are_streams(rows: Seq<TimelineRow>, keys: u8, i: int)
    requires
        steady(rows),
        keys <= 8,
        all_taps(rows),
        forall|j: int| 0 <= j < rows.len() ==> ones((#[trigger] rows[j]).head_mask) == 1,
        spread_out(rows),
        0 <= i < rows.len(),
    ensures
        strain(rows, keys)[i].pattern == ManiaPattern::Stream,
{
    lemma_gaps(rows, i, keys as nat);
    lemma_last_head(rows, i);
    let row = rows[i];
    assert(is_tap(row) && ones(row.head_mask) == 1);
    lemma_nothing(row.head_mask, 0);
    if i > 0 {
        assert(!meet(rows[i - 1], rows[i]));
    }
}

/// Rows of taps that each strike a column of the row before are all jacks, but
/// for the first.
pub proof fn law_repeated_taps_are_jacks(rows: Seq<TimelineRow>, keys: u8, i: int)
    requires
        all_taps(rows),
        repeating(rows),
        0 < i < rows.len(),
    ensures
        strain(rows, keys)[i].pattern == ManiaPattern::Jacks,
{
    lemma_last_head(rows, i);
    let row = rows[i];
    assert(is_tap(row));
    lemma_nothing(row.head_mask, 0);
    assert(meet(rows[i - 1], rows[i]));
}

/// A row that starts, holds or lets go a long note shows none of the patterns
/// of taps.
pub proof fn law_long_notes_are_no_taps(rows: Seq<TimelineRow>, keys: u8, i: int)
    requires
        0 <= i < rows.len(),
        rows[i].ln_head_mask != 0 || rows[i].release_mask != 0 || rows[i].active_hold_mask != 0,
    ensures
        ({
            let p = strain(rows, keys)[i].pattern;
            p == ManiaPattern::Coordination || p == ManiaPattern::Density || p
                == ManiaPattern::Wildcard
        }),
{
}

proof fn lemma_only(rows: Seq<TimelineRow>, keys: u8, rank: int, n: nat)
    requires
        n <= rows.len(),
        forall|i: int|
            0 <= i < rows.len() ==> (#[trigger] strain(rows, keys)[i]).pattern.rank() == rank,
    ensures
        pattern_amount(rows, keys, n, rank) == lasting_sum(rows, n),
    decreases n,
{
    if n > 0 {
        lemma_only(rows, keys, rank, (n - 1) as nat);
        assert(strain(rows, keys)[n - 1].pattern.rank() == rank);
        assert(row_pattern(rows, keys, n - 1) == strain(rows, keys)[n - 1].pattern);
    }
}

/// The style of such rows of one tap each is a stream and nothing else.
pub proof fn law_single_taps_have_stream_style(rows: Seq<TimelineRow>, keys: u8)
    requires
        steady(rows),
        keys <= 8,
        0 < rows.len() <= u64::MAX,
        all_taps(rows),
        forall|j: int| 0 <= j < rows.len() ==> ones((#[trigger] rows[j]).head_mask) == 1,
        spread_out(rows),
    ensures
        ({
            let s = style_of(rows, keys);
            &&& s.stream.num == s.stream.den > 0
            &&& s.chordstream.num == 0 && s.jacks.num == 0 && s.coordination.num == 0
            &&& s.density.num == 0 && s.wildcard.num == 0
        }),
        dominant_of(rows, keys) == ManiaPattern::Stream,
{
    let n = rows.len();
    assert forall|i: int| 0 <= i < n implies (#[trigger] strain(rows, keys)[i]).pattern.rank()
        == 0 by {
        law_single_taps_are_streams(rows, keys, i);
    }
    lemma_only(rows, keys, 0, n);
    law_pattern_amounts_add_up(rows, keys, n);
    let a = pattern_amounts(rows, keys, n);
    assert(a[0] == lasting_sum(rows, n));
    assert(a[1] == 0 && a[2] == 0 && a[3] == 0 && a[4] == 0 && a[5] == 0);
    assert(0 < lasting_sum(rows, n) <= SECOND * u64::MAX);
    law_best_rank_is_last_largest(a, 6);
    assert(a[crate::features::best_rank(a, 6)] >= a[0]);
}

} // verus!
