//! What lies between zero and one.

use crate::beatmap::HitObject;
use crate::columns::{has, lemma_mask_of, ones};
use crate::features::{
    duration, lasting_sum, law_pattern_amounts_add_up, law_totals_are_bounded, pattern_amounts,
    style_of, totals, ManiaStyleVector,
};
use crate::number::{least, LIMIT};
use crate::strain::steady;
use crate::timeline::{
    all_timed, lemma_timeline, row_at, row_times, struck, timeline, TimelineRow, NEVER,
};
use crate::types::Ratio;
use vstd::prelude::*;

verus! {

/// Whether all parts of a style lie between zero and one.
pub open spec fn style_of_shares(s: ManiaStyleVector) -> bool {
    &&& s.stream.is_share()
    &&& s.chordstream.is_share()
    &&& s.jacks.is_share()
    &&& s.coordination.is_share()
    &&& s.density.is_share()
    &&& s.wildcard.is_share()
    &&& s.chord_rate.is_share()
    &&& s.large_chord_rate.is_share()
    &&& s.rotation_rate.is_share()
    &&& s.anchor_rate.is_share()
    &&& s.ln_note_ratio.is_share()
    &&& s.hold_occupancy.is_share()
    &&& s.hybrid_row_ratio.is_share()
}

/// Whether the long notes of every row are among its notes.
spec fn holds_are_notes(rows: Seq<TimelineRow>) -> bool {
    forall|i: int|
        0 <= i < rows.len() ==> ones((#[trigger] rows[i]).ln_head_mask) <= ones(rows[i].head_mask)
}

proof fn lemma_holds_are_notes(objects: Seq<HitObject>)
    requires
        all_timed(objects),
    ensures
        holds_are_notes(timeline(objects)),
{
    let rows = timeline(objects);
    lemma_timeline(objects);
    assert forall|i: int| 0 <= i < rows.len() implies ones((#[trigger] rows[i]).ln_head_mask)
        <= ones(rows[i].head_mask) by {
        let t = row_times(objects, NEVER as int)[i];
        assert(rows[i] == row_at(objects, t));
        let heads = |c: int| struck(objects, t, c, false) || struck(objects, t, c, true);
        let long = |c: int| struck(objects, t, c, true);
        lemma_mask_of(heads);
        lemma_mask_of(long);
        let (m, n) = (rows[i].ln_head_mask, rows[i].head_mask);
        assert forall|c: int| 0 <= c < 8 && #[trigger] has(m, c) implies has(n, c) by {
            assert(long(c));
            assert(heads(c));
        }
        assert(has(m, 0) ==> has(n, 0));
        assert(has(m, 1) ==> has(n, 1));
        assert(has(m, 2) ==> has(n, 2));
        assert(has(m, 3) ==> has(n, 3));
        assert(has(m, 4) ==> has(n, 4));
        assert(has(m, 5) ==> has(n, 5));
        assert(has(m, 6) ==> has(n, 6));
        assert(has(m, 7) ==> has(n, 7));
    }
}

proof fn lemma_long_notes(rows: Seq<TimelineRow>, keys: u8, n: nat)
    requires
        holds_are_notes(rows),
        n <= rows.len(),
    ensures
        totals(rows, keys, n).ln_notes <= totals(rows, keys, n).notes,
    decreases n,
{
    if n > 0 {
        lemma_long_notes(rows, keys, (n - 1) as nat);
        assert(ones(rows[n - 1].ln_head_mask) <= ones(rows[n - 1].head_mask));
    }
}

proof fn lemma_or_zero(num: int, den: int)
    requires
        0 <= num <= den <= i128::MAX,
    ensures
        Ratio::spec_or_zero(num, den).is_share(),
{
}

proof fn lemma_style(rows: Seq<TimelineRow>, keys: u8)
    requires
        steady(rows),
        holds_are_notes(rows),
        0 < rows.len() <= u64::MAX,
        keys == 4 || keys == 6 || keys == 7,
    ensures
        style_of_shares(style_of(rows, keys)),
{
    let n = rows.len();
    law_totals_are_bounded(rows, keys, n);
    law_pattern_amounts_add_up(rows, keys, n);
    lemma_long_notes(rows, keys, n);
    let t = totals(rows, keys, n);
    let a = pattern_amounts(rows, keys, n);
    let sum = lasting_sum(rows, n);
    assert(0 <= a[0] <= sum && 0 <= a[1] <= sum && 0 <= a[2] <= sum && 0 <= a[3] <= sum && 0 <= a[4]
        <= sum && 0 <= a[5] <= sum);
    lemma_or_zero(a[0], sum);
    lemma_or_zero(a[1], sum);
    lemma_or_zero(a[2], sum);
    lemma_or_zero(a[3], sum);
    lemma_or_zero(a[4], sum);
    lemma_or_zero(a[5], sum);
    lemma_or_zero(t.chords, t.rows);
    lemma_or_zero(t.large_chords, t.rows);
    lemma_or_zero(t.rotations, t.zone_transitions);
    lemma_or_zero(t.anchors, t.rows);
    lemma_or_zero(t.ln_notes, t.notes);
    lemma_or_zero(t.hybrids, t.rows);
    let d = duration(rows);
    let k = keys as int;
    assert(-4 * LIMIT <= rows[0].time && rows[n - 1].time <= 4 * LIMIT);
    assert(d <= d * k <= 7 * d) by (nonlinear_arith)
        requires
            d > 0,
            1 <= k <= 7,
    ;
    lemma_or_zero(least(t.held, d * k), d * k);
}

/// The style of every beatmap is made of shares.
pub proof fn law_style_is_made_of_shares(objects: Seq<HitObject>, keys: u8)
    requires
        all_timed(objects),
        objects.len() > 0,
        keys == 4 || keys == 6 || keys == 7,
        timeline(objects).len() <= u64::MAX,
    ensures
        style_of_shares(style_of(timeline(objects), keys)),
{
    lemma_timeline(objects);
    lemma_holds_are_notes(objects);
    assert(steady(timeline(objects)));
    lemma_style(timeline(objects), keys);
}

} // verus!
