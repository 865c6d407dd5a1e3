//! What the features of a chart measure, told by its rows: counts, sums and
//! shares over all of them, and the family that they decide.

use crate::analyzer::{analyzed, clocked};
use crate::beatmap::{law_parsed_is_valid, parsed, HitObject};
use crate::columns::{has, lemma_mask_of, lemma_same_mask};
use crate::counting::{how_many, lemma_sums_agree, sum_of};
use crate::features::{
    idle, law_best_rank_is_last_largest, law_pattern_amounts_add_up, law_totals_are_bounded,
    pattern_amount, pattern_amounts, row_pattern, summary_of, totals,
};
use crate::number::LIMIT;
use crate::playing::{
    any, is_anchored, lemma_last_head, lemma_notes_since, lemma_size, notes_since, size,
    strikes_before,
};
use crate::strain::{last_head, steady, strain};
use crate::timeline::{
    all_timed, has_event, in_row, is_event, law_every_event_is_in_a_row, lemma_timeline, row_at,
    row_times, struck, timed, timeline, TimelineRow, NEVER,
};
use crate::types::{ManiaGameMod, ManiaModeFamily, ManiaPattern, Ratio};
use vstd::prelude::*;

verus! {

/// Whether a ratio is `part` of `whole`; zero where the whole is nothing.
pub open spec fn is_share(r: Ratio, part: int, whole: int) -> bool {
    &&& r.den > 0
    &&& whole == 0 ==> r.num == 0
    &&& whole != 0 ==> r.num * whole == part * r.den
}

/// All notes that rows strike.
pub open spec fn all_notes(rows: Seq<TimelineRow>) -> int {
    sum_of(rows.len(), |i: int| size(rows[i].head_mask) as int)
}

/// All long notes that rows strike.
pub open spec fn long_notes(rows: Seq<TimelineRow>) -> int {
    sum_of(
        rows.len(),
        |i: int|
            if any(rows[i].head_mask) {
                size(rows[i].ln_head_mask) as int
            } else {
                0
            },
    )
}

/// How many rows strike.
pub open spec fn striking(rows: Seq<TimelineRow>) -> int {
    how_many(rows.len(), |i: int| any(rows[i].head_mask)) as int
}

/// How many rows strike long notes and taps at once.
pub open spec fn mixing(rows: Seq<TimelineRow>) -> int {
    how_many(rows.len(), |i: int| is_mix(rows, i)) as int
}

/// Whether a row strikes long notes and taps at once.
pub open spec fn is_mix(rows: Seq<TimelineRow>, i: int) -> bool {
    any(rows[i].head_mask) && any(rows[i].ln_head_mask) && any(rows[i].normal_mask)
}

/// Whether row `i` strikes more than a second behind the strike before it.
pub open spec fn resumes(rows: Seq<TimelineRow>, i: int) -> bool {
    any(rows[i].head_mask) && exists|j: int| #[trigger]
        strikes_before(rows, j, i) && rows[i].time - rows[j].time > 3_000_000_000_000_000
}

/// How far row `i` strikes beyond a second behind the strike before it.
pub open spec fn pause(rows: Seq<TimelineRow>, i: int) -> int {
    if resumes(rows, i) {
        let j = choose|j: int| strikes_before(rows, j, i);
        rows[i].time - rows[j].time - 3_000_000_000_000_000
    } else {
        0
    }
}

/// How long columns are held between row `i` and the one before it, added up.
pub open spec fn holding(rows: Seq<TimelineRow>, i: int) -> int {
    if i == 0 {
        0
    } else {
        (rows[i].time - rows[i - 1].time) * size(rows[i - 1].active_hold_mask)
    }
}

/// From the first row to the last, and at least a millisecond, in parts.
pub open spec fn length_of(rows: Seq<TimelineRow>) -> int {
    if rows.last().time - rows[0].time >= 3_000_000_000_000 {
        rows.last().time - rows[0].time
    } else {
        3_000_000_000_000
    }
}

/// The length without the pauses, and at least a millisecond, in parts.
pub open spec fn active_length_of(rows: Seq<TimelineRow>) -> int {
    let rest = length_of(rows) - sum_of(rows.len(), |i: int| pause(rows, i));
    if rest >= 3_000_000_000_000 {
        rest
    } else {
        3_000_000_000_000
    }
}

proof fn lemma_pause(rows: Seq<TimelineRow>, i: int)
    requires
        steady(rows),
        0 <= i < rows.len(),
    ensures
        rows[i].head_mask != 0 ==> pause(rows, i) == idle(
            crate::strain::gap_since(rows, i, last_head(rows, i)),
        ),
        rows[i].head_mask == 0 ==> pause(rows, i) == 0,
        resumes(rows, i) <==> pause(rows, i) > 0,
{
    lemma_size(rows[i].head_mask);
    lemma_last_head(rows, i);
    match last_head(rows, i) {
        Some(j) => {
            assert(strikes_before(rows, j, i));
            assert(-4 * LIMIT <= rows[i].time <= 4 * LIMIT);
            assert(-4 * LIMIT <= rows[j].time <= 4 * LIMIT);
        },
        None => {
            assert forall|j: int| !#[trigger] strikes_before(rows, j, i) by {
                if strikes_before(rows, j, i) {
                    assert(!any(rows[j].head_mask));
                }
            }
        },
    }
}

proof fn lemma_anchors(rows: Seq<TimelineRow>, keys: u8, i: int)
    requires
        steady(rows),
        keys <= 8,
        0 <= i < rows.len(),
    ensures
        any(rows[i].head_mask) ==> crate::strain::anchored(
            crate::strain::jack_gaps(rows, i, keys as nat),
        ) == is_anchored(rows, keys, i),
{
    crate::playing::law_strikes_are_measured(rows, keys, i);
    lemma_size(rows[i].head_mask);
}

proof fn lemma_totals(rows: Seq<TimelineRow>, keys: u8, n: nat)
    requires
        steady(rows),
        keys <= 8,
        n <= rows.len(),
    ensures
        ({
            let t = totals(rows, keys, n);
            &&& t.notes == sum_of(n, |i: int| size(rows[i].head_mask) as int)
            &&& t.rows == how_many(n, |i: int| any(rows[i].head_mask))
            &&& t.ln_notes == sum_of(
                n,
                |i: int|
                    if any(rows[i].head_mask) {
                        size(rows[i].ln_head_mask) as int
                    } else {
                        0
                    },
            )
            &&& t.chords == how_many(n, |i: int| size(rows[i].head_mask) >= 2)
            &&& t.large_chords == how_many(
                n,
                |i: int| any(rows[i].head_mask) && 2 * size(rows[i].head_mask) >= keys,
            )
            &&& t.anchors == how_many(
                n,
                |i: int| any(rows[i].head_mask) && is_anchored(rows, keys, i),
            )
            &&& t.hybrids == how_many(n, |i: int| is_mix(rows, i))
            &&& t.inactive == sum_of(n, |i: int| pause(rows, i))
            &&& t.breaks == how_many(n, |i: int| resumes(rows, i))
            &&& t.held == sum_of(n, |i: int| holding(rows, i))
        }),
    decreases n,
{
    if n > 0 {
        let i = n - 1;
        lemma_totals(rows, keys, (n - 1) as nat);
        lemma_size(rows[i].head_mask);
        lemma_size(rows[i].ln_head_mask);
        lemma_size(rows[i].normal_mask);
        lemma_pause(rows, i);
        lemma_anchors(rows, keys, i);
        if i > 0 {
            lemma_size(rows[i - 1].active_hold_mask);
        }
    }
}

proof fn lemma_peak(rows: Seq<TimelineRow>, keys: u8, n: nat)
    requires
        steady(rows),
        n <= rows.len(),
    ensures
        ({
            let peak = totals(rows, keys, n).peak;
            &&& forall|i: int|
                0 <= i < n && any((#[trigger] rows[i]).head_mask) ==> notes_since(
                    rows,
                    i,
                    3_000_000_000_000_000,
                ) <= peak
            &&& peak > 0 ==> exists|i: int|
                0 <= i < n && any((#[trigger] rows[i]).head_mask) && notes_since(
                    rows,
                    i,
                    3_000_000_000_000_000,
                ) == peak
            &&& peak >= 0
        }),
    decreases n,
{
    if n > 0 {
        let m = (n - 1) as nat;
        lemma_peak(rows, keys, m);
        lemma_size(rows[n - 1].head_mask);
        lemma_notes_since(rows, n - 1, n, 3_000_000_000_000_000);
        let before = totals(rows, keys, m).peak;
        let peak = totals(rows, keys, n).peak;
        assert forall|i: int| 0 <= i < n && any((#[trigger] rows[i]).head_mask) implies notes_since(
            rows,
            i,
            3_000_000_000_000_000,
        ) <= peak by {
            if i < m {
                assert(notes_since(rows, i, 3_000_000_000_000_000) <= before);
            }
        }
        if peak > 0 {
            if peak == before {
                let i = choose|i: int|
                    0 <= i < m && any((#[trigger] rows[i]).head_mask) && notes_since(
                        rows,
                        i,
                        3_000_000_000_000_000,
                    ) == before;
                assert(any(rows[i].head_mask));
            } else {
                assert(any(rows[n - 1].head_mask));
            }
        }
    }
}

/// The notes and rows of a chart are counted: the notes that its rows strike,
/// and the rows that strike.
pub proof fn law_notes_and_rows_are_counted(
    rows: Seq<TimelineRow>,
    keys: u8,
    beat: Option<i128>,
    sv_changes: int,
)
    requires
        steady(rows),
        keys <= 8,
        rows.len() <= u64::MAX,
    ensures
        ({
            let base = summary_of(rows, keys, beat, sv_changes).base;
            &&& base.note_count == all_notes(rows)
            &&& base.row_count == striking(rows)
        }),
{
    lemma_totals(rows, keys, rows.len());
    law_totals_are_bounded(rows, keys, rows.len());
}

/// The rates of a chart are shares of its rows that strike: those of chords,
/// of chords over half of the columns or more, of anchors, and of rows that
/// strike long notes and taps at once. The share of long notes is one of notes.
pub proof fn law_rates_are_shares_of_rows(
    rows: Seq<TimelineRow>,
    keys: u8,
    beat: Option<i128>,
    sv_changes: int,
)
    requires
        steady(rows),
        keys <= 8,
        rows.len() <= u64::MAX,
    ensures
        ({
            let style = summary_of(rows, keys, beat, sv_changes).style;
            let n = rows.len();
            &&& is_share(
                style.chord_rate,
                how_many(n, |i: int| size(rows[i].head_mask) >= 2) as int,
                striking(rows),
            )
            &&& is_share(
                style.large_chord_rate,
                how_many(
                    n,
                    |i: int| any(rows[i].head_mask) && 2 * size(rows[i].head_mask) >= keys,
                ) as int,
                striking(rows),
            )
            &&& is_share(
                style.anchor_rate,
                how_many(n, |i: int| any(rows[i].head_mask) && is_anchored(rows, keys, i)) as int,
                striking(rows),
            )
            &&& is_share(style.hybrid_row_ratio, mixing(rows), striking(rows))
            &&& is_share(style.ln_note_ratio, long_notes(rows), all_notes(rows))
        }),
{
    lemma_totals(rows, keys, rows.len());
    law_totals_are_bounded(rows, keys, rows.len());
}

/// A chart is of the family RC just where at most 15 of 100 notes are long, and
/// of the family LN just where at least 90 of 100 are. In between it is of the
/// family HB where at least a tenth of the rows that strike mix long notes and
/// taps, else of the family MIX.
pub proof fn law_share_of_long_notes_decides_family(
    rows: Seq<TimelineRow>,
    keys: u8,
    beat: Option<i128>,
    sv_changes: int,
)
    requires
        steady(rows),
        keys <= 8,
        all_notes(rows) > 0,
    ensures
        ({
            let f = summary_of(rows, keys, beat, sv_changes).mode_family;
            let share = 100 * long_notes(rows);
            let notes = all_notes(rows);
            &&& f == ManiaModeFamily::Rc <==> share <= 15 * notes
            &&& f == ManiaModeFamily::Ln <==> share >= 90 * notes
            &&& f == ManiaModeFamily::Hb <==> 15 * notes < share < 90 * notes && 10 * mixing(rows)
                >= striking(rows)
            &&& f == ManiaModeFamily::Mix <==> 15 * notes < share < 90 * notes && 10 * mixing(rows)
                < striking(rows)
        }),
{
    lemma_totals(rows, keys, rows.len());
}

/// The most notes within a second are those of some row that strikes, and no
/// row that strikes has more.
pub proof fn law_peak_is_the_most_within_a_second(
    rows: Seq<TimelineRow>,
    keys: u8,
    beat: Option<i128>,
    sv_changes: int,
)
    requires
        steady(rows),
        keys <= 8,
        rows.len() <= u64::MAX,
    ensures
        ({
            let peak = summary_of(rows, keys, beat, sv_changes).base.peak_nps;
            &&& forall|i: int|
                0 <= i < rows.len() && any((#[trigger] rows[i]).head_mask) ==> notes_since(
                    rows,
                    i,
                    3_000_000_000_000_000,
                ) <= peak
            &&& peak > 0 ==> exists|i: int|
                0 <= i < rows.len() && any((#[trigger] rows[i]).head_mask) && notes_since(
                    rows,
                    i,
                    3_000_000_000_000_000,
                ) == peak
            &&& peak >= 0
        }),
{
    lemma_peak(rows, keys, rows.len());
    law_totals_are_bounded(rows, keys, rows.len());
}

/// The length of a chart reaches from its first row to its last; its active
/// length leaves out what pauses take beyond a second. Notes per second are
/// taken over the active length, and so are breaks per minute, with a minute as
/// the least; changes of scroll velocity per minute are taken over the whole.
pub proof fn law_lengths_and_rates(
    rows: Seq<TimelineRow>,
    keys: u8,
    beat: Option<i128>,
    sv_changes: int,
)
    requires
        steady(rows),
        keys <= 8,
        0 < rows.len() <= u64::MAX,
        0 <= sv_changes <= u64::MAX,
    ensures
        ({
            let base = summary_of(rows, keys, beat, sv_changes).base;
            let second = 3_000_000_000_000_000int;
            let length = length_of(rows);
            let active = active_length_of(rows);
            let breaks = how_many(rows.len(), |i: int| resumes(rows, i)) as int;
            &&& is_share(base.length_seconds, length, second)
            &&& is_share(base.active_length_seconds, active, second)
            &&& is_share(base.avg_nps, all_notes(rows) * second, active)
            &&& active >= 60 * second ==> is_share(base.break_density, breaks * 60 * second, active)
            &&& active < 60 * second ==> is_share(base.break_density, breaks, 1)
            &&& length >= 60 * second ==> is_share(
                base.sv_change_rate,
                sv_changes * 60 * second,
                length,
            )
            &&& length < 60 * second ==> is_share(base.sv_change_rate, sv_changes, 1)
        }),
{
    let n = rows.len();
    lemma_totals(rows, keys, n);
    law_totals_are_bounded(rows, keys, n);
    assert(rows.last() == rows[n - 1]);
    assert(-4 * LIMIT <= rows[0].time <= 4 * LIMIT);
    assert(-4 * LIMIT <= rows[n - 1].time <= 4 * LIMIT);
}

/// The share of time that columns are held is taken of the time that they
/// could be, and is one at most.
pub proof fn law_held_time_is_a_share(
    rows: Seq<TimelineRow>,
    keys: u8,
    beat: Option<i128>,
    sv_changes: int,
)
    requires
        steady(rows),
        0 < keys <= 8,
        0 < rows.len() <= u64::MAX,
    ensures
        ({
            let r = summary_of(rows, keys, beat, sv_changes).style.hold_occupancy;
            let held = sum_of(rows.len(), |i: int| holding(rows, i));
            let whole = length_of(rows) * keys;
            &&& held <= whole ==> is_share(r, held, whole)
            &&& held > whole ==> r.num == r.den > 0
        }),
{
    let n = rows.len();
    lemma_totals(rows, keys, n);
    law_totals_are_bounded(rows, keys, n);
    assert(rows.last() == rows[n - 1]);
    assert(-4 * LIMIT <= rows[0].time <= 4 * LIMIT);
    assert(-4 * LIMIT <= rows[n - 1].time <= 4 * LIMIT);
    let l = length_of(rows);
    let k = keys as int;
    assert(0 < l * k <= 64 * LIMIT) by (nonlinear_arith)
        requires
            0 < k <= 8,
            0 < l <= 8 * LIMIT,
    ;
}

/// How long row `i` lasts: until the next row, at least a millisecond and at
/// most a second; the last row lasts a millisecond.
pub open spec fn dwell(rows: Seq<TimelineRow>, i: int) -> int {
    if i == rows.len() - 1 || rows[i + 1].time - rows[i].time < 3_000_000_000_000 {
        3_000_000_000_000
    } else if rows[i + 1].time - rows[i].time > 3_000_000_000_000_000 {
        3_000_000_000_000_000
    } else {
        rows[i + 1].time - rows[i].time
    }
}

/// How long rows show a pattern.
pub open spec fn showing(rows: Seq<TimelineRow>, keys: u8, pattern: ManiaPattern) -> int {
    sum_of(
        rows.len(),
        |i: int|
            if strain(rows, keys)[i].pattern == pattern {
                dwell(rows, i)
            } else {
                0
            },
    )
}

/// How long all rows last.
pub open spec fn all_dwell(rows: Seq<TimelineRow>) -> int {
    sum_of(rows.len(), |i: int| dwell(rows, i))
}

/// The patterns in their order.
pub open spec fn pattern_order() -> Seq<ManiaPattern> {
    seq![
        ManiaPattern::Stream,
        ManiaPattern::Chordstream,
        ManiaPattern::Jacks,
        ManiaPattern::Coordination,
        ManiaPattern::Density,
        ManiaPattern::Wildcard,
    ]
}

proof fn lemma_showing(rows: Seq<TimelineRow>, keys: u8, pattern: ManiaPattern, n: nat)
    requires
        n <= rows.len(),
    ensures
        pattern_amount(rows, keys, n, pattern.rank()) == sum_of(
            n,
            |i: int|
                if strain(rows, keys)[i].pattern == pattern {
                    dwell(rows, i)
                } else {
                    0
                },
        ),
        crate::features::lasting_sum(rows, n) == sum_of(n, |i: int| dwell(rows, i)),
    decreases n,
{
    if n > 0 {
        lemma_showing(rows, keys, pattern, (n - 1) as nat);
        assert(strain(rows, keys)[n - 1].pattern == row_pattern(rows, keys, n - 1));
        assert(row_pattern(rows, keys, n - 1).rank() == pattern.rank() <==> row_pattern(
            rows,
            keys,
            n - 1,
        ) == pattern);
    }
}

/// The style of a chart holds for each pattern the share of time that its rows
/// show it. The pattern that is shown longest dominates; of several, the last
/// in order.
pub proof fn law_style_measures_patterns(
    rows: Seq<TimelineRow>,
    keys: u8,
    beat: Option<i128>,
    sv_changes: int,
)
    requires
        rows.len() <= u64::MAX,
    ensures
        ({
            let s = summary_of(rows, keys, beat, sv_changes);
            let whole = all_dwell(rows);
            &&& is_share(s.style.stream, showing(rows, keys, ManiaPattern::Stream), whole)
            &&& is_share(s.style.chordstream, showing(rows, keys, ManiaPattern::Chordstream), whole)
            &&& is_share(s.style.jacks, showing(rows, keys, ManiaPattern::Jacks), whole)
            &&& is_share(
                s.style.coordination,
                showing(rows, keys, ManiaPattern::Coordination),
                whole,
            )
            &&& is_share(s.style.density, showing(rows, keys, ManiaPattern::Density), whole)
            &&& is_share(s.style.wildcard, showing(rows, keys, ManiaPattern::Wildcard), whole)
            &&& exists|d: int|
                0 <= d < 6 && #[trigger] pattern_order()[d] == s.dominant_pattern && (forall|k: int|
                    0 <= k < 6 ==> showing(rows, keys, #[trigger] pattern_order()[k]) <= showing(
                        rows,
                        keys,
                        s.dominant_pattern,
                    )) && (forall|k: int|
                    d < k < 6 ==> showing(rows, keys, #[trigger] pattern_order()[k]) < showing(
                        rows,
                        keys,
                        s.dominant_pattern,
                    ))
        }),
{
    let n = rows.len();
    let order = pattern_order();
    let a = pattern_amounts(rows, keys, n);
    assert forall|k: int| 0 <= k < 6 implies a[k] == showing(rows, keys, #[trigger] order[k]) by {
        lemma_showing(rows, keys, order[k], n);
        assert(order[k].rank() == k);
    }
    lemma_showing(rows, keys, ManiaPattern::Stream, n);
    law_pattern_amounts_add_up(rows, keys, n);
    law_best_rank_is_last_largest(a, 6);
    assert(0 <= a[0] && 0 <= a[1] && 0 <= a[2] && 0 <= a[3] && 0 <= a[4] && 0 <= a[5]);
    assert(a[0] == showing(rows, keys, order[0]) && a[1] == showing(rows, keys, order[1]) && a[2]
        == showing(rows, keys, order[2]) && a[3] == showing(rows, keys, order[3]) && a[4]
        == showing(rows, keys, order[4]) && a[5] == showing(rows, keys, order[5]));
    let d = crate::features::best_rank(a, 6);
    let s = summary_of(rows, keys, beat, sv_changes);
    assert(order[d] == s.dominant_pattern);
    assert forall|k: int| 0 <= k < 6 implies showing(rows, keys, #[trigger] order[k]) <= showing(
        rows,
        keys,
        s.dominant_pattern,
    ) by {
        assert(a[k] <= a[d]);
    }
    assert forall|k: int| d < k < 6 implies showing(rows, keys, #[trigger] order[k]) < showing(
        rows,
        keys,
        s.dominant_pattern,
    ) by {
        assert(a[k] < a[d]);
    }
}

/// Whether a time lies at most two milliseconds behind another.
pub open spec fn just_after(t: int, u: int) -> bool {
    t <= u <= t + 6_000_000_000_000
}

/// Rows lie more than two milliseconds apart.
pub proof fn law_rows_lie_two_milliseconds_apart(objects: Seq<HitObject>, i: int, j: int)
    requires
        all_timed(objects),
        0 <= i < j < timeline(objects).len(),
    ensures
        timeline(objects)[i].time + 6_000_000_000_000 < timeline(objects)[j].time,
{
    lemma_timeline(objects);
}

/// Every row lies at the start of a note or at the end of a long one.
pub proof fn law_rows_lie_at_notes(objects: Seq<HitObject>, i: int)
    requires
        all_timed(objects),
        0 <= i < timeline(objects).len(),
    ensures
        exists|k: int|
            0 <= k < objects.len() && ((#[trigger] objects[k]).start == timeline(objects)[i].time
                || (objects[k].long_note && objects[k].end == timeline(objects)[i].time)),
{
    let ts = row_times(objects, NEVER as int);
    lemma_timeline(objects);
    crate::timeline::law_rows_are_apart(objects, NEVER as int);
    assert(is_event(objects, ts[i]));
    let k = choose|k: int| 0 <= k < objects.len() && has_event(#[trigger] objects[k], ts[i]);
    assert(timeline(objects)[i].time == ts[i]);
    assert(has_event(objects[k], ts[i]));
}

/// Every note starts at most two milliseconds behind some row, and so do long
/// notes end.
pub proof fn law_notes_fall_into_rows(objects: Seq<HitObject>, k: int)
    requires
        all_timed(objects),
        0 <= k < objects.len(),
    ensures
        exists|i: int|
            0 <= i < timeline(objects).len() && just_after(
                (#[trigger] timeline(objects)[i]).time as int,
                objects[k].start as int,
            ),
        objects[k].long_note ==> exists|i: int|
            0 <= i < timeline(objects).len() && just_after(
                (#[trigger] timeline(objects)[i]).time as int,
                objects[k].end as int,
            ),
{
    let i = lemma_reached(objects, k, objects[k].start as int);
    if objects[k].long_note {
        let j = lemma_reached(objects, k, objects[k].end as int);
    }
}

proof fn lemma_reached(objects: Seq<HitObject>, k: int, u: int) -> (i: int)
    requires
        all_timed(objects),
        0 <= k < objects.len(),
        has_event(objects[k], u),
    ensures
        0 <= i < timeline(objects).len(),
        just_after(timeline(objects)[i].time as int, u),
        timeline(objects)[i] == row_at(objects, timeline(objects)[i].time as int),
{
    let ts = row_times(objects, NEVER as int);
    lemma_timeline(objects);
    assert(timed(objects[k]));
    assert(is_event(objects, u));
    law_every_event_is_in_a_row(objects, NEVER as int, u);
    let i = choose|i: int| 0 <= i < ts.len() && #[trigger] in_row(ts[i], u);
    assert(timeline(objects)[i].time == ts[i]);
    i
}

/// A row strikes the columns whose notes start within two milliseconds of it,
/// lets go those whose long notes end within two milliseconds of it, and holds
/// those whose long notes have started by then and not ended more than two
/// milliseconds before.
pub proof fn law_rows_show_the_notes(objects: Seq<HitObject>, i: int, c: int)
    requires
        all_timed(objects),
        0 <= i < timeline(objects).len(),
        0 <= c < 8,
    ensures
        ({
            let row = timeline(objects)[i];
            let t = row.time as int;
            &&& has(row.head_mask, c) <==> exists|k: int|
                0 <= k < objects.len() && (#[trigger] objects[k]).column == c && just_after(
                    t,
                    objects[k].start as int,
                )
            &&& has(row.normal_mask, c) <==> exists|k: int|
                0 <= k < objects.len() && (#[trigger] objects[k]).column == c
                    && !objects[k].long_note && just_after(t, objects[k].start as int)
            &&& has(row.ln_head_mask, c) <==> exists|k: int|
                0 <= k < objects.len() && (#[trigger] objects[k]).column == c
                    && objects[k].long_note && just_after(t, objects[k].start as int)
            &&& has(row.release_mask, c) <==> exists|k: int|
                0 <= k < objects.len() && (#[trigger] objects[k]).column == c
                    && objects[k].long_note && just_after(t, objects[k].end as int)
            &&& has(row.active_hold_mask, c) <==> exists|k: int|
                0 <= k < objects.len() && (#[trigger] objects[k]).column == c
                    && objects[k].long_note && objects[k].start <= t + 6_000_000_000_000
                    && objects[k].end >= t - 6_000_000_000_000
        }),
{
    let row = timeline(objects)[i];
    lemma_timeline(objects);
    let t = row_times(objects, NEVER as int)[i];
    assert(row == row_at(objects, t));
    lemma_mask_of(|c: int| struck(objects, t, c, false) || struck(objects, t, c, true));
    lemma_mask_of(|c: int| struck(objects, t, c, false));
    lemma_mask_of(|c: int| struck(objects, t, c, true));
    lemma_mask_of(|c: int| crate::timeline::released(objects, t, c));
    lemma_mask_of(|c: int| crate::timeline::held(objects, t, c));
    if struck(objects, t, c, false) {
        let k = choose|k: int|
            0 <= k < objects.len() && (#[trigger] objects[k]).long_note == false
                && objects[k].column == c && in_row(t, objects[k].start as int);
        assert(just_after(t, objects[k].start as int));
    }
    if struck(objects, t, c, true) {
        let k = choose|k: int|
            0 <= k < objects.len() && (#[trigger] objects[k]).long_note == true && objects[k].column
                == c && in_row(t, objects[k].start as int);
        assert(just_after(t, objects[k].start as int));
    }
}

/// The notes of a chart at a clock rate: at DT all times are two thirds of the
/// usual ones, at HT four thirds; the usual ones count three parts to a tick.
pub proof fn law_clock_rates_move_notes(p: crate::beatmap::ParsedView, i: int)
    requires
        p.valid(),
        0 <= i < p.objects.len(),
    ensures
        ({
            let o = p.objects[i];
            let usual = clocked(p, ManiaGameMod::Nm).objects[i];
            let fast = clocked(p, ManiaGameMod::Dt).objects[i];
            let slow = clocked(p, ManiaGameMod::Ht).objects[i];
            &&& usual.start == 3 * o.start && usual.end == 3 * o.end
            &&& 3 * fast.start == 2 * usual.start && 3 * fast.end == 2 * usual.end
            &&& 3 * slow.start == 4 * usual.start && 3 * slow.end == 4 * usual.end
            &&& usual.column == o.column && fast.column == o.column && slow.column == o.column
            &&& usual.long_note == o.long_note && fast.long_note == o.long_note && slow.long_note
                == o.long_note
        }),
{
    let o = p.objects[i];
    assert(crate::beatmap::well_placed(o, p.key_count as int));
}

proof fn lemma_kinds(objects: Seq<HitObject>, long: bool)
    requires
        all_timed(objects),
        objects.len() > 0,
        forall|k: int| 0 <= k < objects.len() ==> (#[trigger] objects[k]).long_note == long,
    ensures
        steady(timeline(objects)),
        all_notes(timeline(objects)) > 0,
        !long ==> long_notes(timeline(objects)) == 0,
        long ==> long_notes(timeline(objects)) == all_notes(timeline(objects)),
{
    let rows = timeline(objects);
    lemma_timeline(objects);
    let first = lemma_reached(objects, 0, objects[0].start as int);
    lemma_any_notes(objects, first);
    lemma_sum_positive(rows, rows.len(), first);
    assert forall|i: int| 0 <= i < rows.len() implies if long {
        (#[trigger] rows[i]).head_mask == rows[i].ln_head_mask
    } else {
        rows[i].ln_head_mask == 0
    } by {
        let t = row_times(objects, NEVER as int)[i];
        assert(rows[i] == row_at(objects, t));
        lemma_mask_of(|c: int| struck(objects, t, c, false) || struck(objects, t, c, true));
        lemma_mask_of(|c: int| struck(objects, t, c, true));
        if long {
            assert forall|c: int| 0 <= c < 8 implies #[trigger] has(rows[i].head_mask, c) == has(
                rows[i].ln_head_mask,
                c,
            ) by {
                assert(!struck(objects, t, c, false));
            }
            lemma_same_mask(rows[i].head_mask, rows[i].ln_head_mask);
        } else {
            assert forall|c: int| 0 <= c < 8 implies #[trigger] has(rows[i].ln_head_mask, c) == has(
                0,
                c,
            ) by {
                assert(!struck(objects, t, c, true));
                crate::columns::lemma_weight();
            }
            lemma_same_mask(rows[i].ln_head_mask, 0);
        }
    }
    let f = |i: int|
        if any(rows[i].head_mask) {
            size(rows[i].ln_head_mask) as int
        } else {
            0
        };
    if long {
        let g = |i: int| size(rows[i].head_mask) as int;
        assert forall|i: int| 0 <= i < rows.len() implies #[trigger] f(i) == g(i) by {
            lemma_size(rows[i].head_mask);
            assert(rows[i].head_mask == rows[i].ln_head_mask);
        }
        lemma_sums_agree(rows.len(), f, g);
    } else {
        let g = |i: int| 0int;
        assert forall|i: int| 0 <= i < rows.len() implies #[trigger] f(i) == g(i) by {
            lemma_size(rows[i].ln_head_mask);
            assert(rows[i].ln_head_mask == 0);
        }
        lemma_sums_agree(rows.len(), f, g);
        lemma_no_sum(rows.len());
    }
}

proof fn lemma_no_sum(n: nat)
    ensures
        sum_of(n, |i: int| 0int) == 0,
    decreases n,
{
    if n > 0 {
        lemma_no_sum((n - 1) as nat);
    }
}

proof fn lemma_any_notes(objects: Seq<HitObject>, i: int)
    requires
        all_timed(objects),
        objects.len() > 0,
        0 <= i < timeline(objects).len(),
        just_after(timeline(objects)[i].time as int, objects[0].start as int),
    ensures
        any(timeline(objects)[i].head_mask),
{
    assert(timed(objects[0]));
    law_rows_show_the_notes(objects, i, objects[0].column as int);
    assert(has(timeline(objects)[i].head_mask, objects[0].column as int));
}

proof fn lemma_sum_positive(rows: Seq<TimelineRow>, n: nat, i: int)
    requires
        n <= rows.len(),
        0 <= i < rows.len(),
        any(rows[i].head_mask),
    ensures
        sum_of(n, |i: int| size(rows[i].head_mask) as int) >= 0,
        i < n ==> sum_of(n, |i: int| size(rows[i].head_mask) as int) > 0,
    decreases n,
{
    if n > 0 {
        lemma_sum_positive(rows, (n - 1) as nat, i);
        lemma_size(rows[i].head_mask);
    }
}

/// A file without long notes is of the family RC, and one of long notes only
/// is of the family LN.
pub proof fn law_pure_charts_have_pure_families(
    text: Seq<char>,
    digest: Seq<u8>,
    source: Option<u64>,
    m: ManiaGameMod,
)
    ensures
        parsed(text, digest) matches Ok(p) ==> (analyzed(
            text,
            digest,
            source,
            m,
        ) matches Ok((metadata, record)) && {
            &&& (forall|k: int| 0 <= k < p.objects.len() ==> !(#[trigger] p.objects[k]).long_note)
                ==> metadata.mode_family == ManiaModeFamily::Rc && record.mode_family
                == ManiaModeFamily::Rc
            &&& (forall|k: int| 0 <= k < p.objects.len() ==> (#[trigger] p.objects[k]).long_note)
                ==> metadata.mode_family == ManiaModeFamily::Ln && record.mode_family
                == ManiaModeFamily::Ln
        }),
{
    law_parsed_is_valid(text, digest);
    if let Ok(p) = parsed(text, digest) {
        let q = crate::analyzer::identified(p, source);
        assert(q.valid());
        crate::analyzer::lemma_clocked(q, m);
        let objects = clocked(q, m).objects;
        let rows = timeline(objects);
        assert(objects.len() == p.objects.len());
        if forall|k: int| 0 <= k < p.objects.len() ==> !(#[trigger] p.objects[k]).long_note {
            assert forall|k: int| 0 <= k < objects.len() implies (#[trigger] objects[k]).long_note
                == false by {
                assert(!p.objects[k].long_note);
            }
            lemma_kinds(objects, false);
            law_share_of_long_notes_decides_family(
                rows,
                p.key_count,
                clocked(q, m).beat,
                p.sv_changes,
            );
        }
        if forall|k: int| 0 <= k < p.objects.len() ==> (#[trigger] p.objects[k]).long_note {
            assert forall|k: int| 0 <= k < objects.len() implies (#[trigger] objects[k]).long_note
                == true by {
                assert(p.objects[k].long_note);
            }
            lemma_kinds(objects, true);
            law_share_of_long_notes_decides_family(
                rows,
                p.key_count,
                clocked(q, m).beat,
                p.sv_changes,
            );
        }
    }
}

} // verus!
