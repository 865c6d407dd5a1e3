//! What a chart keeps when it is moved in time: everything that is found in it
//! and measured of it.

use crate::chart::{BpmData, ChartView, NoteType, RowView, TimeItem};
use crate::finder::found_in;
use crate::number::TICKS;
use crate::primitives::{
    beat_at, beat_from, hold_share, is_blank, kind_total, primitive_at, primitives, primitives_upto,
    struck, struck_before, time_before,
};
use crate::profile::{
    density_key, density_keys, density_of, features_of, is_sustained, longest_run, middle_window,
    note_total, peak_window, rows_with, run_before, silent_windows, span_of,
    window_count, window_notes, window_of,
};
use crate::summary::{mixed_rows, mixed_share, mixes, mode_of, report_of};
use crate::velocity::{extreme, extreme_at, sv_amount, unusual_runs, unusual_time, Speed};
use vstd::prelude::*;

verus! {

/// Rows that are `d` milliseconds later.
pub open spec fn later_rows(rows: Seq<RowView>, d: int) -> Seq<RowView> {
    rows.map_values(|r: RowView| RowView { time: r.time + d, data: r.data })
}

/// Items that are `d` milliseconds later; a time that cannot be read stays so.
pub open spec fn later_items<T>(items: Seq<TimeItem<T>>, d: int) -> Seq<TimeItem<T>> {
    items.map_values(
        |item: TimeItem<T>|
            TimeItem {
                time: match item.time {
                    Some(t) => Some((t + d * TICKS) as i128),
                    None => None,
                },
                data: item.data,
            },
    )
}

/// A chart with all its times `d` milliseconds later.
pub open spec fn later(c: ChartView, d: int) -> ChartView {
    ChartView {
        keys: c.keys,
        timed: c.timed,
        notes: later_rows(c.notes, d),
        bpm: later_items(c.bpm, d),
        sv: later_items(c.sv, d),
    }
}

/// Whether the times of items can be written down when they are `d`
/// milliseconds later.
pub open spec fn can_move<T>(items: Seq<TimeItem<T>>, d: int) -> bool {
    forall|i: int|
        0 <= i < items.len() ==> ((#[trigger] items[i]).time matches Some(t) ==> i128::MIN <= t + d
            * TICKS <= i128::MAX)
}

proof fn lemma_rows(rows: Seq<RowView>, d: int, n: nat)
    requires
        n <= rows.len(),
    ensures
        struck_before(later_rows(rows, d), n as int) == struck_before(rows, n as int),
        rows.len() > 0 ==> time_before(later_rows(rows, d), n as int) == time_before(
            rows,
            n as int,
        ) + d,
        forall|k: NoteType| #[trigger]
            kind_total(later_rows(rows, d), k, n) == kind_total(rows, k, n),
        mixed_rows(later_rows(rows, d), n) == mixed_rows(rows, n),
        note_total(later_rows(rows, d), n) == note_total(rows, n),
        forall|least: int| #[trigger]
            rows_with(later_rows(rows, d), least, n) == rows_with(rows, least, n),
    decreases n,
{
    if n > 0 {
        lemma_rows(rows, d, (n - 1) as nat);
        let (a, b) = (rows[n - 1], later_rows(rows, d)[n - 1]);
        assert(b.data == a.data && b.time == a.time + d);
        assert(struck(a) == struck(b));
        assert(is_blank(a) == is_blank(b));
        assert(mixes(a) == mixes(b));
        let (p, m) = ((n - 1) as nat, later_rows(rows, d));
        assert forall|k: NoteType| #[trigger] kind_total(m, k, n) == kind_total(rows, k, n) by {
            assert(kind_total(m, k, p) == kind_total(rows, k, p));
        }
        assert forall|least: int| #[trigger] rows_with(m, least, n) == rows_with(rows, least, n) by {
            assert(rows_with(m, least, p) == rows_with(rows, least, p));
        }
    }
}

proof fn lemma_beat(items: Seq<TimeItem<BpmData>>, d: int, t: int, i: nat, current: i128)
    requires
        can_move(items, d),
    ensures
        beat_from(later_items(items, d), t + d * TICKS, i, current) == beat_from(
            items,
            t,
            i,
            current,
        ),
    decreases items.len() - i,
{
    if i < items.len() {
        let m = later_items(items, d);
        assert(m[i as int].data == items[i as int].data);
        lemma_beat(items, d, t, i + 1, items[i as int].data.ms_per_beat);
    }
}

proof fn lemma_primitives(c: ChartView, d: int, n: nat)
    requires
        n <= c.notes.len(),
        can_move(c.bpm, d),
    ensures
        primitives_upto(later(c, d), n) == primitives_upto(c, n),
    decreases n,
{
    if n > 1 {
        let i = n - 1;
        let m = later(c, d);
        lemma_primitives(c, d, i as nat);
        lemma_rows(c.notes, d, i as nat);
        let (a, b) = (c.notes[i], m.notes[i]);
        assert(b.data == a.data && b.time == a.time + d);
        assert(m.notes[0].time == c.notes[0].time + d);
        assert(is_blank(a) == is_blank(b));
        assert(beat_at(m.bpm, b.time) == beat_at(c.bpm, a.time)) by {
            if c.bpm.len() > 0 {
                assert((a.time + d) * TICKS == a.time * TICKS + d * TICKS) by (nonlinear_arith);
                assert(m.bpm[0].data == c.bpm[0].data);
                lemma_beat(c.bpm, d, a.time * TICKS, 0, c.bpm[0].data.ms_per_beat);
            }
        }
        assert(struck(a) == struck(b));
        assert(primitive_at(m, i) =~= primitive_at(c, i));
    }
}

proof fn lemma_speeds(sv: Seq<TimeItem<Speed>>, d: int, n: nat)
    requires
        n <= sv.len(),
        can_move(sv, d),
    ensures
        unusual_time(later_items(sv, d), n) == unusual_time(sv, n),
        unusual_runs(later_items(sv, d), n) == unusual_runs(sv, n),
    decreases n,
{
    if n > 0 {
        lemma_speeds(sv, d, (n - 1) as nat);
        let m = later_items(sv, d);
        assert(m[n - 1].data == sv[n - 1].data);
        if n > 1 {
            assert(m[n - 2].data == sv[n - 2].data);
            assert(sv[n - 2].time matches Some(t) ==> m[n - 2].time == Some(
                (t + d * TICKS) as i128,
            ));
        }
    }
}

proof fn lemma_velocity(c: ChartView, d: int)
    requires
        c.notes.len() > 0,
        can_move(c.bpm, d),
        can_move(c.sv, d),
    ensures
        sv_amount(later(c, d)) == sv_amount(c),
{
    let m = later(c, d);
    let n = c.sv.len();
    lemma_speeds(c.sv, d, n);
    assert forall|i: int| 0 <= i < c.bpm.len() implies #[trigger] extreme_at(m.bpm, i)
        == extreme_at(c.bpm, i) by {
        assert(m.bpm[i].data == c.bpm[i].data);
        if i > 0 {
            assert(m.bpm[i - 1].data == c.bpm[i - 1].data);
        }
    }
    assert(extreme(m.bpm) == extreme(c.bpm)) by {
        if extreme(c.bpm) {
            let i = choose|i: int| 0 <= i < c.bpm.len() && #[trigger] extreme_at(c.bpm, i);
            assert(extreme_at(m.bpm, i));
        }
        if extreme(m.bpm) {
            let i = choose|i: int| 0 <= i < m.bpm.len() && #[trigger] extreme_at(m.bpm, i);
            assert(extreme_at(c.bpm, i));
        }
    }
    assert(m.last_note() == c.last_note() + d);
    assert(m.last_note() * TICKS == c.last_note() * TICKS + d * TICKS) by (nonlinear_arith)
        requires
            m.last_note() == c.last_note() + d,
    ;
    if n > 0 {
        assert(m.sv.last().data == c.sv.last().data);
        assert(c.sv[n - 1].time matches Some(t) ==> m.sv[n - 1].time == Some(
            (t + d * TICKS) as i128,
        ));
    }
}

proof fn lemma_found(c: ChartView, d: int)
    requires
        c.notes.len() > 0,
        can_move(c.bpm, d),
    ensures
        found_in(later(c, d)) == found_in(c),
        later(c, d).duration() == c.duration(),
        hold_share(later(c, d)) == hold_share(c),
        mixed_share(later(c, d)) == mixed_share(c),
        mode_of(later(c, d)) == mode_of(c),
{
    let m = later(c, d);
    let n = c.notes.len();
    assert(m.notes[0].data == c.notes[0].data);
    assert(struck(m.notes[0]) == struck(c.notes[0]));
    lemma_primitives(c, d, n);
    lemma_rows(c.notes, d, n);
    assert(primitives(m) == primitives(c));
}

/// A chart that is moved in time gives the same report: the same stretches,
/// clusters, category, family and velocity.
pub proof fn law_moved_chart_has_same_report(c: ChartView, d: int)
    requires
        c.notes.len() > 0,
        can_move(c.bpm, d),
        can_move(c.sv, d),
    ensures
        report_of(later(c, d)) == report_of(c),
{
    lemma_found(c, d);
    lemma_velocity(c, d);
}

proof fn lemma_windows(c: ChartView, d: int, w: int, n: nat)
    requires
        n <= c.notes.len(),
        c.notes.len() > 0,
    ensures
        window_notes(later(c, d), w, n) == window_notes(c, w, n),
    decreases n,
{
    if n > 0 {
        let m = later(c, d);
        lemma_windows(c, d, w, (n - 1) as nat);
        assert(m.notes[n - 1].data == c.notes[n - 1].data);
        assert(struck(m.notes[n - 1]) == struck(c.notes[n - 1]));
        assert(m.duration() == c.duration());
        assert(window_of(m, n - 1) == window_of(c, n - 1));
    }
}

proof fn lemma_runs(c: ChartView, d: int, n: nat)
    requires
        c.notes.len() > 0,
    ensures
        run_before(later(c, d), n) == run_before(c, n),
        longest_run(later(c, d), n) == longest_run(c, n),
        silent_windows(later(c, d), n) == silent_windows(c, n),
        density_keys(later(c, d)) == density_keys(c),
        peak_window(later(c, d)) == peak_window(c),
        middle_window(later(c, d)) == middle_window(c),
    decreases n,
{
    let m = later(c, d);
    assert(m.duration() == c.duration());
    assert forall|w: int| #[trigger] density_key(m, w) == density_key(c, w) by {
        lemma_windows(c, d, w, c.notes.len());
    }
    assert(density_keys(m) =~= density_keys(c));
    if n > 0 {
        lemma_runs(c, d, (n - 1) as nat);
        lemma_windows(c, d, n - 1, c.notes.len());
        assert(is_sustained(m, n - 1) == is_sustained(c, n - 1));
    }
}

/// A chart that is moved in time has the same features: what its patterns
/// cover, how that changes from window to window, its densities and counts.
/// With [`law_moved_chart_has_same_report`] the stretches and clusters of the
/// moved chart are those of the chart.
pub proof fn law_moved_chart_has_same_features(c: ChartView, d: int)
    requires
        c.notes.len() > 0,
        can_move(c.bpm, d),
        can_move(c.sv, d),
        report_of(c) is Ok,
    ensures
        report_of(later(c, d)) is Ok,
        ({
            let (r, s) = (report_of(c)->Ok_0, report_of(later(c, d))->Ok_0);
            features_of(later(c, d), s.patterns, s.clusters) == features_of(
                c,
                r.patterns,
                r.clusters,
            )
        }),
{
    law_moved_chart_has_same_report(c, d);
    let m = later(c, d);
    let r = report_of(c)->Ok_0;
    assert(m.duration() == c.duration());
    lemma_rows(c.notes, d, c.notes.len());
    lemma_runs(c, d, window_count(span_of(c)) as nat);
    lemma_windows(c, d, peak_window(c), c.notes.len());
    lemma_windows(c, d, middle_window(c), c.notes.len());
    assert(density_of(m, peak_window(m)) == density_of(c, peak_window(c)));
    assert(features_of(m, r.patterns, r.clusters) =~= features_of(c, r.patterns, r.clusters));
}

} // verus!
