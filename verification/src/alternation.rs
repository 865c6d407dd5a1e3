//! Charts that take turns between chords and single taps, and what they are
//! called.

use crate::chart::{ChartView, NoteType};
use crate::counting::{how_many, sum_of};
use crate::course::{hits, is_hit};
use crate::finder::{
    found_in, kind_stretches, kinds_of, stretches, window_at, window_stretches, FoundPattern,
    Subtype,
};
use crate::kinds::{
    any_chord, beats, fresh, is_stretch_of, law_chordstreams, law_chordstreams_on_four_keys,
    law_found_patterns_are_shown, law_jacks, law_shown_patterns_are_found, law_streams, rows_from,
    shows, sized,
};
use crate::matching::{
    is_empty, law_rows_tell_columns, law_rows_tell_strikes_and_repeats, lemma_blank, shown_last,
    struck_last,
};
use crate::naming::law_one_kind_names_the_chart;
use crate::primitives::{
    count_kind, kind_total, primitive_at, primitives, primitives_upto, PrimitiveView,
};
use crate::summary::{counted, counts_in, mode_of, report_of, stretches_of};
use crate::types::{ManiaModeFamily, ManiaPattern};
use vstd::prelude::*;

verus! {

/// Whether a chart on four keys takes turns every `gap` milliseconds: rows
/// whose number leaves `turn` when halved strike all columns but `free`, the
/// others strike `free` alone.
pub open spec fn alternates(c: ChartView, free: int, gap: int, turn: int) -> bool {
    &&& c.valid()
    &&& c.keys == 4
    &&& 0 <= free < 4
    &&& turn == 0 || turn == 1
    &&& forall|i: int|
        0 <= i < c.notes.len() ==> (#[trigger] c.notes[i]).time == c.notes[0].time + i * gap
    &&& forall|i: int, column: int|
        0 <= i < c.notes.len() && 0 <= column < 4 ==> #[trigger] c.notes[i].data[column] == (if (i
            % 2 == turn) == (column != free) {
            NoteType::Normal
        } else {
            NoteType::Nothing
        })
}

proof fn lemma_row(c: ChartView, free: int, gap: int, turn: int, i: int)
    requires
        alternates(c, free, gap, turn),
        0 <= i < c.notes.len(),
    ensures
        c.notes[i].data.len() == 4,
        hits(c.notes[i]) == (if i % 2 == turn {
            3nat
        } else {
            1nat
        }),
        !is_empty(c.notes[i]),
        i > 0 ==> how_many(
            4,
            |column: int| is_hit(c.notes[i], column) && is_hit(c.notes[i - 1], column),
        ) == 0,
{
    let row = c.notes[i];
    reveal_with_fuel(how_many, 5);
    assert(row.data.len() == 4);
    assert(row.data[0] == row.data[0] && row.data[1] == row.data[1] && row.data[2] == row.data[2]
        && row.data[3] == row.data[3]);
    if i > 0 {
        let last = c.notes[i - 1];
        assert(last.data[0] == last.data[0] && last.data[1] == last.data[1] && last.data[2]
            == last.data[2] && last.data[3] == last.data[3]);
    }
    if i % 2 == turn {
        let other = if free == 0 {
            1int
        } else {
            0int
        };
        assert(row.data[other] == NoteType::Normal);
    } else {
        assert(row.data[free] == NoteType::Normal);
    }
}

proof fn lemma_told(c: ChartView, free: int, gap: int, turn: int, n: nat)
    requires
        alternates(c, free, gap, turn),
        0 < n <= c.notes.len(),
    ensures
        primitives_upto(c, n).len() == n - 1,
        forall|k: int|
            0 <= k < n - 1 ==> #[trigger] primitives_upto(c, n)[k] == primitive_at(c, k + 1),
    decreases n,
{
    if n > 1 {
        let m = (n - 1) as nat;
        lemma_told(c, free, gap, turn, m);
        lemma_row(c, free, gap, turn, m as int);
        lemma_blank(c.notes[m as int]);
    }
}

/// Whether a row is told as a row that takes turns with others.
spec fn is_turn(p: PrimitiveView, gap: int, i: int, chord: bool) -> bool {
    &&& p.notes == (if chord {
        3int
    } else {
        1int
    })
    &&& p.jacks == 0
    &&& p.ms_per_beat == 4 * gap
    &&& p.time == i * gap
    &&& p.ln_heads.len() == 0 && p.ln_bodies.len() == 0 && p.ln_tails.len() == 0
}

proof fn lemma_turn(c: ChartView, free: int, gap: int, turn: int, k: int)
    requires
        alternates(c, free, gap, turn),
        0 <= k < c.notes.len() - 1,
    ensures
        primitives(c).len() == c.notes.len() - 1,
        is_turn(primitives(c)[k], gap, k + 1, (k + 1) % 2 == turn),
{
    let n = c.notes.len();
    let i = k + 1;
    lemma_told(c, free, gap, turn, n);
    lemma_row(c, free, gap, turn, 0);
    crate::course::lemma_hits(c.notes[0]);
    lemma_row(c, free, gap, turn, i);
    lemma_row(c, free, gap, turn, k);
    let p = primitives(c)[k];
    assert(p == primitive_at(c, i));
    law_rows_tell_strikes_and_repeats(c, k);
    assert(struck_last(c, k, i));
    assert(shown_last(c, k, i));
    assert(c.notes[i].time == c.notes[0].time + i * gap);
    assert(c.notes[k].time == c.notes[0].time + k * gap);
    assert(i * gap - k * gap == gap) by (nonlinear_arith)
        requires
            i == k + 1,
    ;
    let row = c.notes[i];
    if p.ln_heads.len() > 0 {
        let x = p.ln_heads[0];
        law_rows_tell_columns(c, k, 0);
        law_rows_tell_columns(c, k, x as int);
        assert(p.ln_heads.contains(x));
    }
    if p.ln_bodies.len() > 0 {
        let x = p.ln_bodies[0];
        law_rows_tell_columns(c, k, 0);
        law_rows_tell_columns(c, k, x as int);
        assert(p.ln_bodies.contains(x));
    }
    if p.ln_tails.len() > 0 {
        let x = p.ln_tails[0];
        law_rows_tell_columns(c, k, 0);
        law_rows_tell_columns(c, k, x as int);
        assert(p.ln_tails.contains(x));
    }
}

proof fn lemma_window(c: ChartView, free: int, gap: int, turn: int, k: int, i: int)
    requires
        alternates(c, free, gap, turn),
        0 <= k < c.notes.len() - 1,
        0 <= i < rows_from(c, k).len(),
    ensures
        primitives(c).len() == c.notes.len() - 1,
        rows_from(c, k).len() == (if k + 8 < c.notes.len() - 1 {
            8int
        } else {
            c.notes.len() - 1 - k
        }),
        is_turn(rows_from(c, k)[i], gap, k + 1 + i, (k + 1 + i) % 2 == turn),
{
    lemma_turn(c, free, gap, turn, k);
    lemma_turn(c, free, gap, turn, k + i);
    assert(rows_from(c, k)[i] == primitives(c)[k + i]);
}

/// The rows from a chord on show a hand stream and nothing else; those from a
/// single tap on show nothing.
proof fn lemma_shows(
    c: ChartView,
    free: int,
    gap: int,
    turn: int,
    k: int,
    core: ManiaPattern,
    kind: Option<Subtype>,
)
    requires
        alternates(c, free, gap, turn),
        0 <= k < c.notes.len() - 1,
    ensures
        shows(rows_from(c, k), 4, core, kind) <==> (k + 1) % 2 == turn && k + 4 < c.notes.len()
            && core == ManiaPattern::Chordstream && kind == Some(Subtype::Handstream),
{
    let w = rows_from(c, k);
    lemma_turn(c, free, gap, turn, k);
    lemma_window(c, free, gap, turn, k, 0);
    if w.len() > 1 {
        lemma_window(c, free, gap, turn, k, 1);
    }
    if w.len() >= 4 {
        lemma_window(c, free, gap, turn, k, 2);
        lemma_window(c, free, gap, turn, k, 3);
        assert(fresh(w, 0, 4));
        assert(any_chord(w, 1, 4)) by {
            if (k + 1) % 2 == turn {
                assert(w[2].notes >= 2);
            } else {
                assert(w[1].notes >= 2);
            }
        }
    }
    law_streams(w);
    law_chordstreams(w);
    law_chordstreams_on_four_keys(w);
    law_jacks(w);
    let table = kinds_of(ManiaPattern::Chordstream, 4);
    assert(table[0] == Subtype::Handstream);
    assert(table.contains(Subtype::Handstream));
    if w.len() >= 5 {
        assert(sized(w, 0, 5, 1, 1) ==> w[0].notes == 1 && w[1].notes == 1);
    }
    if core == ManiaPattern::Chordstream {
        if let Some(x) = kind {
            if table.contains(x) {
                let i = choose|i: int| 0 <= i < table.len() && table[i] == x;
                assert(i == 0 || i == 1 || i == 2 || i == 3);
                assert(sized(w, 0, 4, 2, 2) ==> w[0].notes == 2 || w.len() < 4);
                assert(sized(w, 0, 3, 2, 2) ==> w[0].notes == 2 || w.len() < 3);
            }
        }
    }
}

proof fn lemma_alike(c: ChartView, free: int, gap: int, turn: int, at: int)
    requires
        alternates(c, free, gap, turn),
        0 < gap <= 587,
        c.notes.len() > 1,
        0 <= at < found_in(c).len(),
    ensures
        ({
            let p = found_in(c)[at];
            &&& p.pattern == ManiaPattern::Chordstream
            &&& p.specific_type == Some(Subtype::Handstream)
            &&& !p.mixed
            &&& p.ms_per_beat == 240 * gap
            &&& 0 <= p.start < p.end
            &&& p.start <= crate::finder::SPAN_LIMIT
        }),
{
    let p = found_in(c)[at];
    law_found_patterns_are_shown(c, at);
    let k = choose|k: int|
        0 <= k < primitives(c).len() && shows(
            #[trigger] rows_from(c, k),
            c.keys as int,
            p.pattern,
            p.specific_type,
        ) && is_stretch_of(p, rows_from(c, k), c.duration(), p.pattern, p.specific_type);
    lemma_turn(c, free, gap, turn, 0);
    lemma_shows(c, free, gap, turn, k, p.pattern, p.specific_type);
    let w = rows_from(c, k);
    lemma_window(c, free, gap, turn, k, 0);
    lemma_window(c, free, gap, turn, k, 1);
    lemma_window(c, free, gap, turn, k, 2);
    lemma_window(c, free, gap, turn, k, 3);
    law_chordstreams(w);
    law_chordstreams_on_four_keys(w);
    assert(crate::kinds::rows_taken(w, p.pattern, p.specific_type) == 4);
    assert(beats(w, 4) == 16 * gap) by {
        reveal_with_fuel(sum_of, 5);
    }
    let m = crate::kinds::rows_taken(w, p.pattern, p.specific_type);
    assert(!p.mixed) by {
        if p.mixed {
            let i = choose|i: int|
                0 <= i < m && (m * (#[trigger] w[i]).ms_per_beat - beats(w, m) >= 5 * m || beats(
                    w,
                    m,
                ) - m * w[i].ms_per_beat >= 5 * m);
            assert(i == 0 || i == 1 || i == 2 || i == 3);
            let b = w[i].ms_per_beat;
            assert(m * b == 4 * b) by (nonlinear_arith)
                requires
                    m == 4,
            ;
        }
    }
    let b = p.ms_per_beat as int;
    assert(b * m == 4 * b && (b + 1) * m == 4 * b + 4) by (nonlinear_arith)
        requires
            m == 4,
    ;
    assert(p.ms_per_beat == 240 * gap);
    let n = c.notes.len();
    assert(c.notes[n - 1].time == c.notes[0].time + (n - 1) * gap);
    assert(c.notes[k + 1].time == c.notes[0].time + (k + 1) * gap);
    assert(-crate::chart::TIME_LIMIT <= c.notes[0].time <= crate::chart::TIME_LIMIT);
    assert(-crate::chart::TIME_LIMIT <= c.notes[k + 1].time <= crate::chart::TIME_LIMIT);
    assert((k + 1) * gap < (k + 5) * gap) by (nonlinear_arith)
        requires
            gap > 0,
    ;
    assert((k + 1) * gap >= 0) by (nonlinear_arith)
        requires
            gap > 0,
            k >= 0,
    ;
    assert(p.start == (k + 1) * gap);
    if w.len() > 4 {
        lemma_window(c, free, gap, turn, k, 4);
        assert(p.end == (k + 1 + 4) * gap);
    } else {
        assert(p.end == (n - 1) * gap);
        assert((k + 1) * gap < (n - 1) * gap) by (nonlinear_arith)
            requires
                gap > 0,
                k + 1 < n - 1,
        ;
    }
}

proof fn lemma_few_kinds(core: ManiaPattern, kinds: Seq<Subtype>, k: nat, w: Seq<PrimitiveView>, last: int)
    ensures
        kind_stretches(core, kinds, k, w, last).len() <= k,
    decreases k,
{
    if k > 0 {
        lemma_few_kinds(core, kinds, (k - 1) as nat, w, last);
    }
}

proof fn lemma_few_in_window(keys: int, w: Seq<PrimitiveView>, last: int, n: nat)
    ensures
        window_stretches(keys, w, last, n).len() <= 5 * n,
    decreases n,
{
    if n > 0 {
        lemma_few_in_window(keys, w, last, (n - 1) as nat);
        let core = ManiaPattern::at(n - 1);
        let kinds = kinds_of(core, keys);
        assert(kinds.len() <= 5);
        lemma_few_kinds(core, kinds, kinds.len(), w, last);
    }
}

/// No more than thirty stretches are found from each row on.
pub(crate) proof fn lemma_few_found(keys: int, all: Seq<PrimitiveView>, last: int, n: nat)
    ensures
        stretches(keys, all, last, n).len() <= 30 * n,
    decreases n,
{
    if n > 0 {
        lemma_few_found(keys, all, last, (n - 1) as nat);
        lemma_few_in_window(keys, window_at(all, n - 1), last, 6);
    }
}

proof fn lemma_no_kind(c: ChartView, free: int, gap: int, turn: int, kind: NoteType, i: int, n: nat)
    requires
        alternates(c, free, gap, turn),
        0 <= i < c.notes.len(),
        n <= 4,
    ensures
        count_kind(c.notes[i].data, kind, n) <= n,
        kind == NoteType::HoldHead ==> count_kind(c.notes[i].data, kind, n) == 0,
    decreases n,
{
    if n > 0 {
        lemma_no_kind(c, free, gap, turn, kind, i, (n - 1) as nat);
        assert(c.notes[i].data[n - 1] != NoteType::HoldHead);
    }
}

proof fn lemma_taps_only(c: ChartView, free: int, gap: int, turn: int, kind: NoteType, n: nat)
    requires
        alternates(c, free, gap, turn),
        n <= c.notes.len(),
    ensures
        kind_total(c.notes, kind, n) <= 4 * n,
        kind == NoteType::HoldHead ==> kind_total(c.notes, kind, n) == 0,
    decreases n,
{
    if n > 0 {
        lemma_taps_only(c, free, gap, turn, kind, (n - 1) as nat);
        lemma_row(c, free, gap, turn, n - 1);
        lemma_no_kind(c, free, gap, turn, kind, n - 1, 4);
    }
}

proof fn lemma_all_counted(ps: Seq<FoundPattern>, mode: ManiaModeFamily, n: nat)
    requires
        n <= ps.len(),
        forall|i: int| 0 <= i < ps.len() ==> (#[trigger] ps[i]).pattern == ManiaPattern::Chordstream,
    ensures
        counted(ps, mode, n) == ps.take(n as int),
    decreases n,
{
    if n > 0 {
        lemma_all_counted(ps, mode, (n - 1) as nat);
        assert(ps[n - 1].pattern == ManiaPattern::Chordstream);
        assert(counts_in(mode, ps[n - 1].pattern));
        assert(ps.take(n - 1).push(ps[n - 1]) =~= ps.take(n as int));
    } else {
        assert(ps.take(0) =~= Seq::empty());
    }
}

/// A chart on four keys that takes turns between chords of three and single taps
/// on the remaining column, evenly and not too slowly, is a hand stream: all of
/// its stretches are, and so it is called.
pub proof fn law_chords_of_three_and_taps_are_a_handstream(
    c: ChartView,
    free: int,
    gap: int,
    turn: int,
)
    requires
        alternates(c, free, gap, turn),
        0 < gap <= 587,
        6 <= c.notes.len() <= u64::MAX,
    ensures
        report_of(c) matches Ok(report) && {
            &&& report.category == "Handstream"@
            &&& report.patterns.len() > 0
            &&& forall|i: int|
                0 <= i < report.patterns.len() ==> (#[trigger] report.patterns[i]).pattern
                    == ManiaPattern::Chordstream && report.patterns[i].specific_type == Some(
                    Subtype::Handstream,
                )
            &&& report.mode == ManiaModeFamily::Rc
        },
{
    let n = c.notes.len();
    let found = found_in(c);
    lemma_turn(c, free, gap, turn, 0);
    let first = if turn == 1 {
        0int
    } else {
        1int
    };
    lemma_shows(
        c,
        free,
        gap,
        turn,
        first,
        ManiaPattern::Chordstream,
        Some(Subtype::Handstream),
    );
    law_shown_patterns_are_found(
        c,
        first,
        ManiaPattern::Chordstream,
        Some(Subtype::Handstream),
    );
    lemma_few_found(4, primitives(c), c.duration(), primitives(c).len());
    assert forall|at: int| 0 <= at < found.len() implies {
        let p = #[trigger] found[at];
        &&& p.pattern == ManiaPattern::Chordstream
        &&& p.specific_type == Some(Subtype::Handstream)
        &&& !p.mixed
        &&& p.ms_per_beat == 240 * gap
        &&& 0 <= p.start < p.end
        &&& p.start <= crate::finder::SPAN_LIMIT
    } by {
        lemma_alike(c, free, gap, turn, at);
    }
    lemma_taps_only(c, free, gap, turn, NoteType::HoldHead, n);
    lemma_taps_only(c, free, gap, turn, NoteType::Normal, n);
    assert(mode_of(c) == ManiaModeFamily::Rc);
    lemma_all_counted(found, ManiaModeFamily::Rc, found.len());
    assert(found.take(found.len() as int) =~= found);
    assert(stretches_of(c) == found);
    law_one_kind_names_the_chart(
        c,
        ManiaPattern::Chordstream,
        Subtype::Handstream,
        240 * gap,
    );
}

} // verus!
