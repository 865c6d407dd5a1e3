//! The kinds of pattern that windows of rows show, one after the other, and the
//! stretches of a chart that are found by them.

use crate::chart::ChartView;
use crate::finder::{
    core_rows, core_stretches, found_in, kind_rows, kind_stretches, kinds_of, stretches, window_at,
    window_stretches, FoundPattern, Subtype,
};
use crate::primitives::{primitives, Direction, PrimitiveView};
use crate::types::ManiaPattern;
use vstd::prelude::*;

verus! {

/// Whether `rows` says that a pattern is shown over `n` rows just where it is.
pub open spec fn tells(rows: nat, shown: bool, n: nat) -> bool {
    rows == (if shown {
        n
    } else {
        0
    })
}

/// Whether there are rows up to `n`, and those from `a` on repeat no column.
pub open spec fn fresh(w: Seq<PrimitiveView>, a: int, n: int) -> bool {
    w.len() >= n && forall|i: int| a <= i < n ==> (#[trigger] w[i]).jacks == 0
}

/// Whether the rows from `a` to before `n` all strike at least `least` and at
/// most `most` columns.
pub open spec fn sized(w: Seq<PrimitiveView>, a: int, n: int, least: int, most: int) -> bool {
    forall|i: int| a <= i < n ==> least <= (#[trigger] w[i]).notes <= most
}

/// Whether any row from `a` to before `n` strikes two columns or more.
pub open spec fn any_chord(w: Seq<PrimitiveView>, a: int, n: int) -> bool {
    exists|i: int| a <= i < n && (#[trigger] w[i]).notes >= 2
}

/// Five single notes without repeats make a stream, unless the fifth is where
/// the first was. On four keys, three single notes that go on to one side make
/// a roll; two rows that take turns make a trill, and a short one where they
/// take turns only once.
pub proof fn law_streams(w: Seq<PrimitiveView>)
    ensures
        tells(
            core_rows(ManiaPattern::Stream, w),
            fresh(w, 0, 5) && sized(w, 0, 5, 1, 1) && w[0].raw_notes[0] != w[4].raw_notes[0],
            5,
        ),
        tells(
            kind_rows(Subtype::Rolls, w),
            w.len() >= 3 && sized(w, 0, 3, 1, 1) && ((forall|i: int|
                0 <= i < 3 ==> (#[trigger] w[i]).direction == Direction::Left) || (forall|i: int|
                0 <= i < 3 ==> (#[trigger] w[i]).direction == Direction::Right)),
            3,
        ),
        tells(
            kind_rows(Subtype::Trills, w),
            fresh(w, 1, 4) && w[2].raw_notes == w[0].raw_notes && w[3].raw_notes == w[1].raw_notes,
            4,
        ),
        tells(
            kind_rows(Subtype::Minitrills, w),
            w.len() >= 4 && fresh(w, 1, 3) && w[2].raw_notes == w[0].raw_notes && w[3].raw_notes
                != w[1].raw_notes,
            4,
        ),
        kinds_of(ManiaPattern::Stream, 4) == seq![
            Subtype::Rolls,
            Subtype::Trills,
            Subtype::Minitrills,
        ],
        forall|keys: int| keys != 4 ==> (#[trigger] kinds_of(ManiaPattern::Stream, keys)).len() == 0,
{
    if w.len() >= 5 {
        assert(sized(w, 0, 5, 1, 1) ==> w[0].notes == 1 && w[1].notes == 1 && w[2].notes == 1
            && w[3].notes == 1 && w[4].notes == 1);
    }
    if w.len() >= 3 {
        assert(sized(w, 0, 3, 1, 1) ==> w[0].notes == 1 && w[1].notes == 1 && w[2].notes == 1);
    }
    if w.len() >= 4 {
        assert(fresh(w, 1, 4) ==> w[1].jacks == 0 && w[2].jacks == 0 && w[3].jacks == 0);
        assert(fresh(w, 1, 3) ==> w[1].jacks == 0 && w[2].jacks == 0);
    }
}

/// A chord and another within three rows, all four without repeats, make a
/// chord stream.
pub proof fn law_chordstreams(w: Seq<PrimitiveView>)
    ensures
        tells(
            core_rows(ManiaPattern::Chordstream, w),
            fresh(w, 0, 4) && w[0].notes >= 2 && any_chord(w, 1, 4),
            4,
        ),
{
    if w.len() >= 4 {
        assert(any_chord(w, 1, 4) <==> w[1].notes >= 2 || w[2].notes >= 2 || w[3].notes >= 2);
    }
}

/// On four keys, four rows without repeats that begin with a chord of three are
/// a hand stream; those that begin with a chord of two and a single note, and
/// have no chord of three, are a jump stream. Chords of two take turns as a
/// jump trill where each rolls to the side of the one before it, and as a split
/// trill where none does and none repeats.
pub proof fn law_chordstreams_on_four_keys(w: Seq<PrimitiveView>)
    ensures
        tells(kind_rows(Subtype::Handstream, w), fresh(w, 0, 4) && w[0].notes == 3, 4),
        tells(
            kind_rows(Subtype::Jumpstream, w),
            fresh(w, 0, 4) && w[0].notes == 2 && w[1].notes == 1 && w[2].notes <= 2 && w[3].notes
                <= 2,
            4,
        ),
        tells(
            kind_rows(Subtype::Jumptrill, w),
            w.len() >= 4 && sized(w, 0, 4, 2, 2) && forall|i: int|
                1 <= i < 4 ==> (#[trigger] w[i]).roll,
            4,
        ),
        tells(
            kind_rows(Subtype::SplitTrill, w),
            fresh(w, 1, 3) && sized(w, 0, 3, 2, 2) && forall|i: int|
                1 <= i < 3 ==> !(#[trigger] w[i]).roll,
            3,
        ),
        kinds_of(ManiaPattern::Chordstream, 4) == seq![
            Subtype::Handstream,
            Subtype::SplitTrill,
            Subtype::Jumptrill,
            Subtype::Jumpstream,
        ],
{
    if w.len() >= 4 {
        assert(sized(w, 0, 4, 2, 2) <==> w[0].notes == 2 && w[1].notes == 2 && w[2].notes == 2
            && w[3].notes == 2);
        assert((forall|i: int| 1 <= i < 4 ==> (#[trigger] w[i]).roll) <==> w[1].roll && w[2].roll
            && w[3].roll);
    }
    if w.len() >= 3 {
        assert(sized(w, 0, 3, 2, 2) <==> w[0].notes == 2 && w[1].notes == 2 && w[2].notes == 2);
        assert((forall|i: int| 1 <= i < 3 ==> !(#[trigger] w[i]).roll) <==> !w[1].roll
            && !w[2].roll);
        assert(fresh(w, 1, 3) <==> w[1].jacks == 0 && w[2].jacks == 0);
    }
}

/// Two chords of two between single notes, or three, without repeats, are
/// longer jump streams.
pub proof fn law_longer_jumpstreams(w: Seq<PrimitiveView>)
    ensures
        tells(
            crate::patterns::double_jumpstream_rows(w),
            fresh(w, 0, 4) && w[0].notes == 1 && sized(w, 1, 3, 2, 2) && w[3].notes == 1,
            4,
        ),
        tells(
            crate::patterns::triple_jumpstream_rows(w),
            fresh(w, 0, 5) && w[0].notes == 1 && sized(w, 1, 4, 2, 2) && w[4].notes == 1,
            4,
        ),
{
    if w.len() >= 4 {
        assert(sized(w, 1, 3, 2, 2) <==> w[1].notes == 2 && w[2].notes == 2);
        assert(sized(w, 1, 4, 2, 2) <==> w[1].notes == 2 && w[2].notes == 2 && w[3].notes == 2);
    }
}

/// On other keys, two chords without a repeat are a dense chord stream, a chord
/// and a single note a light one, two chords of two that do not roll a double
/// stream. Three chords that roll to one side are a chord roll; three of three
/// notes or more that neither repeat nor roll, more than nine notes in all, are
/// brackets on seven keys.
pub proof fn law_chordstreams_on_other_keys(w: Seq<PrimitiveView>)
    ensures
        tells(
            kind_rows(Subtype::DenseChordstream, w),
            fresh(w, 1, 2) && w[0].notes >= 2 && w[1].notes >= 2,
            2,
        ),
        tells(
            kind_rows(Subtype::LightChordstream, w),
            fresh(w, 1, 2) && w[0].notes >= 2 && w[1].notes == 1,
            2,
        ),
        tells(
            kind_rows(Subtype::DoubleStream, w),
            fresh(w, 1, 2) && sized(w, 0, 2, 2, 2) && !w[1].roll,
            2,
        ),
        tells(
            kind_rows(Subtype::ChordRolls, w),
            w.len() >= 3 && w[0].notes >= 2 && w[1].notes >= 2 && w[2].notes >= 2 && w[1].roll
                && w[2].roll && w[1].direction == w[2].direction && (w[2].direction
                == Direction::Left || w[2].direction == Direction::Right),
            3,
        ),
        tells(
            kind_rows(Subtype::Brackets, w),
            fresh(w, 1, 3) && !w[1].roll && !w[2].roll && w[0].notes >= 3 && w[1].notes >= 3
                && w[2].notes >= 3 && w[0].notes + w[1].notes + w[2].notes >= 10,
            3,
        ),
        kinds_of(ManiaPattern::Chordstream, 7) == seq![
            Subtype::Brackets,
            Subtype::DoubleStream,
            Subtype::DenseChordstream,
            Subtype::LightChordstream,
        ],
        forall|keys: int|
            keys != 4 && keys != 7 ==> #[trigger] kinds_of(ManiaPattern::Chordstream, keys) == seq![
                Subtype::ChordRolls,
                Subtype::DoubleStream,
                Subtype::DenseChordstream,
                Subtype::LightChordstream,
            ],
{
    if w.len() >= 2 {
        assert(fresh(w, 1, 2) <==> w[1].jacks == 0);
        assert(sized(w, 0, 2, 2, 2) <==> w[0].notes == 2 && w[1].notes == 2);
    }
    if w.len() >= 3 {
        assert(fresh(w, 1, 3) <==> w[1].jacks == 0 && w[2].jacks == 0);
    }
}

/// A row that repeats two columns or more makes jacks, unless its beat lasts
/// two seconds or longer.
pub proof fn law_jacks(w: Seq<PrimitiveView>)
    ensures
        tells(
            core_rows(ManiaPattern::Jacks, w),
            w.len() > 0 && w[0].jacks >= 2 && w[0].ms_per_beat < 2000,
            1,
        ),
        tells(
            kind_rows(Subtype::Chordjacks, w),
            w.len() >= 2 && w[0].notes >= 3 && w[1].notes >= 2 && w[1].jacks >= 1 && (w[1].notes
                < w[0].notes || w[1].jacks < w[1].notes),
            2,
        ),
        tells(kind_rows(Subtype::Minijacks, w), w.len() >= 2 && w[0].jacks > 0 && w[1].jacks == 0, 2),
        tells(
            kind_rows(Subtype::Longjacks, w),
            w.len() >= 5 && (forall|i: int| 0 <= i < 5 ==> (#[trigger] w[i]).jacks > 0) && exists|
                column: usize,
            |
                #![trigger w[0].raw_notes.contains(column)]
                forall|i: int| 0 <= i < 5 ==> (#[trigger] w[i]).raw_notes.contains(column),
            5,
        ),
        tells(
            kind_rows(Subtype::Quadstream, w),
            w.len() >= 4 && w[0].notes == 4 && w[2].jacks == 0 && w[3].jacks == 0,
            4,
        ),
        tells(
            kind_rows(Subtype::Gluts, w),
            w.len() >= 3 && w[1].jacks == 1 && w[2].jacks == 1 && !exists|column: usize|
                #[trigger]
                w[0].raw_notes.contains(column) && w[1].raw_notes.contains(column)
                    && w[2].raw_notes.contains(column),
            3,
        ),
        kinds_of(ManiaPattern::Jacks, 4) == seq![
            Subtype::Longjacks,
            Subtype::Quadstream,
            Subtype::Gluts,
            Subtype::Chordjacks,
            Subtype::Minijacks,
        ],
        forall|keys: int|
            keys != 4 ==> #[trigger] kinds_of(ManiaPattern::Jacks, keys) == seq![
                Subtype::Longjacks,
                Subtype::Chordjacks,
                Subtype::Minijacks,
            ],
{
    if w.len() >= 5 {
        if exists|column: usize|
            #![trigger w[0].raw_notes.contains(column)]
            forall|i: int| 0 <= i < 5 ==> (#[trigger] w[i]).raw_notes.contains(column) {
            let column = choose|column: usize|
                #![trigger w[0].raw_notes.contains(column)]
                forall|i: int| 0 <= i < 5 ==> (#[trigger] w[i]).raw_notes.contains(column);
            assert(w[0].raw_notes.contains(column));
            let k = choose|k: int| 0 <= k < w[0].raw_notes.len() && w[0].raw_notes[k] == column;
            assert(crate::patterns::kept(w, w[0].raw_notes[k]));
        }
        if exists|k: int|
            0 <= k < w[0].raw_notes.len() && crate::patterns::kept(w, #[trigger] w[0].raw_notes[k]) {
            let k = choose|k: int|
                0 <= k < w[0].raw_notes.len() && crate::patterns::kept(
                    w,
                    #[trigger] w[0].raw_notes[k],
                );
            let column = w[0].raw_notes[k];
            assert(w[0].raw_notes.contains(column));
            assert forall|i: int| 0 <= i < 5 implies (#[trigger] w[i]).raw_notes.contains(column) by {
                if i > 0 {
                    assert(w[i].raw_notes.contains(column));
                }
            }
        }
    }
    if w.len() >= 3 {
        if exists|column: usize| #[trigger]
            w[0].raw_notes.contains(column) && w[1].raw_notes.contains(column)
                && w[2].raw_notes.contains(column) {
            let column = choose|column: usize| #[trigger]
                w[0].raw_notes.contains(column) && w[1].raw_notes.contains(column)
                    && w[2].raw_notes.contains(column);
            let k = choose|k: int| 0 <= k < w[0].raw_notes.len() && w[0].raw_notes[k] == column;
            assert(w[1].raw_notes.contains(w[0].raw_notes[k]));
        }
        if crate::patterns::runs_through(w) {
            let k = choose|k: int|
                0 <= k < w[0].raw_notes.len() && w[1].raw_notes.contains(#[trigger] w[0].raw_notes[k])
                    && w[2].raw_notes.contains(w[0].raw_notes[k]);
            assert(w[0].raw_notes.contains(w[0].raw_notes[k]));
        }
    }
}

/// The rows that a chart tells from place `k` on, eight at most.
pub open spec fn rows_from(c: ChartView, k: int) -> Seq<PrimitiveView> {
    let all = primitives(c);
    all.subrange(
        k,
        if k + 8 < all.len() {
            k + 8
        } else {
            all.len() as int
        },
    )
}

/// Whether a window shows a core pattern as a kind that charts with so many keys
/// can show, or without a kind where it shows none of them.
pub open spec fn shows(
    w: Seq<PrimitiveView>,
    keys: int,
    core: ManiaPattern,
    kind: Option<Subtype>,
) -> bool {
    &&& core_rows(core, w) > 0
    &&& match kind {
        Some(kind) => kinds_of(core, keys).contains(kind) && kind_rows(kind, w) > 0,
        None => forall|other: Subtype| #[trigger]
            kinds_of(core, keys).contains(other) ==> kind_rows(other, w) == 0,
    }
}

/// How many rows a pattern takes: those of the core pattern, or those of the
/// kind where they are more.
pub open spec fn rows_taken(w: Seq<PrimitiveView>, core: ManiaPattern, kind: Option<Subtype>) -> nat {
    match kind {
        Some(kind) if kind_rows(kind, w) > core_rows(core, w) => kind_rows(kind, w),
        _ => core_rows(core, w),
    }
}

/// The beats of the first `m` rows, added up.
pub open spec fn beats(w: Seq<PrimitiveView>, m: nat) -> int {
    crate::counting::sum_of(m, |i: int| w[i].ms_per_beat)
}

/// Whether a stretch is the one that a window shows: it reaches from the first
/// row to the row behind those that it takes, or to the end of the chart. It is
/// mixed where a beat lies five milliseconds or more off their mean, and its
/// beat is the mean in sixtieths of a millisecond, rounded down. Jacks reach
/// half a beat at least; an inverse has no beat.
pub open spec fn is_stretch_of(
    s: FoundPattern,
    w: Seq<PrimitiveView>,
    end: int,
    core: ManiaPattern,
    kind: Option<Subtype>,
) -> bool {
    let n = rows_taken(w, core, kind);
    let m = if n < w.len() {
        n
    } else {
        w.len()
    };
    let next = if n < w.len() {
        w[n as int].time
    } else {
        end
    };
    let half = w[0].time + w[0].ms_per_beat / 2;
    &&& s.pattern == core
    &&& s.specific_type == kind
    &&& s.start == w[0].time
    &&& s.end == (if core == ManiaPattern::Jacks && half > next {
        half
    } else {
        next
    })
    &&& s.mixed <==> exists|i: int|
        0 <= i < m && (m * (#[trigger] w[i]).ms_per_beat - beats(w, m) >= 5 * m || beats(w, m) - m
            * w[i].ms_per_beat >= 5 * m)
    &&& kind == Some(Subtype::Inverse) ==> s.ms_per_beat == 0
    &&& kind != Some(Subtype::Inverse) ==> s.ms_per_beat * m <= 60 * beats(w, m) < (s.ms_per_beat
        + 1) * m
}

proof fn lemma_beats(w: Seq<PrimitiveView>, n: nat)
    requires
        n <= w.len(),
        crate::finder::in_bounds(w),
    ensures
        crate::finder::beat_sum(w, n) == beats(w, n),
        0 <= beats(w, n) <= n * 80_000_000_000_000_000,
    decreases n,
{
    if n > 0 {
        lemma_beats(w, (n - 1) as nat);
    }
}

proof fn lemma_stretch(
    core: ManiaPattern,
    kind: Option<Subtype>,
    n: nat,
    w: Seq<PrimitiveView>,
    last: int,
)
    requires
        crate::finder::in_bounds(w),
        w.len() > 0,
        1 <= n <= 5,
        n == rows_taken(w, core, kind),
        0 <= last <= crate::finder::SPAN_LIMIT,
        kind == Some(Subtype::Inverse) ==> core == ManiaPattern::Density,
    ensures
        is_stretch_of(crate::finder::stretch(core, kind, n, w, last), w, last, core, kind),
{
    let s = crate::finder::stretch(core, kind, n, w, last);
    let m = crate::finder::fewer(n, w.len());
    lemma_beats(w, m);
    let sum = beats(w, m);
    assert(0 <= w[0].time && 0 <= w[0].ms_per_beat);
    if n < w.len() {
        assert(0 <= w[n as int].time <= crate::finder::SPAN_LIMIT);
    }
    let q = sum * 60 / m as int;
    assert(0 <= q <= 4_800_000_000_000_000_000 && q * m <= 60 * sum < (q + 1) * m)
        by (nonlinear_arith)
        requires
            q == sum * 60 / m as int,
            0 <= sum <= m * 80_000_000_000_000_000,
            m >= 1,
    ;
}

proof fn lemma_kind_found(
    core: ManiaPattern,
    kinds: Seq<Subtype>,
    k: nat,
    w: Seq<PrimitiveView>,
    last: int,
    kind: Subtype,
) -> (at: int)
    requires
        k <= kinds.len(),
        kinds.take(k as int).contains(kind),
        kind_rows(kind, w) > 0,
    ensures
        ({
            let found = kind_stretches(core, kinds, k, w, last);
            let n = crate::finder::more(core_rows(core, w), kind_rows(kind, w));
            0 <= at < found.len() && found[at] == crate::finder::stretch(core, Some(kind), n, w, last)
        }),
    decreases k,
{
    let before = kind_stretches(core, kinds, (k - 1) as nat, w, last);
    let i = choose|i: int| 0 <= i < k && kinds.take(k as int)[i] == kind;
    if i < k - 1 {
        assert(kinds.take(k - 1)[i] == kind);
        let at = lemma_kind_found(core, kinds, (k - 1) as nat, w, last, kind);
        assert(kind_stretches(core, kinds, k, w, last)[at] == before[at]);
        at
    } else {
        before.len() as int
    }
}

proof fn lemma_kind_source(
    core: ManiaPattern,
    kinds: Seq<Subtype>,
    k: nat,
    w: Seq<PrimitiveView>,
    last: int,
    at: int,
)
    requires
        k <= kinds.len(),
        0 <= at < kind_stretches(core, kinds, k, w, last).len(),
    ensures
        ({
            let s = kind_stretches(core, kinds, k, w, last)[at];
            s.specific_type matches Some(kind) && kinds.contains(kind) && kind_rows(kind, w) > 0 && s
                == crate::finder::stretch(
                core,
                Some(kind),
                crate::finder::more(core_rows(core, w), kind_rows(kind, w)),
                w,
                last,
            )
        }),
    decreases k,
{
    let before = kind_stretches(core, kinds, (k - 1) as nat, w, last);
    if at < before.len() {
        lemma_kind_source(core, kinds, (k - 1) as nat, w, last, at);
        assert(kind_stretches(core, kinds, k, w, last)[at] == before[at]);
    } else {
        assert(kinds.contains(kinds[k - 1]));
    }
}

proof fn lemma_no_kinds(
    core: ManiaPattern,
    kinds: Seq<Subtype>,
    k: nat,
    w: Seq<PrimitiveView>,
    last: int,
)
    requires
        k <= kinds.len(),
    ensures
        kind_stretches(core, kinds, k, w, last).len() == 0 <==> forall|i: int|
            0 <= i < k ==> kind_rows(#[trigger] kinds[i], w) == 0,
    decreases k,
{
    if k > 0 {
        lemma_no_kinds(core, kinds, (k - 1) as nat, w, last);
        if kind_stretches(core, kinds, k, w, last).len() == 0 {
            assert forall|i: int| 0 <= i < k implies kind_rows(#[trigger] kinds[i], w) == 0 by {
                if i < k - 1 {
                    assert(kind_stretches(core, kinds, (k - 1) as nat, w, last).len() == 0);
                }
            }
        } else if kind_rows(kinds[k - 1], w) == 0 {
            let i = choose|i: int| 0 <= i < k - 1 && kind_rows(#[trigger] kinds[i], w) != 0;
            assert(kind_rows(kinds[i], w) != 0);
        }
    }
}

proof fn lemma_few(w: Seq<PrimitiveView>, core: ManiaPattern, kind: Subtype)
    ensures
        core_rows(core, w) <= 5,
        kind_rows(kind, w) <= 5,
        core_rows(core, w) > 0 ==> w.len() > 0,
{
}

/// A core pattern and kind that a window shows is among its stretches.
proof fn lemma_core_found(
    core: ManiaPattern,
    keys: int,
    w: Seq<PrimitiveView>,
    last: int,
    kind: Option<Subtype>,
) -> (at: int)
    requires
        shows(w, keys, core, kind),
        crate::finder::in_bounds(w),
        0 <= last <= crate::finder::SPAN_LIMIT,
    ensures
        0 <= at < core_stretches(core, keys, w, last).len(),
        is_stretch_of(core_stretches(core, keys, w, last)[at], w, last, core, kind),
{
    let kinds = kinds_of(core, keys);
    match kind {
        Some(k) => {
            lemma_few(w, core, k);
            assert(kinds.take(kinds.len() as int) =~= kinds);
            let at = lemma_kind_found(core, kinds, kinds.len(), w, last, k);
            assert(k == Subtype::Inverse ==> core == ManiaPattern::Density) by {
                let i = choose|i: int| 0 <= i < kinds.len() && kinds[i] == k;
                assert(kinds.len() <= 5);
            }
            lemma_stretch(core, kind, rows_taken(w, core, kind), w, last);
            at
        },
        None => {
            lemma_few(w, core, Subtype::Rolls);
            lemma_no_kinds(core, kinds, kinds.len(), w, last);
            assert forall|i: int| 0 <= i < kinds.len() implies kind_rows(#[trigger] kinds[i], w)
                == 0 by {
                assert(kinds.contains(kinds[i]));
            }
            lemma_stretch(core, kind, core_rows(core, w), w, last);
            0
        },
    }
}

proof fn lemma_core_source(core: ManiaPattern, keys: int, w: Seq<PrimitiveView>, last: int, at: int)
    requires
        crate::finder::in_bounds(w),
        0 <= last <= crate::finder::SPAN_LIMIT,
        0 <= at < core_stretches(core, keys, w, last).len(),
    ensures
        ({
            let s = core_stretches(core, keys, w, last)[at];
            shows(w, keys, core, s.specific_type) && is_stretch_of(s, w, last, core, s.specific_type)
        }),
{
    let kinds = kinds_of(core, keys);
    let found = kind_stretches(core, kinds, kinds.len(), w, last);
    let s = core_stretches(core, keys, w, last)[at];
    if found.len() > 0 {
        lemma_kind_source(core, kinds, kinds.len(), w, last, at);
        let k = s.specific_type->0;
        lemma_few(w, core, k);
        assert(k == Subtype::Inverse ==> core == ManiaPattern::Density) by {
            let i = choose|i: int| 0 <= i < kinds.len() && kinds[i] == k;
            assert(kinds.len() <= 5);
        }
        lemma_stretch(core, Some(k), rows_taken(w, core, Some(k)), w, last);
    } else {
        lemma_few(w, core, Subtype::Rolls);
        lemma_no_kinds(core, kinds, kinds.len(), w, last);
        assert forall|other: Subtype| #[trigger] kinds.contains(other) implies kind_rows(other, w)
            == 0 by {
            let i = choose|i: int| 0 <= i < kinds.len() && kinds[i] == other;
            assert(kind_rows(kinds[i], w) == 0);
        }
        lemma_stretch(core, None, core_rows(core, w), w, last);
    }
}

proof fn lemma_window_found(
    keys: int,
    w: Seq<PrimitiveView>,
    last: int,
    n: nat,
    core: ManiaPattern,
    kind: Option<Subtype>,
) -> (at: int)
    requires
        shows(w, keys, core, kind),
        crate::finder::in_bounds(w),
        0 <= last <= crate::finder::SPAN_LIMIT,
        core.rank() < n <= 6,
    ensures
        0 <= at < window_stretches(keys, w, last, n).len(),
        is_stretch_of(window_stretches(keys, w, last, n)[at], w, last, core, kind),
    decreases n,
{
    let before = window_stretches(keys, w, last, (n - 1) as nat);
    let own = core_stretches(ManiaPattern::at(n - 1), keys, w, last);
    let all = window_stretches(keys, w, last, n);
    if core.rank() < n - 1 {
        let at = lemma_window_found(keys, w, last, (n - 1) as nat, core, kind);
        assert(all[at] == before[at]);
        at
    } else {
        assert(ManiaPattern::at(n - 1) == core);
        let at = lemma_core_found(core, keys, w, last, kind);
        assert(all[before.len() + at] == own[at]);
        before.len() + at
    }
}

proof fn lemma_window_source(keys: int, w: Seq<PrimitiveView>, last: int, n: nat, at: int)
    requires
        crate::finder::in_bounds(w),
        0 <= last <= crate::finder::SPAN_LIMIT,
        n <= 6,
        0 <= at < window_stretches(keys, w, last, n).len(),
    ensures
        ({
            let s = window_stretches(keys, w, last, n)[at];
            shows(w, keys, s.pattern, s.specific_type) && is_stretch_of(
                s,
                w,
                last,
                s.pattern,
                s.specific_type,
            )
        }),
    decreases n,
{
    let before = window_stretches(keys, w, last, (n - 1) as nat);
    let own = core_stretches(ManiaPattern::at(n - 1), keys, w, last);
    let all = window_stretches(keys, w, last, n);
    if at < before.len() {
        lemma_window_source(keys, w, last, (n - 1) as nat, at);
        assert(all[at] == before[at]);
    } else {
        lemma_core_source(ManiaPattern::at(n - 1), keys, w, last, at - before.len());
        assert(all[at] == own[at - before.len()]);
    }
}

proof fn lemma_in_bounds(c: ChartView, k: int)
    requires
        c.valid(),
        0 <= k < primitives(c).len(),
    ensures
        crate::finder::in_bounds(rows_from(c, k)),
        rows_from(c, k) == window_at(primitives(c), k),
        0 <= c.duration() <= crate::finder::SPAN_LIMIT,
{
    crate::finder::lemma_primitives_in_bounds(c, c.notes.len());
    let all = primitives(c);
    let w = rows_from(c, k);
    assert forall|i: int| 0 <= i < w.len() implies #[trigger] w[i] == all[k + i] by {}
    let n = c.notes.len() - 1;
    assert(-crate::chart::TIME_LIMIT <= c.notes[0].time <= crate::chart::TIME_LIMIT);
    assert(-crate::chart::TIME_LIMIT <= c.notes[n].time <= crate::chart::TIME_LIMIT);
    if n > 0 {
        assert(c.notes[0].time < c.notes[n].time);
    }
}

proof fn lemma_found(
    c: ChartView,
    n: nat,
    k: int,
    core: ManiaPattern,
    kind: Option<Subtype>,
) -> (at: int)
    requires
        c.valid(),
        0 <= k < n <= primitives(c).len(),
        shows(rows_from(c, k), c.keys as int, core, kind),
    ensures
        ({
            let found = stretches(c.keys as int, primitives(c), c.duration(), n);
            0 <= at < found.len() && is_stretch_of(
                found[at],
                rows_from(c, k),
                c.duration(),
                core,
                kind,
            )
        }),
    decreases n,
{
    let (keys, all, last) = (c.keys as int, primitives(c), c.duration());
    let before = stretches(keys, all, last, (n - 1) as nat);
    let now = stretches(keys, all, last, n);
    if k < n - 1 {
        let at = lemma_found(c, (n - 1) as nat, k, core, kind);
        assert(now[at] == before[at]);
        at
    } else {
        lemma_in_bounds(c, k);
        let w = window_at(all, k);
        let at = lemma_window_found(keys, w, last, 6, core, kind);
        assert(now[before.len() + at] == window_stretches(keys, w, last, 6)[at]);
        before.len() + at
    }
}

proof fn lemma_source(c: ChartView, n: nat, at: int) -> (k: int)
    requires
        c.valid(),
        n <= primitives(c).len(),
        0 <= at < stretches(c.keys as int, primitives(c), c.duration(), n).len(),
    ensures
        ({
            let s = stretches(c.keys as int, primitives(c), c.duration(), n)[at];
            0 <= k < n && shows(rows_from(c, k), c.keys as int, s.pattern, s.specific_type)
                && is_stretch_of(s, rows_from(c, k), c.duration(), s.pattern, s.specific_type)
        }),
    decreases n,
{
    let (keys, all, last) = (c.keys as int, primitives(c), c.duration());
    let before = stretches(keys, all, last, (n - 1) as nat);
    let now = stretches(keys, all, last, n);
    if at < before.len() {
        let k = lemma_source(c, (n - 1) as nat, at);
        assert(now[at] == before[at]);
        k
    } else {
        let w = window_at(all, n - 1);
        lemma_in_bounds(c, n - 1);
        lemma_window_source(keys, w, last, 6, at - before.len());
        assert(now[at] == window_stretches(keys, w, last, 6)[at - before.len()]);
        n - 1
    }
}

/// Every pattern and kind that the rows from some place on show is found, as the
/// stretch that they show.
pub proof fn law_shown_patterns_are_found(
    c: ChartView,
    k: int,
    core: ManiaPattern,
    kind: Option<Subtype>,
)
    requires
        c.valid(),
        0 <= k < primitives(c).len(),
        shows(rows_from(c, k), c.keys as int, core, kind),
    ensures
        exists|at: int|
            0 <= at < found_in(c).len() && is_stretch_of(
                #[trigger] found_in(c)[at],
                rows_from(c, k),
                c.duration(),
                core,
                kind,
            ),
{
    let at = lemma_found(c, primitives(c).len(), k, core, kind);
    assert(is_stretch_of(found_in(c)[at], rows_from(c, k), c.duration(), core, kind));
}

/// Every stretch that is found is shown by the rows from some place on.
pub proof fn law_found_patterns_are_shown(c: ChartView, at: int)
    requires
        c.valid(),
        0 <= at < found_in(c).len(),
    ensures
        ({
            let s = found_in(c)[at];
            exists|k: int|
                0 <= k < primitives(c).len() && shows(
                    #[trigger] rows_from(c, k),
                    c.keys as int,
                    s.pattern,
                    s.specific_type,
                ) && is_stretch_of(s, rows_from(c, k), c.duration(), s.pattern, s.specific_type)
        }),
{
    let k = lemma_source(c, primitives(c).len(), at);
    assert(shows(
        rows_from(c, k),
        c.keys as int,
        found_in(c)[at].pattern,
        found_in(c)[at].specific_type,
    ));
}

} // verus!
