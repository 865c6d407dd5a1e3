//! The course of a chart, told by its rows: what is struck in each window of
//! four seconds, and what the features of the chart measure of it.

use crate::chart::{ChartView, NoteType, RowView};
use crate::clustering::ClusterView;
use crate::counting::{how_many, lemma_count, lemma_counts_agree, lemma_rank, sum_of};
use crate::finder::FoundPattern;
use crate::order::sorted_order;
use crate::outline::is_share;
use crate::primitives::{columns_struck, struck};
use crate::profile::{
    density_key, density_keys, density_of, features_of, is_sustained, last_length, lemma_key_fits,
    lemma_span, lemma_window_notes, lemma_windows, longest_run, middle_window, note_total,
    peak_window, rows_with, run_before, silent_windows, span_of, window_count, window_notes,
    window_of,
};
use vstd::prelude::*;

verus! {

/// Whether a column of a row is struck: with a tap or the start of a hold.
pub open spec fn is_hit(row: RowView, column: int) -> bool {
    row.data[column] == NoteType::Normal || row.data[column] == NoteType::HoldHead
}

/// How many columns a row strikes.
pub open spec fn hits(row: RowView) -> nat {
    how_many(row.data.len(), |column: int| is_hit(row, column))
}

/// How long a chart lasts, in milliseconds: from its first row to its last, and
/// at least one.
pub open spec fn lasts(c: ChartView) -> int {
    if c.notes.last().time - c.notes[0].time > 1 {
        c.notes.last().time - c.notes[0].time
    } else {
        1
    }
}

/// Whether a chart has a window: it starts before the chart ends.
pub open spec fn is_window(c: ChartView, w: int) -> bool {
    0 <= w && 4000 * w < lasts(c)
}

/// Whether a row lies in a window. The window that the chart ends in, or with,
/// takes in the last row.
pub open spec fn lies_in(c: ChartView, i: int, w: int) -> bool {
    let t = c.notes[i].time - c.notes[0].time;
    4000 * w <= t && (t < 4000 * (w + 1) || !is_window(c, w + 1))
}

/// Whether nothing is struck in a window.
pub open spec fn is_silent(c: ChartView, w: int) -> bool {
    forall|i: int| 0 <= i < c.notes.len() && lies_in(c, i, w) ==> hits(#[trigger] c.notes[i]) == 0
}

/// How many notes are struck in a window.
pub open spec fn notes_in(c: ChartView, w: int) -> int {
    sum_of(
        c.notes.len(),
        |i: int|
            if lies_in(c, i, w) {
                hits(c.notes[i]) as int
            } else {
                0
            },
    )
}

/// How long a window counts for density, in milliseconds: the last one may be
/// shorter, but no shorter than a quarter of a second.
pub open spec fn counted_length(c: ChartView, w: int) -> int {
    if is_window(c, w + 1) {
        4000
    } else if lasts(c) - 4000 * w > 250 {
        lasts(c) - 4000 * w
    } else {
        250
    }
}

/// Whether a window is less dense than another.
pub open spec fn less_dense(c: ChartView, a: int, b: int) -> bool {
    notes_in(c, a) * counted_length(c, b) < notes_in(c, b) * counted_length(c, a)
}

/// Whether a window is at least seven tenths as dense as another.
pub open spec fn keeps_up(c: ChartView, a: int, b: int) -> bool {
    10 * (notes_in(c, a) * counted_length(c, b)) >= 7 * (notes_in(c, b) * counted_length(c, a))
}

/// Where a window ends: after four seconds, or with the chart.
pub open spec fn ends_at(c: ChartView, w: int) -> int {
    if 4000 * (w + 1) < lasts(c) {
        4000 * (w + 1)
    } else {
        lasts(c)
    }
}

proof fn lemma_columns(data: Seq<NoteType>, n: nat)
    requires
        n <= data.len(),
    ensures
        columns_struck(data, n).len() == how_many(
            n,
            |column: int| data[column] == NoteType::Normal || data[column] == NoteType::HoldHead,
        ),
    decreases n,
{
    if n > 0 {
        lemma_columns(data, (n - 1) as nat);
    }
}

pub(crate) proof fn lemma_hits(row: RowView)
    ensures
        struck(row).len() == hits(row),
{
    lemma_columns(row.data, row.data.len());
    lemma_counts_agree(
        row.data.len(),
        |column: int| row.data[column] == NoteType::Normal || row.data[column] == NoteType::HoldHead,
        |column: int| is_hit(row, column),
    );
}

/// Windows are numbered from zero up to their count.
proof fn lemma_is_window(c: ChartView, w: int)
    requires
        c.valid(),
    ensures
        lasts(c) == span_of(c),
        is_window(c, w) <==> 0 <= w < window_count(span_of(c)),
{
}

proof fn lemma_lies_in(c: ChartView, i: int, w: int)
    requires
        c.valid(),
        0 <= i < c.notes.len(),
        is_window(c, w),
    ensures
        lies_in(c, i, w) <==> window_of(c, i) == w,
{
    lemma_is_window(c, w);
    lemma_is_window(c, w + 1);
    if i > 0 {
        assert(c.notes[0].time < c.notes[i].time);
    }
    if i < c.notes.len() - 1 {
        assert(c.notes[i].time < c.notes[c.notes.len() - 1].time);
    }
}

proof fn lemma_notes_in(c: ChartView, w: int, n: nat)
    requires
        c.valid(),
        n <= c.notes.len(),
        is_window(c, w),
    ensures
        window_notes(c, w, n) == sum_of(
            n,
            |i: int|
                if lies_in(c, i, w) {
                    hits(c.notes[i]) as int
                } else {
                    0
                },
        ),
        window_notes(c, w, n) == 0 <==> forall|i: int|
            0 <= i < n && lies_in(c, i, w) ==> hits(#[trigger] c.notes[i]) == 0,
    decreases n,
{
    if n > 0 {
        let m = (n - 1) as nat;
        lemma_notes_in(c, w, m);
        lemma_lies_in(c, n - 1, w);
        lemma_hits(c.notes[n - 1]);
        if window_notes(c, w, n) == 0 {
            assert forall|i: int| 0 <= i < n && lies_in(c, i, w) implies hits(
                #[trigger] c.notes[i],
            ) == 0 by {
                if i < m {
                    assert(window_notes(c, w, m) == 0);
                }
            }
        } else if window_notes(c, w, m) > 0 {
            let i = choose|i: int|
                0 <= i < m && lies_in(c, i, w) && hits(#[trigger] c.notes[i]) != 0;
            assert(hits(c.notes[i]) != 0);
        } else {
            assert(hits(c.notes[n - 1]) != 0);
        }
    }
}

proof fn lemma_silent(c: ChartView, n: nat)
    requires
        c.valid(),
        n <= window_count(span_of(c)),
    ensures
        silent_windows(c, n) == how_many(n, |w: int| is_silent(c, w)),
    decreases n,
{
    if n > 0 {
        lemma_silent(c, (n - 1) as nat);
        lemma_is_window(c, n - 1);
        lemma_notes_in(c, n - 1, c.notes.len());
    }
}

/// The gaps of a chart are the windows in which no row strikes a note, as a
/// share of all windows. Where every window has a row that strikes, there are
/// none.
pub proof fn law_gaps_are_windows_without_notes(
    c: ChartView,
    ps: Seq<FoundPattern>,
    cs: Seq<ClusterView>,
)
    requires
        c.valid(),
    ensures
        ({
            let gaps = features_of(c, ps, cs).gap_share;
            &&& gaps.den > 0
            &&& forall|w: int| #[trigger] is_window(c, w) <==> 0 <= w < gaps.den
            &&& gaps.num == how_many(gaps.den as nat, |w: int| is_silent(c, w))
            &&& (forall|w: int| is_window(c, w) ==> !#[trigger] is_silent(c, w)) ==> gaps.num == 0
            &&& gaps.num == 0 ==> forall|w: int| is_window(c, w) ==> !#[trigger] is_silent(c, w)
        }),
{
    let n = window_count(span_of(c));
    lemma_span(c);
    lemma_windows(span_of(c));
    lemma_silent(c, n as nat);
    lemma_count(n as nat, |w: int| is_silent(c, w));
    let p = |w: int| is_silent(c, w);
    assert forall|w: int| #[trigger] is_window(c, w) <==> 0 <= w < n by {
        lemma_is_window(c, w);
    }
    if forall|w: int| is_window(c, w) ==> !#[trigger] is_silent(c, w) {
        assert forall|w: int| 0 <= w < n implies !#[trigger] p(w) by {
            assert(is_window(c, w));
        }
    }
    if how_many(n as nat, p) == 0 {
        assert forall|w: int| is_window(c, w) implies !#[trigger] is_silent(c, w) by {
            assert(!p(w));
        }
    }
}

/// The notes and rows of a chart are counted: the columns that its rows strike,
/// and the rows that strike any. Chords are rows that strike two columns or
/// more, large ones strike half of the columns or more. Notes per second are
/// taken over the whole chart.
pub proof fn law_notes_of_a_chart_are_counted(
    c: ChartView,
    ps: Seq<FoundPattern>,
    cs: Seq<ClusterView>,
)
    requires
        c.valid(),
        c.keys <= u32::MAX,
        c.notes.len() <= u64::MAX,
    ensures
        ({
            let f = features_of(c, ps, cs);
            let n = c.notes.len();
            let notes = sum_of(n, |i: int| hits(c.notes[i]) as int);
            let rows = how_many(n, |i: int| hits(c.notes[i]) > 0) as int;
            &&& f.note_count == notes
            &&& f.row_count == rows
            &&& is_share(f.avg_nps, 1000 * notes, lasts(c))
            &&& is_share(f.chord_rate, how_many(n, |i: int| hits(c.notes[i]) >= 2) as int, rows)
            &&& is_share(
                f.large_chord_rate,
                how_many(n, |i: int| 2 * hits(c.notes[i]) >= c.keys) as int,
                rows,
            )
        }),
{
    let n = c.notes.len();
    lemma_span(c);
    lemma_is_window(c, 0);
    lemma_window_notes(c, 0, n);
    lemma_note_total(c.notes, n);
    lemma_rows_with(c.notes, 1, n);
    lemma_rows_with(c.notes, 2, n);
    lemma_rows_with(c.notes, (c.keys + 1) as int / 2, n);
    lemma_counts_agree(n, |i: int| hits(c.notes[i]) >= 1, |i: int| hits(c.notes[i]) > 0);
    let half = (c.keys + 1) as int / 2;
    lemma_counts_agree(
        n,
        |i: int| hits(c.notes[i]) >= half,
        |i: int| 2 * hits(c.notes[i]) >= c.keys,
    );
}

proof fn lemma_note_total(rows: Seq<RowView>, n: nat)
    requires
        n <= rows.len(),
    ensures
        note_total(rows, n) == sum_of(n, |i: int| hits(rows[i]) as int),
    decreases n,
{
    if n > 0 {
        lemma_note_total(rows, (n - 1) as nat);
        lemma_hits(rows[n - 1]);
    }
}

proof fn lemma_rows_with(rows: Seq<RowView>, least: int, n: nat)
    requires
        n <= rows.len(),
    ensures
        rows_with(rows, least, n) == how_many(n, |i: int| hits(rows[i]) >= least),
        rows_with(rows, least, n) <= n,
    decreases n,
{
    if n > 0 {
        lemma_rows_with(rows, least, (n - 1) as nat);
        lemma_hits(rows[n - 1]);
    }
}

proof fn lemma_density(c: ChartView, w: int)
    requires
        c.valid(),
        c.keys <= u32::MAX,
        c.notes.len() <= u64::MAX,
        is_window(c, w),
    ensures
        density_of(c, w).num == 1000 * notes_in(c, w),
        density_of(c, w).den == counted_length(c, w),
        counted_length(c, w) > 0,
        notes_in(c, w) >= 0,
        density_key(c, w) * counted_length(c, w) == notes_in(c, w) * (4000 * last_length(
            span_of(c),
        )),
        last_length(span_of(c)) > 0,
{
    lemma_is_window(c, w);
    lemma_is_window(c, w + 1);
    lemma_span(c);
    lemma_windows(span_of(c));
    lemma_key_fits(c, w);
    lemma_notes_in(c, w, c.notes.len());
    let (n, l) = (notes_in(c, w), last_length(span_of(c)));
    assert((n * l) * 4000 == n * (4000 * l)) by (nonlinear_arith);
    assert((n * 4000) * l == n * (4000 * l)) by (nonlinear_arith);
}

proof fn lemma_less_dense(c: ChartView, a: int, b: int)
    requires
        c.valid(),
        c.keys <= u32::MAX,
        c.notes.len() <= u64::MAX,
        is_window(c, a),
        is_window(c, b),
    ensures
        less_dense(c, a, b) <==> density_key(c, a) < density_key(c, b),
        keeps_up(c, a, b) <==> 10 * density_key(c, a) >= 7 * density_key(c, b),
{
    lemma_density(c, a);
    lemma_density(c, b);
    let (x, y) = (density_key(c, a) as int, density_key(c, b) as int);
    let (l, m) = (counted_length(c, a), counted_length(c, b));
    let (n, k) = (notes_in(c, a), notes_in(c, b));
    let q = 4000 * last_length(span_of(c));
    assert(x * l * m == (n * m) * q) by (nonlinear_arith)
        requires
            x * l == n * q,
    ;
    assert(y * m * l == (k * l) * q) by (nonlinear_arith)
        requires
            y * m == k * q,
    ;
    assert(x < y <==> x * l * m < y * m * l) by (nonlinear_arith)
        requires
            l > 0,
            m > 0,
    ;
    assert(10 * x >= 7 * y <==> 10 * (x * l * m) >= 7 * (y * m * l)) by (nonlinear_arith)
        requires
            l > 0,
            m > 0,
    ;
    let (u, v) = (n * m, k * l);
    assert(u * q < v * q <==> u < v) by (nonlinear_arith)
        requires
            q > 0,
    ;
    assert(10 * (u * q) >= 7 * (v * q) <==> 10 * u >= 7 * v) by (nonlinear_arith)
        requires
            q > 0,
    ;
}

/// Whether a window stands `part` of `whole` of the way up in the order of
/// density: no more of the other windows than that are less dense, and more
/// are no denser.
pub open spec fn stands_at(c: ChartView, w: int, windows: nat, part: int, whole: int) -> bool {
    &&& is_window(c, w)
    &&& whole * how_many(windows, |v: int| less_dense(c, v, w)) <= part * (windows - 1)
    &&& whole * how_many(windows, |v: int| !less_dense(c, w, v)) > part * (windows - 1)
}

proof fn lemma_stands_at(c: ChartView, part: int, whole: int)
    requires
        c.valid(),
        c.keys <= u32::MAX,
        c.notes.len() <= u64::MAX,
        (part == 19 && whole == 20) || (part == 1 && whole == 2),
    ensures
        stands_at(
            c,
            crate::profile::window_at_share(c, part, whole),
            window_count(span_of(c)) as nat,
            part,
            whole,
        ),
{
    let n = window_count(span_of(c));
    lemma_span(c);
    lemma_windows(span_of(c));
    let keys = density_keys(c);
    let k = (n - 1) * part / whole;
    assert(0 <= k < n && whole * k <= part * (n - 1) < whole * (k + 1)) by {
        assert(k == (n - 1) * 19 / 20 || k == (n - 1) * 1 / 2);
    }
    lemma_rank(keys, k);
    let at = sorted_order(keys)[k];
    lemma_is_window(c, at);
    let (less, most) = (|v: int| less_dense(c, v, at), |v: int| !less_dense(c, at, v));
    let (below, upto) = (|i: int| keys[i] < keys[at], |i: int| keys[i] <= keys[at]);
    assert forall|v: int| 0 <= v < n implies #[trigger] less(v) == below(v) && most(v) == upto(v) by {
        lemma_is_window(c, v);
        lemma_less_dense(c, v, at);
        lemma_less_dense(c, at, v);
    }
    assert forall|v: int| 0 <= v < n implies #[trigger] most(v) == upto(v) by {
        assert(less(v) == below(v));
    }
    lemma_counts_agree(n as nat, less, below);
    lemma_counts_agree(n as nat, most, upto);
    let (a, b) = (how_many(n as nat, less) as int, how_many(n as nat, most) as int);
    assert(whole * a <= whole * k) by (nonlinear_arith)
        requires
            a <= k,
            whole > 0,
    ;
    assert(whole * b >= whole * (k + 1)) by (nonlinear_arith)
        requires
            b >= k + 1,
            whole > 0,
    ;
}

/// The peak density of a chart is that of a window which stands nineteen
/// twentieths of the way up in the order of density, the sustained density that
/// of a window in the middle. Their share tells how far the chart sustains its
/// peak.
pub proof fn law_densities_stand_in_order(
    c: ChartView,
    ps: Seq<FoundPattern>,
    cs: Seq<ClusterView>,
)
    requires
        c.valid(),
        c.keys <= u32::MAX,
        c.notes.len() <= u64::MAX,
    ensures
        ({
            let f = features_of(c, ps, cs);
            let n = f.gap_share.den as nat;
            let (peak, sustain) = (f.peak_nps, f.sustain_nps);
            &&& exists|w: int| #[trigger]
                stands_at(c, w, n, 19, 20) && is_share(
                    peak,
                    1000 * notes_in(c, w),
                    counted_length(c, w),
                )
            &&& exists|w: int| #[trigger]
                stands_at(c, w, n, 1, 2) && is_share(
                    sustain,
                    1000 * notes_in(c, w),
                    counted_length(c, w),
                )
            &&& is_share(f.sustained_share, sustain.num * peak.den, peak.num * sustain.den)
        }),
{
    let f = features_of(c, ps, cs);
    let n = window_count(span_of(c));
    lemma_span(c);
    lemma_windows(span_of(c));
    lemma_stands_at(c, 19, 20);
    lemma_stands_at(c, 1, 2);
    let (p, m) = (peak_window(c), middle_window(c));
    lemma_density(c, p);
    lemma_density(c, m);
    assert(stands_at(c, p, n as nat, 19, 20));
    assert(stands_at(c, m, n as nat, 1, 2));
    let (x, y) = (density_key(c, m) as int, density_key(c, p) as int);
    let (l, k) = (counted_length(c, m), counted_length(c, p));
    let (a, b) = (notes_in(c, m), notes_in(c, p));
    let q = 4000 * last_length(span_of(c));
    assert(x * ((1000 * b) * l) == ((1000 * a) * k) * y) by (nonlinear_arith)
        requires
            x * l == a * q,
            y * k == b * q,
    ;
    assert(y == 0 <==> b == 0) by (nonlinear_arith)
        requires
            y * k == b * q,
            k > 0,
            q > 0,
    ;
    assert((1000 * b) * l == 0 <==> b == 0) by (nonlinear_arith)
        requires
            l > 0,
    ;
    lemma_is_window(c, p);
    lemma_key_fits(c, p);
    lemma_is_window(c, m);
    lemma_key_fits(c, m);
    assert(f.gap_share.den == n);
    assert(is_share(f.peak_nps, 1000 * b, k));
    assert(is_share(f.sustain_nps, 1000 * a, l));
    let (u, v) = (f.sustain_nps, f.peak_nps);
    assert(u.num == 1000 * a && u.den == l && v.num == 1000 * b && v.den == k);
    assert(is_share(f.sustained_share, u.num * v.den, v.num * u.den));
}

/// Whether a window is at least seven tenths as dense as a peak.
pub open spec fn near_peak(c: ChartView, peak: crate::types::Ratio, w: int) -> bool {
    10 * ((1000 * notes_in(c, w)) * peak.den) >= 7 * (peak.num * counted_length(c, w))
}

/// Whether the windows from `a` to before `b` are all near a peak.
pub open spec fn is_run(c: ChartView, peak: crate::types::Ratio, a: int, b: int) -> bool {
    &&& 0 <= a < b
    &&& is_window(c, b - 1)
    &&& forall|w: int| a <= w < b ==> #[trigger] near_peak(c, peak, w)
}

/// How long the windows from `a` to before `b` last.
pub open spec fn run_length(c: ChartView, a: int, b: int) -> int {
    ends_at(c, b - 1) - 4000 * a
}

proof fn lemma_near_peak(c: ChartView, w: int)
    requires
        c.valid(),
        c.keys <= u32::MAX,
        c.notes.len() <= u64::MAX,
        is_window(c, w),
    ensures
        near_peak(c, density_of(c, peak_window(c)), w) <==> is_sustained(c, w),
{
    lemma_stands_at(c, 19, 20);
    let p = peak_window(c);
    lemma_less_dense(c, w, p);
    lemma_density(c, p);
    lemma_density(c, w);
    let (a, b) = (notes_in(c, w), notes_in(c, p));
    let (l, k) = (counted_length(c, w), counted_length(c, p));
    assert((1000 * a) * k == 1000 * (a * k)) by (nonlinear_arith);
    assert((1000 * b) * l == 1000 * (b * l)) by (nonlinear_arith);
}

/// The run that ends before window `n` is a run, and no run that ends there is
/// longer.
proof fn lemma_run(c: ChartView, n: nat) -> (from: int)
    requires
        c.valid(),
        c.keys <= u32::MAX,
        c.notes.len() <= u64::MAX,
        n <= window_count(span_of(c)),
    ensures
        ({
            let peak = density_of(c, peak_window(c));
            &&& 0 <= from <= n
            &&& from < n ==> is_run(c, peak, from, n as int) && run_before(c, n) == run_length(
                c,
                from,
                n as int,
            )
            &&& from == n ==> run_before(c, n) == 0
            &&& forall|a: int| #[trigger] is_run(c, peak, a, n as int) ==> from <= a
        }),
    decreases n,
{
    let peak = density_of(c, peak_window(c));
    lemma_span(c);
    lemma_windows(span_of(c));
    if n == 0 {
        0
    } else {
        let m = (n - 1) as nat;
        let before = lemma_run(c, m);
        lemma_is_window(c, m as int);
        lemma_is_window(c, n as int);
        lemma_near_peak(c, m as int);
        if m > 0 {
            lemma_is_window(c, m - 1);
        }
        if is_sustained(c, m as int) {
            let from = before;
            assert forall|a: int| #[trigger] is_run(c, peak, a, n as int) implies from <= a by {
                if a < m {
                    assert(is_run(c, peak, a, m as int));
                }
            }
            from
        } else {
            assert forall|a: int| #[trigger] is_run(c, peak, a, n as int) implies n <= a by {
                assert(near_peak(c, peak, m as int));
            }
            n as int
        }
    }
}

/// The longest run of windows near the peak lasts as long as some run of such
/// windows, and no such run lasts longer.
pub proof fn law_longest_run_is_the_longest(
    c: ChartView,
    ps: Seq<FoundPattern>,
    cs: Seq<ClusterView>,
)
    requires
        c.valid(),
        c.keys <= u32::MAX,
        c.notes.len() <= u64::MAX,
    ensures
        ({
            let f = features_of(c, ps, cs);
            &&& exists|a: int, b: int| #[trigger]
                is_run(c, f.peak_nps, a, b) && f.longest_run_ms == run_length(c, a, b)
            &&& forall|a: int, b: int| #[trigger]
                is_run(c, f.peak_nps, a, b) ==> run_length(c, a, b) <= f.longest_run_ms
            &&& is_share(f.longest_run_share, f.longest_run_ms, lasts(c))
        }),
{
    let f = features_of(c, ps, cs);
    let peak = density_of(c, peak_window(c));
    let n = window_count(span_of(c));
    lemma_span(c);
    lemma_windows(span_of(c));
    lemma_is_window(c, 0);
    lemma_longest(c, n as nat);
    assert forall|a: int, b: int| #[trigger] is_run(c, f.peak_nps, a, b) implies run_length(c, a, b)
        <= f.longest_run_ms by {
        lemma_is_window(c, b - 1);
    }
    lemma_stands_at(c, 19, 20);
    let p = peak_window(c);
    lemma_is_window(c, p);
    lemma_near_peak(c, p);
    lemma_key_fits(c, p);
    assert(is_run(c, peak, p, p + 1));
    assert(run_length(c, p, p + 1) > 0);
    assert(f.peak_nps == peak);
    assert(f.longest_run_ms > 0);
    let (a, b) = choose|a: int, b: int| #[trigger]
        is_run(c, peak, a, b) && longest_run(c, n as nat) == run_length(c, a, b);
    assert(is_run(c, peak, a, b));
    crate::profile::law_temporal_features_are_shares(c, ps, cs);
}

proof fn lemma_longest(c: ChartView, n: nat)
    requires
        c.valid(),
        c.keys <= u32::MAX,
        c.notes.len() <= u64::MAX,
        n <= window_count(span_of(c)),
    ensures
        ({
            let peak = density_of(c, peak_window(c));
            &&& longest_run(c, n) >= 0
            &&& longest_run(c, n) > 0 ==> exists|a: int, b: int| #[trigger]
                is_run(c, peak, a, b) && longest_run(c, n) == run_length(c, a, b)
            &&& forall|a: int, b: int| #[trigger]
                is_run(c, peak, a, b) && b <= n ==> run_length(c, a, b) <= longest_run(c, n)
        }),
    decreases n,
{
    if n > 0 {
        let peak = density_of(c, peak_window(c));
        lemma_longest(c, (n - 1) as nat);
        let from = lemma_run(c, n);
        if from < n {
            assert(is_run(c, peak, from, n as int));
        }
        assert forall|a: int, b: int| #[trigger] is_run(c, peak, a, b) && b <= n implies run_length(
            c,
            a,
            b,
        ) <= longest_run(c, n) by {
            if b == n {
                assert(from <= a);
            }
        }
    }
}

} // verus!
