//! Features of a chart for comparing it with others: how much of it each
//! pattern covers, how dense it is, and how it changes over time.

use crate::chart::{Chart, ChartView, NoteType, RowView, TIME_LIMIT};
use crate::clustering::{
    cluster_valid, cluster_views, kinds_seen, ClusterView, PatternCluster,
};
use crate::finder::{all_valid, stretch_valid, FoundPattern, Subtype, SPAN_LIMIT};
use crate::intervals::{
    bounded, covered, law_union_fits, measure, union_length, union_measure, within_span, BOUND,
};
use crate::order::{law_sorting_is_stable, positions, sort_order, sorted_order};
use crate::primitives::{columns_struck, struck};
use crate::ranking::{lemma_bar_kinds, rank_kinds, ranked};
use crate::summary::clusters_valid;
use crate::types::{ManiaPattern, Ratio};
use vstd::prelude::*;

verus! {

/// The length of a window of time, in milliseconds.
pub const WINDOW_MS: i64 = 4000;

/// The shortest time that a density is taken over, in milliseconds.
pub const SHORTEST_MS: i64 = 250;

/// From the first row to the last, and at least a millisecond.
pub open spec fn span_of(c: ChartView) -> int {
    if c.duration() >= 1 {
        c.duration()
    } else {
        1
    }
}

/// How many windows cover a time.
pub open spec fn window_count(span: int) -> int {
    (span + WINDOW_MS - 1) / (WINDOW_MS as int)
}

/// When window `w` starts.
pub open spec fn window_start(w: int) -> int {
    w * WINDOW_MS
}

/// When window `w` ends.
pub open spec fn window_end(span: int, w: int) -> int {
    if span <= (w + 1) * WINDOW_MS {
        span
    } else {
        (w + 1) * WINDOW_MS
    }
}

/// How long window `w` is.
pub open spec fn window_width(span: int, w: int) -> int {
    window_end(span, w) - window_start(w)
}

/// The window of a row; rows behind the last window belong to it.
pub open spec fn window_of(c: ChartView, i: int) -> int {
    let w = (c.notes[i].time - c.notes[0].time) / (WINDOW_MS as int);
    if w < window_count(span_of(c)) {
        w
    } else {
        window_count(span_of(c)) - 1
    }
}

/// How many notes the first `n` rows strike in window `w`.
pub open spec fn window_notes(c: ChartView, w: int, n: nat) -> nat
    decreases n,
{
    if n == 0 {
        0
    } else {
        window_notes(c, w, (n - 1) as nat) + (if window_of(c, n - 1) == w {
            struck(c.notes[n - 1]).len()
        } else {
            0
        })
    }
}

/// How many notes the first `n` rows strike.
pub open spec fn note_total(rows: Seq<RowView>, n: nat) -> nat
    decreases n,
{
    if n == 0 {
        0
    } else {
        note_total(rows, (n - 1) as nat) + struck(rows[n - 1]).len()
    }
}

/// How many of the first `n` rows strike `least` notes or more.
pub open spec fn rows_with(rows: Seq<RowView>, least: int, n: nat) -> nat
    decreases n,
{
    if n == 0 {
        0
    } else {
        rows_with(rows, least, (n - 1) as nat) + (if struck(rows[n - 1]).len() >= least {
            1nat
        } else {
            0
        })
    }
}

/// The interval of a stretch within the chart.
pub open spec fn clipped(p: FoundPattern, span: int) -> (i64, i64) {
    (
        p.start,
        if p.end <= span {
            p.end
        } else {
            span as i64
        },
    )
}

/// The intervals of the first `n` stretches of a pattern.
pub open spec fn pattern_spans(ps: Seq<FoundPattern>, pattern: ManiaPattern, span: int, n: nat) -> Seq<
    (i64, i64),
>
    decreases n,
{
    if n == 0 {
        Seq::empty()
    } else if ps[n - 1].pattern == pattern {
        pattern_spans(ps, pattern, span, (n - 1) as nat).push(clipped(ps[n - 1], span))
    } else {
        pattern_spans(ps, pattern, span, (n - 1) as nat)
    }
}

/// The intervals of the first `n` stretches of a kind.
pub open spec fn kind_spans(ps: Seq<FoundPattern>, kind: Subtype, span: int, n: nat) -> Seq<
    (i64, i64),
>
    decreases n,
{
    if n == 0 {
        Seq::empty()
    } else if ps[n - 1].specific_type == Some(kind) {
        kind_spans(ps, kind, span, (n - 1) as nat).push(clipped(ps[n - 1], span))
    } else {
        kind_spans(ps, kind, span, (n - 1) as nat)
    }
}

/// The intervals of all stretches.
pub open spec fn all_spans(ps: Seq<FoundPattern>, span: int) -> Seq<(i64, i64)> {
    ps.map_values(|p: FoundPattern| clipped(p, span))
}

/// How much of a chart a pattern covers.
pub open spec fn coverage_of(ps: Seq<FoundPattern>, pattern: ManiaPattern, span: int) -> Ratio {
    Ratio {
        num: union_measure(pattern_spans(ps, pattern, span, ps.len())) as i128,
        den: span as i128,
    }
}

/// How much of a chart each kind covers, in the order in which they occur.
pub open spec fn kind_coverage(ps: Seq<FoundPattern>, span: int) -> Seq<(Subtype, Ratio)> {
    kinds_seen(ps, ps.len()).map_values(
        |kind: Subtype|
            (
                kind,
                Ratio {
                    num: union_measure(kind_spans(ps, kind, span, ps.len())) as i128,
                    den: span as i128,
                },
            ),
    )
}

/// How much of a chart no pattern covers.
pub open spec fn uncovered_share(ps: Seq<FoundPattern>, span: int) -> Ratio {
    Ratio { num: (span - union_measure(all_spans(ps, span))) as i128, den: span as i128 }
}

/// How much of window `w` a pattern covers, in milliseconds.
pub open spec fn window_cover(
    ps: Seq<FoundPattern>,
    pattern: ManiaPattern,
    span: int,
    w: int,
) -> nat {
    measure(
        pattern_spans(ps, pattern, span, ps.len()),
        window_start(w),
        window_end(span, w),
    )
}

proof fn lemma_clip_covers(spans: Seq<(i64, i64)>, cut: Seq<(i64, i64)>, lo: int, hi: int)
    requires
        cut.len() == spans.len(),
        forall|i: int|
            0 <= i < spans.len() ==> (#[trigger] cut[i]).0 == (if spans[i].0 >= lo {
                spans[i].0 as int
            } else {
                lo
            }) && cut[i].1 == (if spans[i].1 <= hi {
                spans[i].1 as int
            } else {
                hi
            }),
    ensures
        forall|x: int| #[trigger] covered(cut, x) == (covered(spans, x) && lo <= x < hi),
{
    assert forall|x: int| #[trigger] covered(cut, x) == (covered(spans, x) && lo <= x < hi) by {
        if covered(cut, x) {
            let i = choose|i: int| 0 <= i < cut.len() && within_span(#[trigger] cut[i], x);
            assert(within_span(spans[i], x));
        }
        if covered(spans, x) && lo <= x < hi {
            let i = choose|i: int| 0 <= i < spans.len() && within_span(#[trigger] spans[i], x);
            assert(within_span(cut[i], x));
        }
    }
}

proof fn lemma_cut_measure(
    spans: Seq<(i64, i64)>,
    cut: Seq<(i64, i64)>,
    lo: int,
    hi: int,
    from: int,
    to: int,
)
    requires
        from <= lo <= hi,
        forall|x: int| #[trigger] covered(cut, x) == (covered(spans, x) && lo <= x < hi),
    ensures
        to <= lo ==> measure(cut, from, to) == 0,
        lo <= to <= hi ==> measure(cut, from, to) == measure(spans, lo, to),
        hi <= to ==> measure(cut, from, to) == measure(spans, lo, hi),
    decreases to - from,
{
    if to > from {
        lemma_cut_measure(spans, cut, lo, hi, from, to - 1);
        assert(covered(cut, to - 1) == (covered(spans, to - 1) && lo <= to - 1 < hi));
    }
}

/// How many units from `lo` to `hi` the intervals cover.
fn cover_between(spans: &[(i64, i64)], lo: i64, hi: i64) -> (r: i64)
    requires
        bounded(spans@),
        -BOUND <= lo <= hi <= BOUND,
    ensures
        r == measure(spans@, lo as int, hi as int),
        0 <= r <= hi - lo,
{
    let mut cut: Vec<(i64, i64)> = Vec::new();
    let mut n: usize = 0;
    while n < spans.len()
        invariant
            n <= spans@.len(),
            bounded(spans@),
            -BOUND <= lo <= hi <= BOUND,
            cut@.len() == n,
            forall|i: int|
                0 <= i < n ==> (#[trigger] cut@[i]).0 == (if spans@[i].0 >= lo {
                    spans@[i].0
                } else {
                    lo
                }) && cut@[i].1 == (if spans@[i].1 <= hi {
                    spans@[i].1
                } else {
                    hi
                }),
        decreases spans@.len() - n,
    {
        let (start, stop) = spans[n];
        cut.push(
            (
                if start >= lo {
                    start
                } else {
                    lo
                },
                if stop <= hi {
                    stop
                } else {
                    hi
                },
            ),
        );
        n = n + 1;
    }
    proof {
        assert forall|i: int| 0 <= i < cut@.len() implies -BOUND <= (#[trigger] cut@[i]).0 <= BOUND
            && -BOUND <= cut@[i].1 <= BOUND by {
            assert(-BOUND <= spans@[i].0 <= BOUND);
        }
        lemma_clip_covers(spans@, cut@, lo as int, hi as int);
        lemma_cut_measure(
            spans@,
            cut@,
            lo as int,
            hi as int,
            -BOUND as int,
            BOUND as int,
        );
        law_union_fits(cut@, lo as int, hi as int);
    }
    union_length(cut.as_slice())
}

/// The length that the density of the last window is taken over.
pub open spec fn last_length(span: int) -> int {
    let w = window_width(span, window_count(span) - 1);
    if w >= SHORTEST_MS {
        w
    } else {
        SHORTEST_MS as int
    }
}

/// The notes per second of window `w`.
pub open spec fn density_of(c: ChartView, w: int) -> Ratio {
    let span = span_of(c);
    Ratio {
        num: (window_notes(c, w, c.notes.len()) * 1000) as i128,
        den: (if w == window_count(span) - 1 {
            last_length(span)
        } else {
            WINDOW_MS as int
        }) as i128,
    }
}

/// The density of window `w` over a common denominator.
pub open spec fn density_key(c: ChartView, w: int) -> i128 {
    let span = span_of(c);
    (window_notes(c, w, c.notes.len()) * (if w == window_count(span) - 1 {
        WINDOW_MS as int
    } else {
        last_length(span)
    })) as i128
}

/// The densities of all windows over a common denominator.
pub open spec fn density_keys(c: ChartView) -> Seq<i128> {
    Seq::new(window_count(span_of(c)) as nat, |w: int| density_key(c, w))
}

/// The window at a place in the order of density: `part` of `whole` of the way
/// up, rounded down.
pub open spec fn window_at_share(c: ChartView, part: int, whole: int) -> int {
    sorted_order(density_keys(c))[(window_count(span_of(c)) - 1) * part / whole]
}

/// The window that nineteen of twenty windows are no denser than.
pub open spec fn peak_window(c: ChartView) -> int {
    window_at_share(c, 19, 20)
}

/// The window of middle density.
pub open spec fn middle_window(c: ChartView) -> int {
    window_at_share(c, 1, 2)
}

/// Whether a window is at least seven tenths as dense as the peak.
pub open spec fn is_sustained(c: ChartView, w: int) -> bool {
    10 * density_key(c, w) >= 7 * density_key(c, peak_window(c))
}

/// How long the run of sustained windows is that ends before window `n`.
pub open spec fn run_before(c: ChartView, n: nat) -> int
    decreases n,
{
    if n == 0 {
        0
    } else if is_sustained(c, n - 1) {
        run_before(c, (n - 1) as nat) + window_width(span_of(c), n - 1)
    } else {
        0
    }
}

/// The longest run of sustained windows before window `n`.
pub open spec fn longest_run(c: ChartView, n: nat) -> int
    decreases n,
{
    if n == 0 {
        0
    } else {
        let before = longest_run(c, (n - 1) as nat);
        if run_before(c, n) > before {
            run_before(c, n)
        } else {
            before
        }
    }
}

/// How many of the first `n` windows strike nothing.
pub open spec fn silent_windows(c: ChartView, n: nat) -> nat
    decreases n,
{
    if n == 0 {
        0
    } else {
        silent_windows(c, (n - 1) as nat) + (if window_notes(c, n - 1, c.notes.len()) == 0 {
            1nat
        } else {
            0
        })
    }
}

/// The distance of two numbers.
pub open spec fn distance(a: int, b: int) -> int {
    if a >= b {
        a - b
    } else {
        b - a
    }
}

/// How much the cover of a pattern changes over the first `n` windows, each
/// as long as a window can be.
pub open spec fn cover_changes(
    ps: Seq<FoundPattern>,
    pattern: ManiaPattern,
    span: int,
    n: nat,
) -> int
    decreases n,
{
    if n <= 1 {
        0
    } else {
        cover_changes(ps, pattern, span, (n - 1) as nat) + distance(
            window_cover(ps, pattern, span, n - 1) as int,
            window_cover(ps, pattern, span, n - 2) as int,
        )
    }
}

/// The mean change of a pattern's share from window to window. The last window
/// may be shorter, so its share is brought to a common denominator.
pub open spec fn variation_of(ps: Seq<FoundPattern>, pattern: ManiaPattern, span: int) -> Ratio {
    let n = window_count(span);
    if n < 2 {
        Ratio { num: 0, den: 1 }
    } else {
        let short = window_width(span, n - 1);
        let full = WINDOW_MS as int;
        Ratio {
            num: (cover_changes(ps, pattern, span, (n - 1) as nat) * short + distance(
                window_cover(ps, pattern, span, n - 1) * full,
                window_cover(ps, pattern, span, n - 2) * short,
            )) as i128,
            den: (full * short * (n - 1)) as i128,
        }
    }
}

pub(crate) proof fn lemma_windows(span: int)
    requires
        1 <= span <= SPAN_LIMIT,
    ensures
        1 <= window_count(span) <= 5_000_000_000_001,
        forall|w: int|
            0 <= w < window_count(span) - 1 ==> #[trigger] window_width(span, w) == WINDOW_MS,
        1 <= window_width(span, window_count(span) - 1) <= WINDOW_MS,
        forall|w: int|
            0 <= w < window_count(span) ==> 0 <= #[trigger] window_start(w) < window_end(span, w)
                <= span,
        SHORTEST_MS <= last_length(span) <= WINDOW_MS,
{
}

proof fn lemma_struck(data: Seq<NoteType>, n: nat)
    ensures
        columns_struck(data, n).len() <= n,
    decreases n,
{
    if n > 0 {
        lemma_struck(data, (n - 1) as nat);
    }
}

pub(crate) proof fn lemma_window_notes(c: ChartView, w: int, n: nat)
    requires
        c.valid(),
        c.keys <= u32::MAX,
        n <= c.notes.len(),
    ensures
        window_notes(c, w, n) <= note_total(c.notes, n) <= n * 0xffff_ffff,
    decreases n,
{
    if n > 0 {
        lemma_window_notes(c, w, (n - 1) as nat);
        lemma_struck(c.notes[n - 1].data, c.notes[n - 1].data.len());
    }
}

/// How many columns are struck.
fn count_struck(data: &[NoteType]) -> (r: i128)
    requires
        data@.len() <= u32::MAX,
    ensures
        r == columns_struck(data@, data@.len()).len(),
        0 <= r <= data@.len(),
{
    let mut sum: i128 = 0;
    let mut n: usize = 0;
    while n < data.len()
        invariant
            n <= data@.len() <= u32::MAX,
            sum == columns_struck(data@, n as nat).len(),
            0 <= sum <= n,
        decreases data@.len() - n,
    {
        if data[n] == NoteType::Normal || data[n] == NoteType::HoldHead {
            sum = sum + 1;
        }
        n = n + 1;
    }
    sum
}

/// How many rows strike, with `least` notes or more; and the notes struck.
fn count_rows(chart: &Chart, least: i128) -> (r: (i128, i128))
    requires
        chart@.valid(),
        chart@.keys <= u32::MAX,
    ensures
        r.0 == rows_with(chart@.notes, least as int, chart@.notes.len()),
        r.1 == note_total(chart@.notes, chart@.notes.len()),
        0 <= r.0 <= 0xffff_ffff_ffff_ffff,
        0 <= r.1 <= 0xffff_ffff_ffff_ffff * 0xffff_ffff,
{
    let mut rows: i128 = 0;
    let mut notes: i128 = 0;
    let mut n: usize = 0;
    while n < chart.notes.len()
        invariant
            n <= chart.notes@.len(),
            chart@.valid(),
            chart@.keys <= u32::MAX,
            rows == rows_with(chart@.notes, least as int, n as nat),
            notes == note_total(chart@.notes, n as nat),
            0 <= rows <= n,
            0 <= notes <= n * 0xffff_ffff,
        decreases chart.notes@.len() - n,
    {
        assert(chart@.notes[n as int] == chart.notes@[n as int]@);
        let k: i128 = count_struck(chart.notes[n].data.as_slice());
        if k >= least {
            rows = rows + 1;
        }
        notes = notes + k;
        n = n + 1;
    }
    (rows, notes)
}

/// The notes of each window.
fn notes_by_window(chart: &Chart, span: i64, count: usize) -> (r: Vec<i128>)
    requires
        chart@.valid(),
        chart@.keys <= u32::MAX,
        span == span_of(chart@),
        count == window_count(span as int),
        1 <= span <= SPAN_LIMIT,
    ensures
        r@.len() == count,
        forall|w: int|
            0 <= w < count ==> #[trigger] r@[w] == window_notes(chart@, w, chart@.notes.len()),
        forall|w: int|
            0 <= w < count ==> 0 <= #[trigger] r@[w] <= 0xffff_ffff_ffff_ffff * 0xffff_ffff,
{
    let ghost c = chart@;
    let mut out: Vec<i128> = Vec::new();
    let mut k: usize = 0;
    while k < count
        invariant
            k <= count,
            out@.len() == k,
            forall|w: int| 0 <= w < k ==> #[trigger] out@[w] == 0,
        decreases count - k,
    {
        out.push(0);
        k = k + 1;
    }
    proof {
        lemma_windows(span as int);
    }
    let mut n: usize = 0;
    while n < chart.notes.len()
        invariant
            n <= chart.notes@.len(),
            c == chart@,
            c.valid(),
            c.keys <= u32::MAX,
            span == span_of(c),
            count == window_count(span as int),
            count >= 1,
            out@.len() == count,
            forall|w: int| 0 <= w < count ==> #[trigger] out@[w] == window_notes(c, w, n as nat),
        decreases chart.notes@.len() - n,
    {
        proof {
            assert(c.notes[n as int] == chart.notes@[n as int]@);
            assert(c.notes[0] == chart.notes@[0]@);
            assert(-TIME_LIMIT <= c.notes[n as int].time <= TIME_LIMIT);
            assert(-TIME_LIMIT <= c.notes[0].time <= TIME_LIMIT);
            if n > 0 {
                assert(c.notes[0].time < c.notes[n as int].time);
            }
        }
        let raw: i64 = (chart.notes[n].time - chart.notes[0].time) / WINDOW_MS;
        let w: usize = if (raw as u64) < (count as u64) {
            raw as usize
        } else {
            count - 1
        };
        assert(w == window_of(c, n as int));
        let k: i128 = count_struck(chart.notes[n].data.as_slice());
        proof {
            lemma_window_notes(c, w as int, n as nat);
            assert(out@[w as int] == window_notes(c, w as int, n as nat));
        }
        out.set(w, out[w] + k);
        n = n + 1;
    }
    assert forall|w: int| 0 <= w < count implies 0 <= #[trigger] out@[w] <= 0xffff_ffff_ffff_ffff
        * 0xffff_ffff by {
        lemma_window_notes(c, w, c.notes.len());
    }
    out
}

/// The densities of all windows over a common denominator.
fn keys_of(notes: &[i128], last: i128, Ghost(c): Ghost<ChartView>) -> (r: Vec<i128>)
    requires
        notes@.len() == window_count(span_of(c)),
        last == last_length(span_of(c)),
        SHORTEST_MS <= last <= WINDOW_MS,
        forall|w: int|
            0 <= w < notes@.len() ==> #[trigger] notes@[w] == window_notes(c, w, c.notes.len()),
        forall|w: int|
            0 <= w < notes@.len() ==> 0 <= #[trigger] notes@[w] <= 0xffff_ffff_ffff_ffff
                * 0xffff_ffff,
    ensures
        r@ == density_keys(c),
        forall|w: int|
            0 <= w < r@.len() ==> 0 <= #[trigger] r@[w] <= 0xffff_ffff_ffff_ffff * 0xffff_ffff
                * 4000,
{
    let mut out: Vec<i128> = Vec::new();
    let mut w: usize = 0;
    while w < notes.len()
        invariant
            w <= notes@.len(),
            notes@.len() == window_count(span_of(c)),
            last == last_length(span_of(c)),
            SHORTEST_MS <= last <= WINDOW_MS,
            forall|k: int|
                0 <= k < notes@.len() ==> #[trigger] notes@[k] == window_notes(c, k, c.notes.len()),
            forall|k: int|
                0 <= k < notes@.len() ==> 0 <= #[trigger] notes@[k] <= 0xffff_ffff_ffff_ffff
                    * 0xffff_ffff,
            out@.len() == w,
            forall|k: int| 0 <= k < w ==> #[trigger] out@[k] == density_key(c, k),
            forall|k: int|
                0 <= k < w ==> 0 <= #[trigger] out@[k] <= 0xffff_ffff_ffff_ffff * 0xffff_ffff
                    * 4000,
        decreases notes@.len() - w,
    {
        let n: i128 = notes[w];
        let f: i128 = if w == notes.len() - 1 {
            WINDOW_MS as i128
        } else {
            last
        };
        proof {
            assert(0 <= notes@[w as int]);
            assert(0 <= n * f <= 0xffff_ffff_ffff_ffff * 0xffff_ffff * 4000) by (nonlinear_arith)
                requires
                    0 <= n <= 0xffff_ffff_ffff_ffff * 0xffff_ffff,
                    0 <= f <= 4000,
            ;
        }
        out.push(n * f);
        w = w + 1;
    }
    assert(out@ =~= density_keys(c));
    out
}

/// A term of a weighted sum: a share of an amount.
#[derive(Clone, Copy, Debug)]
pub struct Term {
    pub share: Ratio,
    pub amount: i64,
}

/// A kind within a bar: the shares of the clusters' amounts that it makes up.
#[derive(Clone, Debug)]
pub struct BarKind {
    pub kind: Subtype,
    pub terms: Vec<Term>,
}

/// The clusters of one pattern together.
#[derive(Clone, Debug)]
pub struct PatternBar {
    pub pattern: ManiaPattern,
    pub amount: i128,
    /// The fastest tempo.
    pub bpm: i128,
    /// The amount relative to the largest among the first five bars, at most
    /// one.
    pub relative: Ratio,
    /// The kinds, the heaviest first.
    pub specific_types: Vec<BarKind>,
}

/// A [`BarKind`] as a value.
#[verifier::ext_equal]
pub struct BarKindView {
    pub kind: Subtype,
    pub terms: Seq<Term>,
}

/// A [`PatternBar`] as a value.
#[verifier::ext_equal]
pub struct BarView {
    pub pattern: ManiaPattern,
    pub amount: int,
    pub bpm: int,
    pub relative: Ratio,
    pub specific_types: Seq<BarKindView>,
}

impl View for BarKind {
    type V = BarKindView;

    open spec fn view(&self) -> BarKindView {
        BarKindView { kind: self.kind, terms: self.terms@ }
    }
}

impl View for PatternBar {
    type V = BarView;

    open spec fn view(&self) -> BarView {
        BarView {
            pattern: self.pattern,
            amount: self.amount as int,
            bpm: self.bpm as int,
            relative: self.relative,
            specific_types: kind_views(self.specific_types@),
        }
    }
}

/// Kinds of bars as values.
pub open spec fn kind_views(v: Seq<BarKind>) -> Seq<BarKindView> {
    v.map_values(|k: BarKind| k@)
}

/// Bars as values.
pub open spec fn bar_views(v: Seq<PatternBar>) -> Seq<BarView> {
    v.map_values(|b: PatternBar| b@)
}

/// The patterns of the first `n` clusters, in the order in which they occur.
pub open spec fn bar_patterns(cs: Seq<ClusterView>, n: nat) -> Seq<ManiaPattern>
    decreases n,
{
    if n == 0 {
        Seq::empty()
    } else {
        let before = bar_patterns(cs, (n - 1) as nat);
        if before.contains(cs[n - 1].pattern) {
            before
        } else {
            before.push(cs[n - 1].pattern)
        }
    }
}

/// The amounts of the first `n` clusters of a pattern, added up.
pub open spec fn bar_amount(cs: Seq<ClusterView>, pattern: ManiaPattern, n: nat) -> int
    decreases n,
{
    if n == 0 {
        0
    } else {
        bar_amount(cs, pattern, (n - 1) as nat) + (if cs[n - 1].pattern == pattern {
            cs[n - 1].amount
        } else {
            0
        })
    }
}

/// The fastest tempo of the first `n` clusters of a pattern.
pub open spec fn bar_bpm(cs: Seq<ClusterView>, pattern: ManiaPattern, n: nat) -> int
    decreases n,
{
    if n == 0 {
        0
    } else {
        let before = bar_bpm(cs, pattern, (n - 1) as nat);
        if cs[n - 1].pattern == pattern && cs[n - 1].bpm > before {
            cs[n - 1].bpm
        } else {
            before
        }
    }
}

/// Where a kind stands in a list; its length if it does not.
pub open spec fn place_of(kinds: Seq<BarKindView>, kind: Subtype) -> int
    decreases kinds.len(),
{
    if kinds.len() == 0 || kinds[0].kind == kind {
        0
    } else {
        1 + place_of(kinds.skip(1), kind)
    }
}

/// The kinds with one more term.
pub open spec fn with_term(kinds: Seq<BarKindView>, kind: Subtype, term: Term) -> Seq<BarKindView> {
    let k = place_of(kinds, kind);
    if k < kinds.len() {
        kinds.update(k, BarKindView { terms: kinds[k].terms.push(term), ..kinds[k] })
    } else {
        kinds.push(BarKindView { kind, terms: seq![term] })
    }
}

/// The kinds with the first `n` kinds of a cluster.
pub open spec fn with_cluster(kinds: Seq<BarKindView>, c: ClusterView, n: nat) -> Seq<BarKindView>
    decreases n,
{
    if n == 0 {
        kinds
    } else {
        let (kind, share) = c.specific_types[n - 1];
        with_term(
            with_cluster(kinds, c, (n - 1) as nat),
            kind,
            Term { share, amount: c.amount as i64 },
        )
    }
}

/// The kinds of the first `n` clusters of a pattern.
pub open spec fn bar_kinds(cs: Seq<ClusterView>, pattern: ManiaPattern, n: nat) -> Seq<BarKindView>
    decreases n,
{
    if n == 0 {
        Seq::empty()
    } else {
        let before = bar_kinds(cs, pattern, (n - 1) as nat);
        if cs[n - 1].pattern == pattern {
            with_cluster(before, cs[n - 1], cs[n - 1].specific_types.len())
        } else {
            before
        }
    }
}

/// The largest amount of the first `n` patterns, and at least one.
pub open spec fn largest_amount(cs: Seq<ClusterView>, patterns: Seq<ManiaPattern>, n: nat) -> int
    decreases n,
{
    if n == 0 {
        1
    } else {
        let before = largest_amount(cs, patterns, (n - 1) as nat);
        let a = bar_amount(cs, patterns[n - 1], cs.len());
        if a > before {
            a
        } else {
            before
        }
    }
}

/// The bar of a pattern, beside bars of at most `most`.
pub open spec fn bar_of(cs: Seq<ClusterView>, pattern: ManiaPattern, most: int) -> BarView {
    let amount = bar_amount(cs, pattern, cs.len());
    BarView {
        pattern,
        amount,
        bpm: bar_bpm(cs, pattern, cs.len()),
        relative: Ratio {
            num: (if amount <= most {
                amount
            } else {
                most
            }) as i128,
            den: most as i128,
        },
        specific_types: ranked(
            bar_kinds(cs, pattern, cs.len()),
            bar_kinds(cs, pattern, cs.len()).len(),
        ),
    }
}

/// The bars of clusters.
pub open spec fn bars_of(cs: Seq<ClusterView>) -> Seq<BarView> {
    let patterns = bar_patterns(cs, cs.len());
    let five = if patterns.len() < 5 {
        patterns.len()
    } else {
        5
    };
    let most = largest_amount(cs, patterns, five);
    patterns.map_values(|p: ManiaPattern| bar_of(cs, p, most))
}

/// Features of a chart.
#[derive(Clone, Debug)]
pub struct MmaFeatures {
    /// How much of the chart each core pattern covers.
    pub coverage: Vec<Ratio>,
    /// How much of the chart each kind covers.
    pub subtypes: Vec<(Subtype, Ratio)>,
    pub bars: Vec<PatternBar>,
    /// Notes per second.
    pub avg_nps: Ratio,
    /// Notes per second of the peak window.
    pub peak_nps: Ratio,
    /// Notes per second of the middle window.
    pub sustain_nps: Ratio,
    /// The longest run of windows near the peak, in milliseconds.
    pub longest_run_ms: i64,
    /// The middle density, relative to the peak.
    pub sustained_share: Ratio,
    /// The longest run, relative to the chart.
    pub longest_run_share: Ratio,
    /// The share of windows without notes.
    pub gap_share: Ratio,
    /// The mean change of each core pattern from window to window.
    pub variation: Vec<Ratio>,
    pub note_count: i128,
    pub row_count: i128,
    pub chord_rate: Ratio,
    pub large_chord_rate: Ratio,
    /// How much of the chart no pattern covers.
    pub unclassified: Ratio,
}

/// [`MmaFeatures`] as a value.
#[verifier::ext_equal]
pub struct FeaturesView {
    pub coverage: Seq<Ratio>,
    pub subtypes: Seq<(Subtype, Ratio)>,
    pub bars: Seq<BarView>,
    pub avg_nps: Ratio,
    pub peak_nps: Ratio,
    pub sustain_nps: Ratio,
    pub longest_run_ms: int,
    pub sustained_share: Ratio,
    pub longest_run_share: Ratio,
    pub gap_share: Ratio,
    pub variation: Seq<Ratio>,
    pub note_count: int,
    pub row_count: int,
    pub chord_rate: Ratio,
    pub large_chord_rate: Ratio,
    pub unclassified: Ratio,
}

impl View for MmaFeatures {
    type V = FeaturesView;

    open spec fn view(&self) -> FeaturesView {
        FeaturesView {
            coverage: self.coverage@,
            subtypes: self.subtypes@,
            bars: bar_views(self.bars@),
            avg_nps: self.avg_nps,
            peak_nps: self.peak_nps,
            sustain_nps: self.sustain_nps,
            longest_run_ms: self.longest_run_ms as int,
            sustained_share: self.sustained_share,
            longest_run_share: self.longest_run_share,
            gap_share: self.gap_share,
            variation: self.variation@,
            note_count: self.note_count as int,
            row_count: self.row_count as int,
            chord_rate: self.chord_rate,
            large_chord_rate: self.large_chord_rate,
            unclassified: self.unclassified,
        }
    }
}

/// The density of the middle window relative to that of the peak; nothing
/// where there is no peak.
pub open spec fn sustained_share_of(c: ChartView) -> Ratio {
    let peak = density_key(c, peak_window(c));
    let middle = density_key(c, middle_window(c));
    if peak == 0 {
        Ratio { num: 0, den: 1 }
    } else {
        Ratio { num: middle, den: peak }
    }
}

/// The features of a chart with such stretches and clusters.
pub open spec fn features_of(
    c: ChartView,
    ps: Seq<FoundPattern>,
    cs: Seq<ClusterView>,
) -> FeaturesView {
    let span = span_of(c);
    let windows = window_count(span);
    let n = c.notes.len();
    let rows = rows_with(c.notes, 1, n) as int;
    let notes = note_total(c.notes, n) as int;
    FeaturesView {
        coverage: Seq::new(6, |k: int| coverage_of(ps, ManiaPattern::at(k), span)),
        subtypes: kind_coverage(ps, span),
        bars: bars_of(cs),
        avg_nps: Ratio { num: (notes * 1000) as i128, den: span as i128 },
        peak_nps: density_of(c, peak_window(c)),
        sustain_nps: density_of(c, middle_window(c)),
        longest_run_ms: longest_run(c, windows as nat),
        sustained_share: sustained_share_of(c),
        longest_run_share: Ratio {
            num: longest_run(c, windows as nat) as i128,
            den: span as i128,
        },
        gap_share: Ratio {
            num: silent_windows(c, windows as nat) as i128,
            den: windows as i128,
        },
        variation: Seq::new(6, |k: int| variation_of(ps, ManiaPattern::at(k), span)),
        note_count: notes,
        row_count: rows,
        chord_rate: Ratio::spec_or_zero(rows_with(c.notes, 2, n) as int, rows),
        large_chord_rate: Ratio::spec_or_zero(
            rows_with(c.notes, (c.keys + 1) as int / 2, n) as int,
            rows,
        ),
        unclassified: uncovered_share(ps, span),
    }
}

/// Whether intervals lie within the chart.
pub open spec fn inside(spans: Seq<(i64, i64)>, span: int) -> bool {
    forall|i: int|
        0 <= i < spans.len() ==> 0 <= (#[trigger] spans[i]).0 <= SPAN_LIMIT && 0 <= spans[i].1
            <= span
}

pub(crate) proof fn lemma_inside(spans: Seq<(i64, i64)>, span: int)
    requires
        inside(spans, span),
        1 <= span <= SPAN_LIMIT,
    ensures
        bounded(spans),
        union_measure(spans) <= span,
{
    assert forall|i: int| 0 <= i < spans.len() implies (#[trigger] spans[i]).0 >= 0 && spans[i].1
        <= span by {}
    law_union_fits(spans, 0, span);
}

fn clip(p: FoundPattern, span: i64) -> (r: (i64, i64))
    requires
        stretch_valid(p),
        1 <= span <= SPAN_LIMIT,
    ensures
        r == clipped(p, span as int),
        0 <= r.0 <= SPAN_LIMIT,
        0 <= r.1 <= span,
{
    (
        p.start,
        if p.end <= span {
            p.end
        } else {
            span
        },
    )
}

fn spans_of_pattern(ps: &[FoundPattern], pattern: ManiaPattern, span: i64) -> (r: Vec<(i64, i64)>)
    requires
        all_valid(ps@),
        1 <= span <= SPAN_LIMIT,
    ensures
        r@ == pattern_spans(ps@, pattern, span as int, ps@.len()),
        inside(r@, span as int),
{
    let mut out: Vec<(i64, i64)> = Vec::new();
    let mut n: usize = 0;
    while n < ps.len()
        invariant
            n <= ps@.len(),
            all_valid(ps@),
            1 <= span <= SPAN_LIMIT,
            out@ == pattern_spans(ps@, pattern, span as int, n as nat),
            inside(out@, span as int),
        decreases ps@.len() - n,
    {
        if ps[n].pattern == pattern {
            assert(stretch_valid(ps@[n as int]));
            out.push(clip(ps[n], span));
        }
        n = n + 1;
    }
    out
}

fn spans_of_kind(ps: &[FoundPattern], kind: Subtype, span: i64) -> (r: Vec<(i64, i64)>)
    requires
        all_valid(ps@),
        1 <= span <= SPAN_LIMIT,
    ensures
        r@ == kind_spans(ps@, kind, span as int, ps@.len()),
        inside(r@, span as int),
{
    let mut out: Vec<(i64, i64)> = Vec::new();
    let mut n: usize = 0;
    while n < ps.len()
        invariant
            n <= ps@.len(),
            all_valid(ps@),
            1 <= span <= SPAN_LIMIT,
            out@ == kind_spans(ps@, kind, span as int, n as nat),
            inside(out@, span as int),
        decreases ps@.len() - n,
    {
        let same = match ps[n].specific_type {
            Some(k) => k == kind,
            None => false,
        };
        if same {
            assert(stretch_valid(ps@[n as int]));
            out.push(clip(ps[n], span));
        }
        n = n + 1;
    }
    out
}

fn spans_of_all(ps: &[FoundPattern], span: i64) -> (r: Vec<(i64, i64)>)
    requires
        all_valid(ps@),
        1 <= span <= SPAN_LIMIT,
    ensures
        r@ == all_spans(ps@, span as int),
        inside(r@, span as int),
{
    let mut out: Vec<(i64, i64)> = Vec::new();
    let mut n: usize = 0;
    while n < ps.len()
        invariant
            n <= ps@.len(),
            all_valid(ps@),
            1 <= span <= SPAN_LIMIT,
            out@.len() == n,
            forall|i: int| 0 <= i < n ==> #[trigger] out@[i] == all_spans(ps@, span as int)[i],
            inside(out@, span as int),
        decreases ps@.len() - n,
    {
        assert(stretch_valid(ps@[n as int]));
        out.push(clip(ps[n], span));
        n = n + 1;
    }
    assert(out@ =~= all_spans(ps@, span as int));
    out
}

fn kinds_in(ps: &[FoundPattern]) -> (r: Vec<Subtype>)
    ensures
        r@ == kinds_seen(ps@, ps@.len()),
{
    let mut out: Vec<Subtype> = Vec::new();
    let mut n: usize = 0;
    while n < ps.len()
        invariant
            n <= ps@.len(),
            out@ == kinds_seen(ps@, n as nat),
        decreases ps@.len() - n,
    {
        if let Some(kind) = ps[n].specific_type {
            if !has_kind(out.as_slice(), kind) {
                out.push(kind);
            }
        }
        n = n + 1;
    }
    out
}

fn has_kind(kinds: &[Subtype], kind: Subtype) -> (r: bool)
    ensures
        r == kinds@.contains(kind),
{
    let mut n: usize = 0;
    while n < kinds.len()
        invariant
            n <= kinds@.len(),
            forall|i: int| 0 <= i < n ==> kinds@[i] != kind,
        decreases kinds@.len() - n,
    {
        if kinds[n] == kind {
            assert(kinds@[n as int] == kind);
            return true;
        }
        n = n + 1;
    }
    false
}

fn cover_kinds(ps: &[FoundPattern], span: i64) -> (r: Vec<(Subtype, Ratio)>)
    requires
        all_valid(ps@),
        1 <= span <= SPAN_LIMIT,
    ensures
        r@ == kind_coverage(ps@, span as int),
{
    let kinds = kinds_in(ps);
    let mut out: Vec<(Subtype, Ratio)> = Vec::new();
    let mut n: usize = 0;
    while n < kinds.len()
        invariant
            n <= kinds@.len(),
            kinds@ == kinds_seen(ps@, ps@.len()),
            all_valid(ps@),
            1 <= span <= SPAN_LIMIT,
            out@.len() == n,
            forall|i: int| 0 <= i < n ==> #[trigger] out@[i] == kind_coverage(ps@, span as int)[i],
        decreases kinds@.len() - n,
    {
        let spans = spans_of_kind(ps, kinds[n], span);
        proof {
            lemma_inside(spans@, span as int);
        }
        let covered: i64 = union_length(spans.as_slice());
        out.push((kinds[n], Ratio { num: covered as i128, den: span as i128 }));
        n = n + 1;
    }
    assert(out@ =~= kind_coverage(ps@, span as int));
    out
}

fn window_bounds(span: i64, w: usize) -> (r: (i64, i64))
    requires
        1 <= span <= SPAN_LIMIT,
        w < window_count(span as int),
    ensures
        r.0 == window_start(w as int),
        r.1 == window_end(span as int, w as int),
        0 <= r.0 < r.1 <= span,
{
    proof {
        lemma_windows(span as int);
        assert(0 <= window_start(w as int) < window_end(span as int, w as int) <= span);
    }
    let start: i64 = w as i64 * WINDOW_MS;
    let end: i64 = if span <= start + WINDOW_MS {
        span
    } else {
        start + WINDOW_MS
    };
    (start, end)
}

/// The mean change of a pattern's share from window to window.
fn vary(spans: &[(i64, i64)], span: i64, count: usize, Ghost(ps): Ghost<Seq<FoundPattern>>, Ghost(
    pattern,
): Ghost<ManiaPattern>) -> (r: Ratio)
    requires
        1 <= span <= SPAN_LIMIT,
        count == window_count(span as int),
        spans@ == pattern_spans(ps, pattern, span as int, ps.len()),
        inside(spans@, span as int),
    ensures
        r == variation_of(ps, pattern, span as int),
{
    if count < 2 {
        return Ratio { num: 0, den: 1 };
    }
    proof {
        lemma_windows(span as int);
        lemma_inside(spans@, span as int);
    }
    let (start, end) = window_bounds(span, 0);
    let mut before: i64 = cover_between(spans, start, end);
    let mut sum: i128 = 0;
    let mut w: usize = 1;
    while w < count - 1
        invariant
            1 <= w <= count - 1,
            1 <= span <= SPAN_LIMIT,
            count == window_count(span as int),
            count <= 5_000_000_000_001,
            bounded(spans@),
            spans@ == pattern_spans(ps, pattern, span as int, ps.len()),
            before == window_cover(ps, pattern, span as int, w - 1),
            0 <= before <= WINDOW_MS,
            sum == cover_changes(ps, pattern, span as int, w as nat),
            0 <= sum <= w * 4000,
        decreases count - w,
    {
        let (from, to) = window_bounds(span, w);
        let now: i64 = cover_between(spans, from, to);
        assert(now == window_cover(ps, pattern, span as int, w as int));
        let change: i64 = if now >= before {
            now - before
        } else {
            before - now
        };
        sum = sum + change as i128;
        before = now;
        w = w + 1;
    }
    let (from, to) = window_bounds(span, w);
    let short: i128 = (to - from) as i128;
    let full: i128 = WINDOW_MS as i128;
    let last: i128 = cover_between(spans, from, to) as i128;
    let prior: i128 = before as i128;
    proof {
        assert(0 <= last * full <= 4000 * 4000) by (nonlinear_arith)
            requires
                0 <= last <= 4000,
                0 <= full <= 4000,
        ;
        assert(0 <= prior * short <= 4000 * 4000) by (nonlinear_arith)
            requires
                0 <= prior <= 4000,
                0 <= short <= 4000,
        ;
        assert(0 <= sum * short <= 5_000_000_000_001 * 4000 * 4000) by (nonlinear_arith)
            requires
                0 <= sum <= 5_000_000_000_001 * 4000,
                0 <= short <= 4000,
        ;
        let m = full * short;
        assert(0 <= m <= 4000 * 4000) by (nonlinear_arith)
            requires
                0 <= full <= 4000,
                0 <= short <= 4000,
                m == full * short,
        ;
        let k = (count - 1) as int;
        assert(0 <= m * k <= 16_000_000 * 5_000_000_000_001) by (nonlinear_arith)
            requires
                0 <= m <= 16_000_000,
                0 <= k <= 5_000_000_000_001,
        ;
    }
    let a: i128 = last * full;
    let b: i128 = prior * short;
    let change: i128 = if a >= b {
        a - b
    } else {
        b - a
    };
    Ratio { num: sum * short + change, den: full * short * ((count - 1) as i128) }
}

/// The longest run of sustained windows.
fn run_length(keys: &[i128], peak: i128, span: i64, Ghost(c): Ghost<ChartView>) -> (r: i64)
    requires
        span == span_of(c),
        1 <= span <= SPAN_LIMIT,
        keys@ == density_keys(c),
        peak == density_key(c, peak_window(c)),
        0 <= peak <= 0xffff_ffff_ffff_ffff * 0xffff_ffff * 4000,
        forall|w: int|
            0 <= w < keys@.len() ==> 0 <= #[trigger] keys@[w] <= 0xffff_ffff_ffff_ffff
                * 0xffff_ffff * 4000,
    ensures
        r == longest_run(c, window_count(span as int) as nat),
        0 <= r <= span,
{
    let mut run: i64 = 0;
    let mut longest: i64 = 0;
    let mut w: usize = 0;
    let ghost mut reached: int = 0;
    proof {
        lemma_windows(span as int);
    }
    while w < keys.len()
        invariant
            w <= keys@.len(),
            span == span_of(c),
            1 <= span <= SPAN_LIMIT,
            keys@ == density_keys(c),
            keys@.len() == window_count(span as int),
            peak == density_key(c, peak_window(c)),
            0 <= peak <= 0xffff_ffff_ffff_ffff * 0xffff_ffff * 4000,
            forall|k: int|
                0 <= k < keys@.len() ==> 0 <= #[trigger] keys@[k] <= 0xffff_ffff_ffff_ffff
                    * 0xffff_ffff * 4000,
            run == run_before(c, w as nat),
            longest == longest_run(c, w as nat),
            0 <= run <= reached,
            0 <= longest <= reached,
            reached <= span,
            w > 0 ==> reached == window_end(span as int, w - 1),
            w == 0 ==> reached == 0,
        decreases keys@.len() - w,
    {
        let (from, to) = window_bounds(span, w);
        proof {
            lemma_windows(span as int);
            if w > 0 {
                assert(window_width(span as int, w - 1) == WINDOW_MS);
            }
            assert(from == reached);
            reached = to as int;
        }
        assert(0 <= keys@[w as int]);
        if 10 * keys[w] >= 7 * peak {
            run = run + (to - from);
        } else {
            run = 0;
        }
        if run > longest {
            longest = run;
        }
        w = w + 1;
    }
    longest
}

fn count_silent(notes: &[i128], Ghost(c): Ghost<ChartView>) -> (r: i128)
    requires
        forall|w: int|
            0 <= w < notes@.len() ==> #[trigger] notes@[w] == window_notes(c, w, c.notes.len()),
    ensures
        r == silent_windows(c, notes@.len()),
{
    let mut sum: i128 = 0;
    let mut w: usize = 0;
    while w < notes.len()
        invariant
            w <= notes@.len(),
            forall|k: int|
                0 <= k < notes@.len() ==> #[trigger] notes@[k] == window_notes(c, k, c.notes.len()),
            sum == silent_windows(c, w as nat),
            0 <= sum <= w,
        decreases notes@.len() - w,
    {
        if notes[w] == 0 {
            sum = sum + 1;
        }
        w = w + 1;
    }
    sum
}

pub(crate) proof fn lemma_place(kinds: Seq<BarKindView>, kind: Subtype)
    ensures
        0 <= place_of(kinds, kind) <= kinds.len(),
        forall|i: int| 0 <= i < place_of(kinds, kind) ==> (#[trigger] kinds[i]).kind != kind,
        place_of(kinds, kind) < kinds.len() ==> kinds[place_of(kinds, kind)].kind == kind,
    decreases kinds.len(),
{
    if kinds.len() > 0 && kinds[0].kind != kind {
        lemma_place(kinds.skip(1), kind);
        assert forall|i: int| 0 <= i < place_of(kinds, kind) implies (#[trigger] kinds[i]).kind
            != kind by {
            if i > 0 {
                assert(kinds.skip(1)[i - 1] == kinds[i]);
            }
        }
    }
}

fn add_term(kinds: &mut Vec<BarKind>, kind: Subtype, term: Term)
    ensures
        kind_views(final(kinds)@) == with_term(kind_views(old(kinds)@), kind, term),
{
    let ghost before = kind_views(kinds@);
    let mut k: usize = 0;
    while k < kinds.len() && kinds[k].kind != kind
        invariant
            k <= kinds@.len(),
            before == kind_views(kinds@),
            forall|i: int| 0 <= i < k ==> (#[trigger] before[i]).kind != kind,
        decreases kinds@.len() - k,
    {
        assert(before[k as int] == kinds@[k as int]@);
        k = k + 1;
    }
    proof {
        lemma_place(before, kind);
        let p = place_of(before, kind);
        if k < kinds@.len() {
            assert(before[k as int] == kinds@[k as int]@);
        }
        assert(p == k);
    }
    if k < kinds.len() {
        let ghost held = kinds@;
        kinds[k].terms.push(term);
        proof {
            assert(held[k as int]@ == before[k as int]);
            assert(kind_views(kinds@) =~= with_term(before, kind, term));
        }
    } else {
        let mut terms: Vec<Term> = Vec::new();
        terms.push(term);
        assert(terms@ =~= seq![term]);
        kinds.push(BarKind { kind, terms });
        assert(kind_views(kinds@) =~= with_term(before, kind, term));
    }
}

fn add_cluster(kinds: &mut Vec<BarKind>, c: &PatternCluster)
    ensures
        kind_views(final(kinds)@) == with_cluster(
            kind_views(old(kinds)@),
            c@,
            c@.specific_types.len(),
        ),
{
    let ghost before = kind_views(kinds@);
    let mut n: usize = 0;
    while n < c.specific_types.len()
        invariant
            n <= c.specific_types@.len(),
            kind_views(kinds@) == with_cluster(before, c@, n as nat),
        decreases c.specific_types@.len() - n,
    {
        let (kind, share) = c.specific_types[n];
        add_term(kinds, kind, Term { share, amount: c.amount });
        n = n + 1;
    }
}

fn has_pattern(v: &[ManiaPattern], p: ManiaPattern) -> (r: bool)
    ensures
        r == v@.contains(p),
{
    let mut n: usize = 0;
    while n < v.len()
        invariant
            n <= v@.len(),
            forall|i: int| 0 <= i < n ==> v@[i] != p,
        decreases v@.len() - n,
    {
        if v[n] == p {
            assert(v@[n as int] == p);
            return true;
        }
        n = n + 1;
    }
    false
}

fn patterns_in(cs: &[PatternCluster]) -> (r: Vec<ManiaPattern>)
    ensures
        r@ == bar_patterns(cluster_views(cs@), cs@.len()),
        r@.len() <= cs@.len(),
{
    let ghost views = cluster_views(cs@);
    let mut out: Vec<ManiaPattern> = Vec::new();
    let mut n: usize = 0;
    while n < cs.len()
        invariant
            n <= cs@.len(),
            views == cluster_views(cs@),
            out@ == bar_patterns(views, n as nat),
            out@.len() <= n,
        decreases cs@.len() - n,
    {
        assert(views[n as int] == cs@[n as int]@);
        if !has_pattern(out.as_slice(), cs[n].pattern) {
            out.push(cs[n].pattern);
        }
        n = n + 1;
    }
    out
}

fn amount_of(cs: &[PatternCluster], pattern: ManiaPattern) -> (r: i128)
    requires
        cs@.len() <= 18,
        clusters_valid(cluster_views(cs@)),
    ensures
        r == bar_amount(cluster_views(cs@), pattern, cs@.len()),
        0 <= r <= 1_800_000_000_000_000_000,
{
    let ghost views = cluster_views(cs@);
    let mut sum: i128 = 0;
    let mut n: usize = 0;
    while n < cs.len()
        invariant
            n <= cs@.len() <= 18,
            views == cluster_views(cs@),
            clusters_valid(views),
            sum == bar_amount(views, pattern, n as nat),
            0 <= sum <= n * 100_000_000_000_000_000,
        decreases cs@.len() - n,
    {
        assert(views[n as int] == cs@[n as int]@);
        assert(cluster_valid(views[n as int]));
        if cs[n].pattern == pattern {
            sum = sum + cs[n].amount as i128;
        }
        n = n + 1;
    }
    sum
}

fn bpm_of(cs: &[PatternCluster], pattern: ManiaPattern) -> (r: i128)
    ensures
        r == bar_bpm(cluster_views(cs@), pattern, cs@.len()),
{
    let ghost views = cluster_views(cs@);
    let mut most: i128 = 0;
    let mut n: usize = 0;
    while n < cs.len()
        invariant
            n <= cs@.len(),
            views == cluster_views(cs@),
            most == bar_bpm(views, pattern, n as nat),
        decreases cs@.len() - n,
    {
        assert(views[n as int] == cs@[n as int]@);
        if cs[n].pattern == pattern && cs[n].bpm > most {
            most = cs[n].bpm;
        }
        n = n + 1;
    }
    most
}

fn kinds_of_pattern(cs: &[PatternCluster], pattern: ManiaPattern) -> (r: Vec<BarKind>)
    ensures
        kind_views(r@) == bar_kinds(cluster_views(cs@), pattern, cs@.len()),
{
    let ghost views = cluster_views(cs@);
    let mut out: Vec<BarKind> = Vec::new();
    let mut n: usize = 0;
    assert(kind_views(out@) =~= bar_kinds(views, pattern, 0));
    while n < cs.len()
        invariant
            n <= cs@.len(),
            views == cluster_views(cs@),
            kind_views(out@) == bar_kinds(views, pattern, n as nat),
        decreases cs@.len() - n,
    {
        assert(views[n as int] == cs@[n as int]@);
        if cs[n].pattern == pattern {
            add_cluster(&mut out, &cs[n]);
        }
        n = n + 1;
    }
    out
}

/// The bars of clusters.
pub fn display_bars(cs: &[PatternCluster]) -> (r: Vec<PatternBar>)
    requires
        cs@.len() <= 18,
        clusters_valid(cluster_views(cs@)),
    ensures
        bar_views(r@) == bars_of(cluster_views(cs@)),
{
    let ghost views = cluster_views(cs@);
    let patterns = patterns_in(cs);
    let five: usize = if patterns.len() < 5 {
        patterns.len()
    } else {
        5
    };
    let mut most: i128 = 1;
    let mut n: usize = 0;
    while n < five
        invariant
            n <= five <= patterns@.len(),
            cs@.len() <= 18,
            views == cluster_views(cs@),
            clusters_valid(views),
            most == largest_amount(views, patterns@, n as nat),
            1 <= most <= 1_800_000_000_000_000_000,
        decreases five - n,
    {
        let a: i128 = amount_of(cs, patterns[n]);
        if a > most {
            most = a;
        }
        n = n + 1;
    }
    let mut out: Vec<PatternBar> = Vec::new();
    let mut k: usize = 0;
    while k < patterns.len()
        invariant
            k <= patterns@.len(),
            cs@.len() <= 18,
            views == cluster_views(cs@),
            clusters_valid(views),
            1 <= most <= 1_800_000_000_000_000_000,
            out@.len() == k,
            forall|i: int|
                0 <= i < k ==> (#[trigger] out@[i])@ == bar_of(views, patterns@[i], most as int),
        decreases patterns@.len() - k,
    {
        let pattern = patterns[k];
        let amount: i128 = amount_of(cs, pattern);
        let shown: i128 = if amount <= most {
            amount
        } else {
            most
        };
        let kinds = kinds_of_pattern(cs, pattern);
        proof {
            lemma_bar_kinds(views, pattern, views.len());
        }
        let bar = PatternBar {
            pattern,
            amount,
            bpm: bpm_of(cs, pattern),
            relative: Ratio { num: shown, den: most },
            specific_types: rank_kinds(kinds.as_slice()),
        };
        assert(bar@ =~= bar_of(views, pattern, most as int));
        out.push(bar);
        k = k + 1;
    }
    assert(bar_views(out@) =~= bars_of(views));
    out
}

/// The features of a chart with such stretches and clusters. Its span must
/// have no more windows than can be counted.
pub fn derive(chart: &Chart, ps: &[FoundPattern], cs: &[PatternCluster]) -> (r: MmaFeatures)
    requires
        chart@.valid(),
        chart@.keys <= u32::MAX,
        all_valid(ps@),
        cs@.len() <= 18,
        clusters_valid(cluster_views(cs@)),
        window_count(span_of(chart@)) <= usize::MAX,
    ensures
        r@ == features_of(chart@, ps@, cluster_views(cs@)),
{
    let ghost c = chart@;
    let ghost views = cluster_views(cs@);
    let lasting: i64 = chart.duration();
    let span: i64 = if lasting >= 1 {
        lasting
    } else {
        1
    };
    proof {
        lemma_windows(span as int);
    }
    let count: usize = ((span + WINDOW_MS - 1) / WINDOW_MS) as usize;
    let notes = notes_by_window(chart, span, count);
    let (from, to) = window_bounds(span, count - 1);
    let last: i128 = if to - from >= SHORTEST_MS {
        (to - from) as i128
    } else {
        SHORTEST_MS as i128
    };
    let keys = keys_of(notes.as_slice(), last, Ghost(c));
    let order = sort_order(keys.as_slice());
    let high: usize = ((count as i128 - 1) * 19 / 20) as usize;
    let half: usize = (count - 1) / 2;
    assert(positions(order@)[high as int] == order@[high as int]);
    assert(positions(order@)[half as int] == order@[half as int]);
    let peak_at: usize = order[high];
    let middle_at: usize = order[half];
    assert(peak_at == peak_window(c));
    assert(middle_at == middle_window(c));
    let peak: i128 = keys[peak_at];
    let middle: i128 = keys[middle_at];
    assert(peak == density_key(c, peak_window(c)));
    assert(middle == density_key(c, middle_window(c)));
    let longest: i64 = run_length(keys.as_slice(), peak, span, Ghost(c));
    let mut coverage: Vec<Ratio> = Vec::new();
    let mut variation: Vec<Ratio> = Vec::new();
    let mut k: usize = 0;
    while k < 6
        invariant
            k <= 6,
            all_valid(ps@),
            1 <= span <= SPAN_LIMIT,
            count == window_count(span as int),
            coverage@.len() == k,
            variation@.len() == k,
            forall|i: int|
                0 <= i < k ==> #[trigger] coverage@[i] == coverage_of(
                    ps@,
                    ManiaPattern::at(i),
                    span as int,
                ),
            forall|i: int|
                0 <= i < k ==> #[trigger] variation@[i] == variation_of(
                    ps@,
                    ManiaPattern::at(i),
                    span as int,
                ),
        decreases 6 - k,
    {
        let pattern = ManiaPattern::from_index(k);
        let spans = spans_of_pattern(ps, pattern, span);
        proof {
            lemma_inside(spans@, span as int);
        }
        let covered: i64 = union_length(spans.as_slice());
        coverage.push(Ratio { num: covered as i128, den: span as i128 });
        variation.push(vary(spans.as_slice(), span, count, Ghost(ps@), Ghost(pattern)));
        k = k + 1;
    }
    let every = spans_of_all(ps, span);
    proof {
        lemma_inside(every@, span as int);
    }
    let shown: i64 = union_length(every.as_slice());
    let (rows, total) = count_rows(chart, 1);
    let (chords, _) = count_rows(chart, 2);
    let large: i128 = (chart.keys as i128 + 1) / 2;
    let (large_chords, _) = count_rows(chart, large);
    let peak_length: i128 = if peak_at == count - 1 {
        last
    } else {
        WINDOW_MS as i128
    };
    let middle_length: i128 = if middle_at == count - 1 {
        last
    } else {
        WINDOW_MS as i128
    };
    assert(0 <= notes@[peak_at as int]);
    assert(0 <= notes@[middle_at as int]);
    let sustained_share = if peak == 0 {
        Ratio { num: 0, den: 1 }
    } else {
        Ratio { num: middle, den: peak }
    };
    let silent = count_silent(notes.as_slice(), Ghost(c));
    let r = MmaFeatures {
        coverage,
        subtypes: cover_kinds(ps, span),
        bars: display_bars(cs),
        avg_nps: Ratio { num: total * 1000, den: span as i128 },
        peak_nps: Ratio { num: notes[peak_at] * 1000, den: peak_length },
        sustain_nps: Ratio { num: notes[middle_at] * 1000, den: middle_length },
        longest_run_ms: longest,
        sustained_share,
        longest_run_share: Ratio { num: longest as i128, den: span as i128 },
        gap_share: Ratio { num: silent, den: count as i128 },
        variation,
        note_count: total,
        row_count: rows,
        chord_rate: Ratio::or_zero(chords, rows),
        large_chord_rate: Ratio::or_zero(large_chords, rows),
        unclassified: Ratio { num: (span - shown) as i128, den: span as i128 },
    };
    proof {
        let f = features_of(c, ps@, views);
        assert(r@.coverage =~= f.coverage);
        assert(r@.variation =~= f.variation);
        assert(r@ =~= f);
    }
    r
}

pub(crate) proof fn lemma_pattern_spans(ps: Seq<FoundPattern>, pattern: ManiaPattern, span: int, n: nat)
    requires
        all_valid(ps),
        1 <= span <= SPAN_LIMIT,
        n <= ps.len(),
    ensures
        inside(pattern_spans(ps, pattern, span, n), span),
    decreases n,
{
    if n > 0 {
        lemma_pattern_spans(ps, pattern, span, (n - 1) as nat);
        assert(stretch_valid(ps[n - 1]));
    }
}

pub(crate) proof fn lemma_kind_spans(ps: Seq<FoundPattern>, kind: Subtype, span: int, n: nat)
    requires
        all_valid(ps),
        1 <= span <= SPAN_LIMIT,
        n <= ps.len(),
    ensures
        inside(kind_spans(ps, kind, span, n), span),
    decreases n,
{
    if n > 0 {
        lemma_kind_spans(ps, kind, span, (n - 1) as nat);
        assert(stretch_valid(ps[n - 1]));
    }
}

/// What a pattern or a kind covers is a share of the whole chart, and so is
/// what none covers. Patterns may overlap, so their shares need not add up to
/// one.
pub proof fn law_coverage_is_a_share(ps: Seq<FoundPattern>, span: int)
    requires
        all_valid(ps),
        1 <= span <= SPAN_LIMIT,
    ensures
        forall|pattern: ManiaPattern| #[trigger] coverage_of(ps, pattern, span).is_share(),
        forall|i: int|
            0 <= i < kind_coverage(ps, span).len() ==> (#[trigger] kind_coverage(
                ps,
                span,
            )[i]).1.is_share(),
        uncovered_share(ps, span).is_share(),
{
    assert forall|pattern: ManiaPattern| #[trigger]
        coverage_of(ps, pattern, span).is_share() by {
        lemma_pattern_spans(ps, pattern, span, ps.len());
        lemma_inside(pattern_spans(ps, pattern, span, ps.len()), span);
    }
    assert forall|i: int| 0 <= i < kind_coverage(ps, span).len() implies (#[trigger] kind_coverage(
        ps,
        span,
    )[i]).1.is_share() by {
        let kind = kinds_seen(ps, ps.len())[i];
        lemma_kind_spans(ps, kind, span, ps.len());
        lemma_inside(kind_spans(ps, kind, span, ps.len()), span);
    }
    let spans = all_spans(ps, span);
    assert(inside(spans, span)) by {
        assert forall|i: int| 0 <= i < spans.len() implies 0 <= (#[trigger] spans[i]).0
            <= SPAN_LIMIT && 0 <= spans[i].1 <= span by {
            assert(stretch_valid(ps[i]));
        }
    }
    lemma_inside(spans, span);
}

pub(crate) proof fn lemma_key_fits(c: ChartView, w: int)
    requires
        c.valid(),
        c.keys <= u32::MAX,
        c.notes.len() <= u64::MAX,
        0 <= w < window_count(span_of(c)),
    ensures
        0 <= window_notes(c, w, c.notes.len()) * 4000 <= i128::MAX,
        1 <= last_length(span_of(c)) <= WINDOW_MS,
        density_key(c, w) == window_notes(c, w, c.notes.len()) * (if w == window_count(span_of(c))
            - 1 {
            WINDOW_MS as int
        } else {
            last_length(span_of(c))
        }),
        density_of(c, w).num == window_notes(c, w, c.notes.len()) * 1000,
        density_key(c, w) >= 0,
{
    let n = c.notes.len();
    let span = span_of(c);
    lemma_span(c);
    lemma_windows(span);
    lemma_window_notes(c, w, n);
    let (x, l) = (window_notes(c, w, n) as int, last_length(span));
    assert(0 <= x * 4000 <= i128::MAX) by (nonlinear_arith)
        requires
            0 <= x <= n * 0xffff_ffff,
            n <= u64::MAX,
    ;
    assert(0 <= x * l <= x * 4000) by (nonlinear_arith)
        requires
            0 <= x,
            1 <= l <= 4000,
    ;
}

/// The keys of windows order as their densities do.
pub proof fn law_density_keys_order(c: ChartView, a: int, b: int)
    requires
        c.valid(),
        c.keys <= u32::MAX,
        c.notes.len() <= u64::MAX,
        0 <= a < window_count(span_of(c)),
        0 <= b < window_count(span_of(c)),
    ensures
        density_key(c, a) <= density_key(c, b) <==> density_of(c, a).num * density_of(c, b).den
            <= density_of(c, b).num * density_of(c, a).den,
{
    lemma_key_fits(c, a);
    lemma_key_fits(c, b);
    let n = c.notes.len();
    let (x, y) = (window_notes(c, a, n) as int, window_notes(c, b, n) as int);
    let (d, e) = (density_of(c, a).den as int, density_of(c, b).den as int);
    let l = last_length(span_of(c));
    assert(x * 1000 * e <= y * 1000 * d <==> x * e <= y * d) by (nonlinear_arith);
    if d == e {
        assert(x * e <= y * d <==> x <= y) by (nonlinear_arith)
            requires
                d == e,
                d > 0,
        ;
        assert(x * l <= y * l <==> x <= y) by (nonlinear_arith)
            requires
                l > 0,
        ;
    }
}

/// The middle window is no denser than the peak, no run of windows is longer
/// than the chart, and no more windows are silent than there are.
pub proof fn law_temporal_features_are_shares(
    c: ChartView,
    ps: Seq<FoundPattern>,
    cs: Seq<ClusterView>,
)
    requires
        c.valid(),
        c.keys <= u32::MAX,
        c.notes.len() <= u64::MAX,
    ensures
        features_of(c, ps, cs).sustained_share.is_share(),
        features_of(c, ps, cs).longest_run_share.is_share(),
        features_of(c, ps, cs).gap_share.is_share(),
{
    let span = span_of(c);
    let n = window_count(span);
    lemma_span(c);
    lemma_windows(span);
    let keys = density_keys(c);
    law_sorting_is_stable(keys, keys.len());
    let order = sorted_order(keys);
    let (high, half) = ((n - 1) * 19 / 20, (n - 1) * 1 / 2);
    assert(0 <= half <= high < n);
    assert(keys[order[half]] <= keys[order[high]]);
    lemma_key_fits(c, middle_window(c));
    lemma_longest_run(c, n as nat);
    lemma_silent(c, n as nat);
}

pub(crate) proof fn lemma_span(c: ChartView)
    requires
        c.valid(),
    ensures
        1 <= span_of(c) <= SPAN_LIMIT,
{
    let k = c.notes.len() - 1;
    assert(-TIME_LIMIT <= c.notes[0].time <= TIME_LIMIT);
    assert(-TIME_LIMIT <= c.notes[k].time <= TIME_LIMIT);
}

proof fn lemma_longest_run(c: ChartView, n: nat)
    requires
        c.valid(),
        n <= window_count(span_of(c)),
    ensures
        0 <= run_before(c, n) <= window_reach(c, n),
        0 <= longest_run(c, n) <= window_reach(c, n),
        n > 0 ==> window_reach(c, n) <= span_of(c),
    decreases n,
{
    let span = span_of(c);
    lemma_span(c);
    lemma_windows(span);
    if n > 0 {
        lemma_longest_run(c, (n - 1) as nat);
        assert(window_end(span, n - 1) >= window_start(n - 1));
    }
}

/// Where the first `n` windows end.
spec fn window_reach(c: ChartView, n: nat) -> int {
    if n == 0 {
        0
    } else {
        window_end(span_of(c), n - 1)
    }
}

proof fn lemma_silent(c: ChartView, n: nat)
    ensures
        silent_windows(c, n) <= n,
    decreases n,
{
    if n > 0 {
        lemma_silent(c, (n - 1) as nat);
    }
}

} // verus!
