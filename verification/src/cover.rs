//! How much of a chart patterns cover, told millisecond by millisecond, and what
//! the clusters of a pattern come to together.

use crate::chart::ChartView;
use crate::clustering::{kinds_seen, ClusterView};
use crate::counting::{how_many, lemma_count, lemma_counts_add, lemma_counts_agree, sum_of};
use crate::course::{ends_at, is_window, lasts};
use crate::finder::{all_valid, stretch_valid, FoundPattern, Subtype, SPAN_LIMIT};
use crate::intervals::{covered, measure, union_measure, within_span, BOUND};
use crate::outline::{is_share, pattern_order};
use crate::profile::{
    all_spans, bar_amount, bar_bpm, bar_patterns, bars_of, cover_changes, coverage_of, distance,
    features_of, kind_spans, largest_amount, lemma_span, lemma_windows, pattern_spans, span_of,
    variation_of, window_count, window_cover, window_end, window_start, window_width,
};
use crate::types::ManiaPattern;
use vstd::prelude::*;

verus! {

/// Whether a stretch lasts over the millisecond `t`.
pub open spec fn lasts_over(p: FoundPattern, t: int) -> bool {
    p.start <= t < p.end
}

/// Whether any stretch of a pattern lasts over the millisecond `t`.
pub open spec fn shown_at(ps: Seq<FoundPattern>, pattern: ManiaPattern, t: int) -> bool {
    exists|i: int|
        0 <= i < ps.len() && (#[trigger] ps[i]).pattern == pattern && lasts_over(ps[i], t)
}

/// Whether any stretch of a kind lasts over the millisecond `t`.
pub open spec fn kind_at(ps: Seq<FoundPattern>, kind: Subtype, t: int) -> bool {
    exists|i: int|
        0 <= i < ps.len() && (#[trigger] ps[i]).specific_type == Some(kind) && lasts_over(ps[i], t)
}

/// Whether any stretch lasts over the millisecond `t`.
pub open spec fn any_at(ps: Seq<FoundPattern>, t: int) -> bool {
    exists|i: int| 0 <= i < ps.len() && lasts_over(#[trigger] ps[i], t)
}

proof fn lemma_pattern_spans(ps: Seq<FoundPattern>, pattern: ManiaPattern, span: int, n: nat, x: int)
    requires
        all_valid(ps),
        n <= ps.len(),
        1 <= span <= SPAN_LIMIT,
    ensures
        covered(pattern_spans(ps, pattern, span, n), x) <==> x < span && exists|i: int|
            0 <= i < n && (#[trigger] ps[i]).pattern == pattern && lasts_over(ps[i], x),
    decreases n,
{
    if n > 0 {
        let m = (n - 1) as nat;
        lemma_pattern_spans(ps, pattern, span, m, x);
        let before = pattern_spans(ps, pattern, span, m);
        let all = pattern_spans(ps, pattern, span, n);
        assert(stretch_valid(ps[m as int]));
        if covered(before, x) {
            let k = choose|k: int| 0 <= k < before.len() && within_span(#[trigger] before[k], x);
            assert(all[k] == before[k]);
            assert(within_span(all[k], x));
        }
        if covered(all, x) {
            let k = choose|k: int| 0 <= k < all.len() && within_span(#[trigger] all[k], x);
            if k < before.len() {
                assert(within_span(before[k], x));
            } else {
                assert(ps[m as int].pattern == pattern && lasts_over(ps[m as int], x));
            }
        }
        if x < span && ps[m as int].pattern == pattern && lasts_over(ps[m as int], x) {
            assert(within_span(all[before.len() as int], x));
        }
    }
}

proof fn lemma_kind_spans(ps: Seq<FoundPattern>, kind: Subtype, span: int, n: nat, x: int)
    requires
        all_valid(ps),
        n <= ps.len(),
        1 <= span <= SPAN_LIMIT,
    ensures
        covered(kind_spans(ps, kind, span, n), x) <==> x < span && exists|i: int|
            0 <= i < n && (#[trigger] ps[i]).specific_type == Some(kind) && lasts_over(ps[i], x),
    decreases n,
{
    if n > 0 {
        let m = (n - 1) as nat;
        lemma_kind_spans(ps, kind, span, m, x);
        let before = kind_spans(ps, kind, span, m);
        let all = kind_spans(ps, kind, span, n);
        assert(stretch_valid(ps[m as int]));
        if covered(before, x) {
            let k = choose|k: int| 0 <= k < before.len() && within_span(#[trigger] before[k], x);
            assert(all[k] == before[k]);
            assert(within_span(all[k], x));
        }
        if covered(all, x) {
            let k = choose|k: int| 0 <= k < all.len() && within_span(#[trigger] all[k], x);
            if k < before.len() {
                assert(within_span(before[k], x));
            } else {
                assert(ps[m as int].specific_type == Some(kind) && lasts_over(ps[m as int], x));
            }
        }
        if x < span && ps[m as int].specific_type == Some(kind) && lasts_over(ps[m as int], x) {
            assert(within_span(all[before.len() as int], x));
        }
    }
}

/// What intervals cover from `from` on, counted.
proof fn lemma_measure(spans: Seq<(i64, i64)>, from: int, n: nat, p: spec_fn(int) -> bool)
    requires
        forall|x: int| 0 <= x < n ==> #[trigger] p(x) == covered(spans, from + x),
    ensures
        measure(spans, from, from + n) == how_many(n, p),
    decreases n,
{
    if n > 0 {
        lemma_measure(spans, from, (n - 1) as nat, p);
        assert(p(n - 1) == covered(spans, from + (n - 1)));
    }
}

proof fn lemma_nothing(spans: Seq<(i64, i64)>, lo: int, mid: int, hi: int)
    requires
        lo <= mid <= hi,
        forall|x: int| mid <= x < hi ==> !#[trigger] covered(spans, x),
    ensures
        measure(spans, lo, hi) == measure(spans, lo, mid),
    decreases hi - mid,
{
    if mid < hi {
        lemma_nothing(spans, lo, mid, hi - 1);
        assert(!covered(spans, hi - 1));
    }
}

proof fn lemma_from(spans: Seq<(i64, i64)>, lo: int, mid: int, hi: int)
    requires
        lo <= mid <= hi,
        forall|x: int| lo <= x < mid ==> !#[trigger] covered(spans, x),
    ensures
        measure(spans, lo, hi) == measure(spans, mid, hi),
    decreases hi - mid,
{
    if mid < hi {
        lemma_from(spans, lo, mid, hi - 1);
    } else {
        lemma_nothing(spans, lo, lo, hi);
    }
}

pub(crate) proof fn lemma_union(spans: Seq<(i64, i64)>, span: int, p: spec_fn(int) -> bool)
    requires
        0 <= span <= BOUND,
        forall|x: int| #[trigger] covered(spans, x) ==> 0 <= x < span,
        forall|x: int| 0 <= x < span ==> #[trigger] p(x) == covered(spans, x),
    ensures
        union_measure(spans) == how_many(span as nat, p),
{
    lemma_from(spans, -BOUND as int, 0, BOUND as int);
    lemma_nothing(spans, 0, span, BOUND as int);
    assert forall|x: int| 0 <= x < span implies #[trigger] p(x) == covered(spans, 0 + x) by {}
    lemma_measure(spans, 0, span as nat, p);
}

proof fn lemma_coverage(ps: Seq<FoundPattern>, pattern: ManiaPattern, span: int)
    requires
        all_valid(ps),
        1 <= span <= SPAN_LIMIT,
    ensures
        coverage_of(ps, pattern, span).num == how_many(span as nat, |t: int| shown_at(ps, pattern, t)),
        coverage_of(ps, pattern, span).den == span,
{
    let spans = pattern_spans(ps, pattern, span, ps.len());
    let p = |t: int| shown_at(ps, pattern, t);
    assert forall|x: int| #[trigger] covered(spans, x) implies 0 <= x < span by {
        lemma_pattern_spans(ps, pattern, span, ps.len(), x);
        let i = choose|i: int|
            0 <= i < ps.len() && (#[trigger] ps[i]).pattern == pattern && lasts_over(ps[i], x);
        assert(stretch_valid(ps[i]));
    }
    assert forall|x: int| 0 <= x < span implies #[trigger] p(x) == covered(spans, x) by {
        lemma_pattern_spans(ps, pattern, span, ps.len(), x);
    }
    lemma_union(spans, span, p);
    lemma_count(span as nat, p);
}

/// The coverage of a pattern is the share of the milliseconds of a chart over
/// which a stretch of it lasts; what is not classified is the share over which
/// no stretch lasts.
pub proof fn law_coverage_is_counted(c: ChartView, ps: Seq<FoundPattern>, cs: Seq<ClusterView>)
    requires
        c.valid(),
        all_valid(ps),
    ensures
        ({
            let f = features_of(c, ps, cs);
            let n = lasts(c) as nat;
            &&& f.coverage.len() == 6
            &&& forall|k: int|
                0 <= k < 6 ==> (#[trigger] f.coverage[k]).den == n && f.coverage[k].num == how_many(
                    n,
                    |t: int| shown_at(ps, pattern_order()[k], t),
                )
            &&& f.unclassified.den == n
            &&& f.unclassified.num == how_many(n, |t: int| !any_at(ps, t))
        }),
{
    let f = features_of(c, ps, cs);
    let span = span_of(c);
    let n = span as nat;
    lemma_span(c);
    assert(lasts(c) == span);
    assert forall|k: int| 0 <= k < 6 implies (#[trigger] f.coverage[k]).den == n && f.coverage[k].num
        == how_many(n, |t: int| shown_at(ps, pattern_order()[k], t)) by {
        assert(pattern_order()[k] == ManiaPattern::at(k));
        lemma_coverage(ps, ManiaPattern::at(k), span);
        lemma_counts_agree(
            n,
            |t: int| shown_at(ps, pattern_order()[k], t),
            |t: int| shown_at(ps, ManiaPattern::at(k), t),
        );
    }
    let spans = all_spans(ps, span);
    let p = |t: int| any_at(ps, t);
    assert forall|x: int| #[trigger] covered(spans, x) implies 0 <= x < span && any_at(ps, x) by {
        let k = choose|k: int| 0 <= k < spans.len() && within_span(#[trigger] spans[k], x);
        assert(stretch_valid(ps[k]));
        assert(lasts_over(ps[k], x));
    }
    assert forall|x: int| 0 <= x < span implies #[trigger] p(x) == covered(spans, x) by {
        if any_at(ps, x) {
            let i = choose|i: int| 0 <= i < ps.len() && lasts_over(#[trigger] ps[i], x);
            assert(within_span(spans[i], x));
        }
    }
    lemma_union(spans, span, p);
    let q = |t: int| !any_at(ps, t);
    let all = |t: int| true;
    lemma_counts_add(n, p, q, all);
    assert forall|i: int| 0 <= i < n && #[trigger] all(i) implies p(i) || q(i) by {}
    lemma_count(n, all);
    lemma_count(n, p);
    lemma_count(n, q);
}

/// The kinds of a chart are those of its stretches, each once, and the share of
/// a kind is that of the milliseconds over which a stretch of it lasts.
pub proof fn law_kinds_are_counted(c: ChartView, ps: Seq<FoundPattern>, cs: Seq<ClusterView>)
    requires
        c.valid(),
        all_valid(ps),
    ensures
        ({
            let f = features_of(c, ps, cs);
            let n = lasts(c) as nat;
            &&& forall|k: int|
                0 <= k < f.subtypes.len() ==> (#[trigger] f.subtypes[k]).1.den == n
                    && f.subtypes[k].1.num == how_many(n, |t: int| kind_at(ps, f.subtypes[k].0, t))
            &&& forall|k: int, l: int|
                0 <= k < l < f.subtypes.len() ==> (#[trigger] f.subtypes[k]).0 != (
                #[trigger] f.subtypes[l]).0
            &&& forall|i: int|
                0 <= i < ps.len() && (#[trigger] ps[i]).specific_type is Some ==> exists|k: int|
                    0 <= k < f.subtypes.len() && (#[trigger] f.subtypes[k]).0
                        == ps[i].specific_type->0
        }),
{
    let f = features_of(c, ps, cs);
    let span = span_of(c);
    let n = span as nat;
    lemma_span(c);
    lemma_kinds_seen(ps, ps.len());
    let kinds = kinds_seen(ps, ps.len());
    assert forall|k: int| 0 <= k < f.subtypes.len() implies (#[trigger] f.subtypes[k]).1.den == n
        && f.subtypes[k].1.num == how_many(n, |t: int| kind_at(ps, f.subtypes[k].0, t)) by {
        let kind = kinds[k];
        assert(f.subtypes[k].0 == kind);
        let spans = kind_spans(ps, kind, span, ps.len());
        let p = |t: int| kind_at(ps, kind, t);
        assert forall|x: int| #[trigger] covered(spans, x) implies 0 <= x < span by {
            lemma_kind_spans(ps, kind, span, ps.len(), x);
            let i = choose|i: int|
                0 <= i < ps.len() && (#[trigger] ps[i]).specific_type == Some(kind) && lasts_over(
                    ps[i],
                    x,
                );
            assert(stretch_valid(ps[i]));
        }
        assert forall|x: int| 0 <= x < span implies #[trigger] p(x) == covered(spans, x) by {
            lemma_kind_spans(ps, kind, span, ps.len(), x);
        }
        lemma_union(spans, span, p);
        lemma_count(n, p);
    }
    assert forall|k: int, l: int| 0 <= k < l < f.subtypes.len() implies (#[trigger] f.subtypes[k]).0
        != (#[trigger] f.subtypes[l]).0 by {
        assert(kinds[k] != kinds[l]);
    }
    assert forall|i: int| 0 <= i < ps.len() && (#[trigger] ps[i]).specific_type
        is Some implies exists|k: int|
        0 <= k < f.subtypes.len() && (#[trigger] f.subtypes[k]).0 == ps[i].specific_type->0 by {
        assert(kinds.contains(ps[i].specific_type->0));
        let k = choose|k: int| 0 <= k < kinds.len() && kinds[k] == ps[i].specific_type->0;
        assert(f.subtypes[k].0 == kinds[k]);
    }
}

pub(crate) proof fn lemma_kinds_seen(ps: Seq<FoundPattern>, n: nat)
    requires
        n <= ps.len(),
    ensures
        kinds_seen(ps, n).no_duplicates(),
        forall|i: int|
            0 <= i < n && (#[trigger] ps[i]).specific_type is Some ==> kinds_seen(ps, n).contains(
                ps[i].specific_type->0,
            ),
        forall|kind: Subtype| #[trigger]
            kinds_seen(ps, n).contains(kind) ==> exists|i: int|
                0 <= i < n && (#[trigger] ps[i]).specific_type == Some(kind),
    decreases n,
{
    if n > 0 {
        let m = (n - 1) as nat;
        lemma_kinds_seen(ps, m);
        let before = kinds_seen(ps, m);
        let all = kinds_seen(ps, n);
        assert forall|i: int| 0 <= i < n && (#[trigger] ps[i]).specific_type
            is Some implies all.contains(ps[i].specific_type->0) by {
            let kind = ps[i].specific_type->0;
            if before.contains(kind) {
                let k = choose|k: int| 0 <= k < before.len() && before[k] == kind;
                assert(all[k] == kind);
            } else {
                assert(all[before.len() as int] == kind);
            }
        }
        assert forall|kind: Subtype| #[trigger] all.contains(kind) implies exists|i: int|
            0 <= i < n && (#[trigger] ps[i]).specific_type == Some(kind) by {
            let k = choose|k: int| 0 <= k < all.len() && all[k] == kind;
            if k < before.len() {
                assert(before.contains(kind));
            } else {
                assert(ps[m as int].specific_type == Some(kind));
            }
        }
    }
}

/// How many milliseconds of window `w` a pattern covers.
pub open spec fn shown_in(c: ChartView, ps: Seq<FoundPattern>, pattern: ManiaPattern, w: int) -> int {
    how_many((ends_at(c, w) - 4000 * w) as nat, |t: int| shown_at(ps, pattern, 4000 * w + t)) as int
}

/// The cover of window `w` over the denominator that all windows share: four
/// seconds times the length of the last window.
pub open spec fn scaled_cover(
    c: ChartView,
    ps: Seq<FoundPattern>,
    pattern: ManiaPattern,
    w: int,
    last: int,
) -> int {
    if is_window(c, w + 1) {
        shown_in(c, ps, pattern, w) * last
    } else {
        shown_in(c, ps, pattern, w) * 4000
    }
}

/// The distance of two numbers.
pub open spec fn apart(a: int, b: int) -> int {
    if a < b {
        b - a
    } else {
        a - b
    }
}

proof fn lemma_window_cover(c: ChartView, ps: Seq<FoundPattern>, pattern: ManiaPattern, w: int)
    requires
        c.valid(),
        all_valid(ps),
        0 <= w < window_count(span_of(c)),
    ensures
        window_cover(ps, pattern, span_of(c), w) == shown_in(c, ps, pattern, w),
        window_width(span_of(c), w) == ends_at(c, w) - 4000 * w,
        is_window(c, w + 1) <==> w + 1 < window_count(span_of(c)),
        0 <= shown_in(c, ps, pattern, w) <= 4000,
{
    let span = span_of(c);
    lemma_span(c);
    lemma_windows(span);
    assert(0 <= window_start(w) < window_end(span, w) <= span);
    let spans = pattern_spans(ps, pattern, span, ps.len());
    let n = (ends_at(c, w) - 4000 * w) as nat;
    let p = |t: int| shown_at(ps, pattern, 4000 * w + t);
    assert forall|x: int| 0 <= x < n implies #[trigger] p(x) == covered(spans, 4000 * w + x) by {
        lemma_pattern_spans(ps, pattern, span, ps.len(), 4000 * w + x);
    }
    lemma_measure(spans, 4000 * w, n, p);
    lemma_count(n, p);
}

proof fn lemma_changes(c: ChartView, ps: Seq<FoundPattern>, pattern: ManiaPattern, n: nat, last: int)
    requires
        c.valid(),
        all_valid(ps),
        1 <= n < window_count(span_of(c)),
        last > 0,
    ensures
        cover_changes(ps, pattern, span_of(c), n) * last == sum_of(
            (n - 1) as nat,
            |w: int|
                apart(
                    scaled_cover(c, ps, pattern, w + 1, last),
                    scaled_cover(c, ps, pattern, w, last),
                ),
        ),
        0 <= cover_changes(ps, pattern, span_of(c), n) <= 4000 * n,
    decreases n,
{
    if n > 1 {
        lemma_changes(c, ps, pattern, (n - 1) as nat, last);
        lemma_window_cover(c, ps, pattern, n - 1);
        lemma_window_cover(c, ps, pattern, n - 2);
        let a = window_cover(ps, pattern, span_of(c), n - 1) as int;
        let b = window_cover(ps, pattern, span_of(c), n - 2) as int;
        let before = cover_changes(ps, pattern, span_of(c), (n - 1) as nat);
        assert((before + distance(a, b)) * last == before * last + distance(a, b) * last)
            by (nonlinear_arith);
        assert(distance(a, b) * last == apart(a * last, b * last)) by (nonlinear_arith)
            requires
                last > 0,
                distance(a, b) == if a >= b {
                    a - b
                } else {
                    b - a
                },
                apart(a * last, b * last) == if a * last < b * last {
                    b * last - a * last
                } else {
                    a * last - b * last
                },
        ;
    }
}

/// The variation of a pattern is the mean change of its share from one window to
/// the next; there is none in a chart of one window.
pub proof fn law_variation_is_the_mean_change(
    c: ChartView,
    ps: Seq<FoundPattern>,
    cs: Seq<ClusterView>,
    k: int,
)
    requires
        c.valid(),
        all_valid(ps),
        0 <= k < 6,
    ensures
        ({
            let f = features_of(c, ps, cs);
            let n = f.gap_share.den as int;
            let last = lasts(c) - 4000 * (n - 1);
            let pattern = pattern_order()[k];
            &&& n < 2 ==> f.variation[k].num == 0
            &&& n >= 2 ==> is_share(
                f.variation[k],
                sum_of(
                    (n - 1) as nat,
                    |w: int|
                        apart(
                            scaled_cover(c, ps, pattern, w + 1, last),
                            scaled_cover(c, ps, pattern, w, last),
                        ),
                ),
                4000 * last * (n - 1),
            )
        }),
{
    let f = features_of(c, ps, cs);
    let span = span_of(c);
    let n = window_count(span);
    lemma_span(c);
    lemma_windows(span);
    let pattern = ManiaPattern::at(k);
    assert(pattern_order()[k] == pattern);
    assert(f.variation[k] == variation_of(ps, pattern, span));
    assert(f.gap_share.den == n);
    if n >= 2 {
        let last = lasts(c) - 4000 * (n - 1);
        lemma_window_cover(c, ps, pattern, n - 1);
        lemma_window_cover(c, ps, pattern, n - 2);
        assert(window_width(span, n - 1) == last);
        lemma_changes(c, ps, pattern, (n - 1) as nat, last);
        let changes = cover_changes(ps, pattern, span, (n - 1) as nat);
        let a = window_cover(ps, pattern, span, n - 1) as int;
        let b = window_cover(ps, pattern, span, n - 2) as int;
        let total = changes * last + distance(a * 4000, b * last);
        assert(0 <= b * last <= 16_000_000) by (nonlinear_arith)
            requires
                0 <= b <= 4000,
                1 <= last <= 4000,
        ;
        assert(0 <= changes * last <= 16_000_000 * (n - 1)) by (nonlinear_arith)
            requires
                0 <= changes <= 4000 * (n - 1),
                1 <= last <= 4000,
        ;
        assert(0 < 4000 * last * (n - 1) <= 16_000_000 * (n - 1)) by (nonlinear_arith)
            requires
                1 <= last <= 4000,
                n >= 2,
        ;
        assert(total == sum_of(
            (n - 1) as nat,
            |w: int|
                apart(
                    scaled_cover(c, ps, pattern, w + 1, last),
                    scaled_cover(c, ps, pattern, w, last),
                ),
        ));
        assert(f.variation[k].num == total);
        assert(f.variation[k].den == 4000 * last * (n - 1));
    }
}

proof fn lemma_bar(cs: Seq<ClusterView>, pattern: ManiaPattern, n: nat)
    requires
        n <= cs.len(),
    ensures
        bar_amount(cs, pattern, n) == sum_of(
            n,
            |i: int|
                if cs[i].pattern == pattern {
                    cs[i].amount
                } else {
                    0
                },
        ),
        bar_bpm(cs, pattern, n) >= 0,
        forall|i: int|
            0 <= i < n && (#[trigger] cs[i]).pattern == pattern ==> cs[i].bpm <= bar_bpm(
                cs,
                pattern,
                n,
            ),
        bar_bpm(cs, pattern, n) > 0 ==> exists|i: int|
            0 <= i < n && (#[trigger] cs[i]).pattern == pattern && cs[i].bpm == bar_bpm(
                cs,
                pattern,
                n,
            ),
    decreases n,
{
    if n > 0 {
        let m = (n - 1) as nat;
        lemma_bar(cs, pattern, m);
        let before = bar_bpm(cs, pattern, m);
        if bar_bpm(cs, pattern, n) == before && before > 0 {
            let i = choose|i: int|
                0 <= i < m && (#[trigger] cs[i]).pattern == pattern && cs[i].bpm == before;
            assert(cs[i].pattern == pattern);
        } else if bar_bpm(cs, pattern, n) > before {
            assert(cs[m as int].pattern == pattern);
        }
    }
}

proof fn lemma_bar_patterns(cs: Seq<ClusterView>, n: nat)
    requires
        n <= cs.len(),
    ensures
        bar_patterns(cs, n).no_duplicates(),
        forall|i: int| 0 <= i < n ==> bar_patterns(cs, n).contains((#[trigger] cs[i]).pattern),
    decreases n,
{
    if n > 0 {
        let m = (n - 1) as nat;
        lemma_bar_patterns(cs, m);
        let before = bar_patterns(cs, m);
        let all = bar_patterns(cs, n);
        assert forall|i: int| 0 <= i < n implies all.contains((#[trigger] cs[i]).pattern) by {
            let p = cs[i].pattern;
            if before.contains(p) {
                let k = choose|k: int| 0 <= k < before.len() && before[k] == p;
                assert(all[k] == p);
            } else {
                assert(all[before.len() as int] == p);
            }
        }
    }
}

proof fn lemma_largest(cs: Seq<ClusterView>, patterns: Seq<ManiaPattern>, n: nat)
    requires
        n <= patterns.len(),
    ensures
        largest_amount(cs, patterns, n) >= 1,
        forall|k: int|
            0 <= k < n ==> bar_amount(cs, #[trigger] patterns[k], cs.len()) <= largest_amount(
                cs,
                patterns,
                n,
            ),
        largest_amount(cs, patterns, n) > 1 ==> exists|k: int|
            0 <= k < n && bar_amount(cs, #[trigger] patterns[k], cs.len()) == largest_amount(
                cs,
                patterns,
                n,
            ),
    decreases n,
{
    if n > 0 {
        let m = (n - 1) as nat;
        lemma_largest(cs, patterns, m);
        let before = largest_amount(cs, patterns, m);
        let now = largest_amount(cs, patterns, n);
        if now == before && before > 1 {
            let k = choose|k: int|
                0 <= k < m && bar_amount(cs, #[trigger] patterns[k], cs.len()) == before;
            assert(bar_amount(cs, patterns[k], cs.len()) == now);
        } else if now > before {
            assert(bar_amount(cs, patterns[m as int], cs.len()) == now);
        }
    }
}

/// Each pattern of the clusters has one bar.
pub proof fn law_every_pattern_has_a_bar(
    c: ChartView,
    ps: Seq<FoundPattern>,
    cs: Seq<ClusterView>,
    i: int,
)
    requires
        0 <= i < cs.len(),
    ensures
        ({
            let bars = features_of(c, ps, cs).bars;
            &&& exists|k: int| 0 <= k < bars.len() && (#[trigger] bars[k]).pattern == cs[i].pattern
            &&& forall|k: int, l: int|
                0 <= k < l < bars.len() ==> (#[trigger] bars[k]).pattern != (
                #[trigger] bars[l]).pattern
        }),
{
    let bars = bars_of(cs);
    let patterns = bar_patterns(cs, cs.len());
    lemma_bar_patterns(cs, cs.len());
    assert(patterns.contains(cs[i].pattern));
    let k = choose|k: int| 0 <= k < patterns.len() && patterns[k] == cs[i].pattern;
    assert(bars[k].pattern == patterns[k]);
    assert forall|k: int, l: int| 0 <= k < l < bars.len() implies (#[trigger] bars[k]).pattern != (
    #[trigger] bars[l]).pattern by {
        assert(patterns[k] != patterns[l]);
    }
}

/// A bar adds up the amounts of the clusters of its pattern, and has the fastest
/// of their tempos.
pub proof fn law_bars_gather_clusters(
    c: ChartView,
    ps: Seq<FoundPattern>,
    cs: Seq<ClusterView>,
    k: int,
)
    requires
        0 <= k < features_of(c, ps, cs).bars.len(),
    ensures
        ({
            let bar = features_of(c, ps, cs).bars[k];
            &&& bar.amount == sum_of(
                cs.len(),
                |i: int|
                    if cs[i].pattern == bar.pattern {
                        cs[i].amount
                    } else {
                        0
                    },
            )
            &&& forall|i: int|
                0 <= i < cs.len() && (#[trigger] cs[i]).pattern == bar.pattern ==> cs[i].bpm
                    <= bar.bpm
            &&& bar.bpm > 0 ==> exists|i: int|
                0 <= i < cs.len() && (#[trigger] cs[i]).pattern == bar.pattern && cs[i].bpm
                    == bar.bpm
        }),
{
    let bar = bars_of(cs)[k];
    let p = bar_patterns(cs, cs.len())[k];
    assert(bar.pattern == p);
    lemma_bar(cs, p, cs.len());
    crate::counting::lemma_sums_agree(
        cs.len(),
        |i: int|
            if cs[i].pattern == p {
                cs[i].amount
            } else {
                0
            },
        |i: int|
            if cs[i].pattern == bar.pattern {
                cs[i].amount
            } else {
                0
            },
    );
}

/// The length of a bar is its amount relative to the largest among the first
/// five, and full where it is larger than those.
pub proof fn law_bars_are_relative(c: ChartView, ps: Seq<FoundPattern>, cs: Seq<ClusterView>, k: int)
    requires
        0 <= k < features_of(c, ps, cs).bars.len(),
        forall|i: int|
            0 <= i < features_of(c, ps, cs).bars.len() ==> 0 <= (#[trigger] features_of(
                c,
                ps,
                cs,
            ).bars[i]).amount <= i128::MAX,
    ensures
        ({
            let bars = features_of(c, ps, cs).bars;
            let r = bars[k].relative;
            &&& r.den >= 1
            &&& forall|l: int|
                0 <= l < 5 && l < bars.len() ==> (#[trigger] bars[l]).amount <= r.den
            &&& r.den > 1 ==> exists|l: int|
                0 <= l < 5 && l < bars.len() && (#[trigger] bars[l]).amount == r.den
            &&& bars[k].amount <= r.den ==> r.num == bars[k].amount
            &&& bars[k].amount > r.den ==> r.num == r.den
        }),
{
    let bars = bars_of(cs);
    let patterns = bar_patterns(cs, cs.len());
    let five = if patterns.len() < 5 {
        patterns.len()
    } else {
        5
    };
    lemma_largest(cs, patterns, five);
    let most = largest_amount(cs, patterns, five);
    assert forall|l: int| 0 <= l < bars.len() implies (#[trigger] bars[l]).amount == bar_amount(
        cs,
        patterns[l],
        cs.len(),
    ) by {}
    if most > 1 {
        let l = choose|l: int|
            0 <= l < five && bar_amount(cs, #[trigger] patterns[l], cs.len()) == most;
        assert(bars[l].amount == most);
    }
    assert(bars[k].relative.den == most);
}

} // verus!
