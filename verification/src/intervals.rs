//! How much time intervals cover together.

use crate::order::{is_stable_order, lemma_onto, positions, sort_order};
use vstd::prelude::*;

verus! {

/// Intervals lie within this bound, either way.
pub const BOUND: i64 = 100_000_000_000_000_000;

/// Whether an interval covers the unit that starts at `x`. An interval that
/// ends before it starts covers nothing.
pub open spec fn within_span(span: (i64, i64), x: int) -> bool {
    span.0 <= x < span.1
}

/// Whether any of the intervals covers the unit that starts at `x`.
pub open spec fn covered(spans: Seq<(i64, i64)>, x: int) -> bool {
    exists|i: int| 0 <= i < spans.len() && within_span(#[trigger] spans[i], x)
}

/// How many units from `lo` to `hi` the intervals cover.
pub open spec fn measure(spans: Seq<(i64, i64)>, lo: int, hi: int) -> nat
    decreases hi - lo,
{
    if hi <= lo {
        0
    } else {
        measure(spans, lo, hi - 1) + (if covered(spans, hi - 1) {
            1nat
        } else {
            0
        })
    }
}

/// How many units the intervals cover together.
pub open spec fn union_measure(spans: Seq<(i64, i64)>) -> nat {
    measure(spans, -BOUND as int, BOUND as int)
}

/// Whether intervals lie within the bound.
pub open spec fn bounded(spans: Seq<(i64, i64)>) -> bool {
    forall|i: int|
        0 <= i < spans.len() ==> -BOUND <= (#[trigger] spans[i]).0 <= BOUND && -BOUND <= spans[i].1
            <= BOUND
}

proof fn lemma_measure_same(a: Seq<(i64, i64)>, b: Seq<(i64, i64)>, lo: int, hi: int)
    requires
        forall|x: int| covered(a, x) == covered(b, x),
    ensures
        measure(a, lo, hi) == measure(b, lo, hi),
    decreases hi - lo,
{
    if hi > lo {
        lemma_measure_same(a, b, lo, hi - 1);
        assert(covered(a, hi - 1) == covered(b, hi - 1));
    }
}

/// The length of what two ranges have in common.
spec fn overlap(a: int, b: int, lo: int, hi: int) -> int {
    let from = if a >= lo {
        a
    } else {
        lo
    };
    let to = if b <= hi {
        b
    } else {
        hi
    };
    if to > from {
        to - from
    } else {
        0
    }
}

proof fn lemma_measure_grows(
    small: Seq<(i64, i64)>,
    large: Seq<(i64, i64)>,
    a: int,
    b: int,
    lo: int,
    hi: int,
)
    requires
        forall|x: int| #[trigger] covered(large, x) == (covered(small, x) || a <= x < b),
        forall|x: int| a <= x < b ==> !#[trigger] covered(small, x),
    ensures
        measure(large, lo, hi) == measure(small, lo, hi) + overlap(a, b, lo, hi),
    decreases hi - lo,
{
    if hi > lo {
        lemma_measure_grows(small, large, a, b, lo, hi - 1);
        assert(covered(large, hi - 1) == (covered(small, hi - 1) || a <= hi - 1 < b));
    }
}

/// Intervals within a range cover no more than the range.
pub proof fn law_union_fits(spans: Seq<(i64, i64)>, lo: int, hi: int)
    requires
        -BOUND <= lo <= hi <= BOUND,
        forall|i: int|
            0 <= i < spans.len() ==> (#[trigger] spans[i]).0 >= lo && spans[i].1 <= hi,
    ensures
        union_measure(spans) <= hi - lo,
{
    assert forall|x: int| covered(spans, x) implies lo <= x < hi by {
        let i = choose|i: int| 0 <= i < spans.len() && within_span(#[trigger] spans[i], x);
    }
    lemma_measure_fits(spans, lo, hi, -BOUND as int, BOUND as int);
}

proof fn lemma_measure_fits(spans: Seq<(i64, i64)>, lo: int, hi: int, from: int, to: int)
    requires
        forall|x: int| #[trigger] covered(spans, x) ==> lo <= x < hi,
    ensures
        measure(spans, from, to) <= overlap(lo, hi, from, to),
    decreases to - from,
{
    if to > from {
        lemma_measure_fits(spans, lo, hi, from, to - 1);
        assert(covered(spans, to - 1) ==> lo <= to - 1 < hi);
    }
}

/// The order of intervals does not matter, nor does it how often one occurs:
/// intervals that cover the same cover as much.
pub proof fn law_union_by_coverage(a: Seq<(i64, i64)>, b: Seq<(i64, i64)>)
    requires
        forall|x: int| covered(a, x) == covered(b, x),
    ensures
        union_measure(a) == union_measure(b),
{
    lemma_measure_same(a, b, -BOUND as int, BOUND as int);
}

/// More intervals cover no less.
pub proof fn law_union_grows(spans: Seq<(i64, i64)>, more: (i64, i64))
    ensures
        union_measure(spans) <= union_measure(spans.push(more)),
{
    lemma_more_covers(spans, more, -BOUND as int, BOUND as int);
}

proof fn lemma_more_covers(spans: Seq<(i64, i64)>, more: (i64, i64), lo: int, hi: int)
    ensures
        measure(spans, lo, hi) <= measure(spans.push(more), lo, hi),
    decreases hi - lo,
{
    if hi > lo {
        lemma_more_covers(spans, more, lo, hi - 1);
        if covered(spans, hi - 1) {
            let i = choose|i: int| 0 <= i < spans.len() && within_span(#[trigger] spans[i], hi - 1);
            assert(spans.push(more)[i] == spans[i]);
            assert(covered(spans.push(more), hi - 1));
        }
    }
}

/// How many units the intervals cover together.
pub fn union_length(spans: &[(i64, i64)]) -> (r: i64)
    requires
        bounded(spans@),
    ensures
        r == union_measure(spans@),
        0 <= r <= 2 * BOUND,
{
    let mut keys: Vec<i128> = Vec::new();
    let mut i: usize = 0;
    while i < spans.len()
        invariant
            i <= spans@.len(),
            keys@.len() == i,
            forall|j: int| 0 <= j < i ==> #[trigger] keys@[j] == spans@[j].0,
        decreases spans@.len() - i,
    {
        keys.push(spans[i].0 as i128);
        i = i + 1;
    }
    let order = sort_order(keys.as_slice());
    let ghost places = positions(order@);
    let ghost sorted = Seq::new(order@.len(), |j: int| spans@[order@[j] as int]);
    let mut total: i64 = 0;
    let mut end: i64 = -BOUND;
    let mut n: usize = 0;
    proof {
        assert(is_stable_order(keys@, places, keys@.len()));
        lemma_none(sorted.take(0), -BOUND as int, BOUND as int);
    }
    while n < order.len()
        invariant
            n <= order@.len(),
            order@.len() == spans@.len(),
            keys@.len() == spans@.len(),
            forall|j: int| 0 <= j < keys@.len() ==> #[trigger] keys@[j] == spans@[j].0,
            places == positions(order@),
            is_stable_order(keys@, places, keys@.len()),
            sorted == Seq::new(order@.len(), |j: int| spans@[order@[j] as int]),
            forall|j: int| 0 <= j < order@.len() ==> #[trigger] order@[j] < spans@.len(),
            bounded(spans@),
            -BOUND <= end <= BOUND,
            total == measure(sorted.take(n as int), -BOUND as int, BOUND as int),
            0 <= total <= end + BOUND,
            forall|x: int| x >= end ==> !#[trigger] covered(sorted.take(n as int), x),
            n > 0 ==> forall|x: int|
                sorted[n - 1].0 <= x < end ==> #[trigger] covered(sorted.take(n as int), x),
            n == 0 ==> end == -BOUND,
        decreases order@.len() - n,
    {
        let (start, stop) = spans[order[n]];
        let ghost small = sorted.take(n as int);
        let ghost large = sorted.take(n + 1);
        let from: i64 = if start > end {
            start
        } else {
            end
        };
        proof {
            assert(sorted[n as int] == (start, stop));
            assert(-BOUND <= spans@[order@[n as int] as int].0 <= BOUND);
            if n > 0 {
                assert(places[n - 1] == order@[n - 1]);
                assert(places[n as int] == order@[n as int]);
                assert(keys@[places[n - 1]] <= keys@[places[n as int]]);
                assert(sorted[n - 1].0 <= start);
            }
            assert forall|x: int| #[trigger] covered(large, x) == (covered(small, x) || start <= x
                < stop) by {
                if covered(small, x) {
                    let k = choose|k: int| 0 <= k < small.len() && within_span(#[trigger] small[k], x);
                    assert(large[k] == small[k]);
                }
                if start <= x < stop {
                    assert(within_span(large[n as int], x));
                }
                if covered(large, x) {
                    let k = choose|k: int| 0 <= k < large.len() && within_span(#[trigger] large[k], x);
                    if k < n {
                        assert(small[k] == large[k]);
                    }
                }
            }
            assert forall|x: int| from <= x < stop implies !#[trigger] covered(small, x) by {}
            assert forall|x: int| #[trigger] covered(large, x) == (covered(small, x) || from <= x
                < stop) by {
                if start <= x < from {
                    assert(n > 0);
                    assert(covered(small, x));
                }
            }
            lemma_measure_grows(small, large, from as int, stop as int, -BOUND as int, BOUND as int);
        }
        if stop > from {
            total = total + (stop - from);
        }
        if stop > end {
            end = stop;
        }
        n = n + 1;
        proof {
            assert forall|x: int| sorted[n - 1].0 <= x < end implies #[trigger] covered(
                large,
                x,
            ) by {
                if x < stop {
                    assert(within_span(large[n - 1], x));
                } else {
                    assert(covered(small, x));
                }
            }
        }
    }
    proof {
        assert(sorted.take(n as int) =~= sorted);
        lemma_onto(places, keys@.len());
        assert forall|x: int| covered(sorted, x) == covered(spans@, x) by {
            if covered(sorted, x) {
                let k = choose|k: int| 0 <= k < sorted.len() && within_span(#[trigger] sorted[k], x);
                assert(within_span(spans@[order@[k] as int], x));
            }
            if covered(spans@, x) {
                let k = choose|k: int| 0 <= k < spans@.len() && within_span(#[trigger] spans@[k], x);
                assert(places.contains(k));
                let j = choose|j: int| 0 <= j < places.len() && places[j] == k;
                assert(within_span(sorted[j], x));
            }
        }
        lemma_measure_same(sorted, spans@, -BOUND as int, BOUND as int);
    }
    total
}

proof fn lemma_none(spans: Seq<(i64, i64)>, lo: int, hi: int)
    requires
        spans.len() == 0,
    ensures
        measure(spans, lo, hi) == 0,
        forall|x: int| !#[trigger] covered(spans, x),
    decreases hi - lo,
{
    if hi > lo {
        lemma_none(spans, lo, hi - 1);
    }
}

} // verus!
