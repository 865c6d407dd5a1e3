//! The kinds of pattern that holds make, by what windows of rows show of them.

use crate::counting::how_many;
use crate::finder::{core_rows, in_bounds, kind_rows, kinds_of, Subtype};
use crate::hold_patterns::{
    beside, close, has_jack, heads_before, heads_only, holds_near, is_jacky, lock_hits, locks,
    release_gaps, repeats, striking, window,
};
use crate::kinds::tells;
use crate::matching::ascending;
use crate::patterns::shows_hold;
use crate::primitives::{shared, PrimitiveView};
use crate::types::ManiaPattern;
use vstd::prelude::*;

verus! {

/// Whether a row starts, goes on with or ends a hold.
pub open spec fn has_hold(p: PrimitiveView) -> bool {
    p.ln_heads.len() + p.ln_bodies.len() + p.ln_tails.len() > 0
}

/// Whether two lists have a column in common.
pub open spec fn common(a: Seq<usize>, b: Seq<usize>) -> bool {
    exists|column: usize| #[trigger] a.contains(column) && b.contains(column)
}

proof fn lemma_common(a: Seq<usize>, b: Seq<usize>)
    ensures
        crate::patterns::meet(a, b) <==> common(a, b),
{
    if crate::patterns::meet(a, b) {
        let i = choose|i: int| 0 <= i < a.len() && b.contains(#[trigger] a[i]);
        assert(a.contains(a[i]));
    }
    if common(a, b) {
        let column = choose|column: usize| #[trigger] a.contains(column) && b.contains(column);
        let i = choose|i: int| 0 <= i < a.len() && a[i] == column;
        assert(b.contains(a[i]));
    }
}

proof fn lemma_shared_none(a: Seq<usize>, b: Seq<usize>, n: nat)
    requires
        n <= a.len(),
    ensures
        shared(a, b, n) == 0 <==> forall|i: int| 0 <= i < n ==> !b.contains(#[trigger] a[i]),
    decreases n,
{
    if n > 0 {
        lemma_shared_none(a, b, (n - 1) as nat);
        if shared(a, b, n) == 0 {
            assert forall|i: int| 0 <= i < n implies !b.contains(#[trigger] a[i]) by {
                if i < n - 1 {
                    assert(shared(a, b, (n - 1) as nat) == 0);
                }
            }
        } else if !b.contains(a[n - 1]) {
            let i = choose|i: int| 0 <= i < n - 1 && b.contains(#[trigger] a[i]);
            assert(b.contains(a[i]));
        }
    }
}

/// A row with anything of a hold shows coordination; one that starts a hold
/// shows density and wildcard patterns too.
pub proof fn law_holds_show_hold_patterns(w: Seq<PrimitiveView>)
    ensures
        tells(core_rows(ManiaPattern::Coordination, w), w.len() > 0 && has_hold(w[0]), 1),
        tells(core_rows(ManiaPattern::Density, w), w.len() > 0 && w[0].ln_heads.len() > 0, 1),
        tells(core_rows(ManiaPattern::Wildcard, w), w.len() > 0 && w[0].ln_heads.len() > 0, 1),
        forall|keys: int|
            #![trigger kinds_of(ManiaPattern::Coordination, keys)]
            kinds_of(ManiaPattern::Coordination, keys) == seq![
                Subtype::ColumnLock,
                Subtype::Shield,
                Subtype::Release,
            ],
        forall|keys: int|
            #![trigger kinds_of(ManiaPattern::Wildcard, keys)]
            kinds_of(ManiaPattern::Wildcard, keys) == seq![Subtype::SpeedyWc, Subtype::JackyWc],
        kinds_of(ManiaPattern::Density, 4) == seq![
            Subtype::Inverse,
            Subtype::JsDensity,
            Subtype::HsDensity,
        ],
        forall|keys: int|
            keys != 4 ==> #[trigger] kinds_of(ManiaPattern::Density, keys) == seq![
                Subtype::Inverse,
                Subtype::DsDensity,
                Subtype::DcsDensity,
                Subtype::LcsDensity,
            ],
{
}

/// A shield is a tap right before a hold on its column, or right behind the end
/// of one: no more than a quarter of a beat apart.
pub proof fn law_shields(w: Seq<PrimitiveView>)
    ensures
        tells(
            kind_rows(Subtype::Shield, w),
            w.len() >= 2 && w[0].time <= w[1].time && 4_000_000_000_000 * (w[1].time - w[0].time)
                <= w[1].beat_length && (common(w[0].normal_notes, w[1].ln_heads) || common(
                w[0].ln_tails,
                w[1].normal_notes,
            )),
            2,
        ),
{
    if w.len() >= 2 {
        lemma_common(w[0].normal_notes, w[1].ln_heads);
        lemma_common(w[0].ln_tails, w[1].normal_notes);
    }
}

/// Whether row `i` goes on with a hold on one column while another is tapped.
pub open spec fn taps_beside(w: Seq<PrimitiveView>, held: usize, tapped: usize, i: int) -> bool {
    w[i].ln_bodies.contains(held) && w[i].normal_notes.contains(tapped)
}

/// Whether rows `i` and `j` are such taps with none between them.
pub open spec fn taps_next(
    w: Seq<PrimitiveView>,
    held: usize,
    tapped: usize,
    i: int,
    j: int,
) -> bool {
    &&& 0 <= i < j
    &&& taps_beside(w, held, tapped, i)
    &&& taps_beside(w, held, tapped, j)
    &&& forall|k: int| i < k < j ==> !#[trigger] taps_beside(w, held, tapped, k)
}

/// The last tap before row `n` is the last hit, and each hit but the first
/// follows the one before it.
proof fn lemma_lock_hits(w: Seq<PrimitiveView>, held: usize, tapped: usize, n: nat)
    requires
        n <= w.len(),
        forall|i: int| 0 <= i < w.len() ==> 0 <= (#[trigger] w[i]).time <= 20_000_000_000_000_000,
    ensures
        ({
            let hits = lock_hits(w, held, tapped, n);
            &&& hits.len() == how_many(n, |i: int| taps_beside(w, held, tapped, i))
            &&& hits.len() > 0 ==> exists|i: int|
                0 <= i < n && #[trigger] taps_beside(w, held, tapped, i) && w[i].time == hits.last()
                    && forall|k: int| i < k < n ==> !#[trigger] taps_beside(w, held, tapped, k)
            &&& hits.len() == 0 ==> forall|k: int|
                0 <= k < n ==> !#[trigger] taps_beside(w, held, tapped, k)
            &&& has_jack(hits) <==> exists|i: int, j: int| #[trigger]
                taps_next(w, held, tapped, i, j) && j < n && w[j].time - w[i].time <= 166
        }),
    decreases n,
{
    let hits = lock_hits(w, held, tapped, n);
    if n == 0 {
        assert(!has_jack(hits));
    } else {
        let m = (n - 1) as nat;
        lemma_lock_hits(w, held, tapped, m);
        let before = lock_hits(w, held, tapped, m);
        if has_jack(before) {
            let k = choose|k: int|
                0 <= k < before.len() - 1 && is_jacky(#[trigger] before[k + 1] - before[k]);
            assert(hits[k + 1] == before[k + 1] && hits[k] == before[k]);
            assert(is_jacky(hits[k + 1] - hits[k]));
        }
        if taps_beside(w, held, tapped, m as int) {
            assert(hits =~= before.push(w[m as int].time));
            assert(taps_beside(w, held, tapped, m as int) && w[m as int].time == hits.last());
            if before.len() > 0 {
                let i = choose|i: int|
                    0 <= i < m && #[trigger] taps_beside(w, held, tapped, i) && w[i].time
                        == before.last() && forall|k: int|
                        i < k < m ==> !#[trigger] taps_beside(w, held, tapped, k);
                assert(taps_next(w, held, tapped, i, m as int));
                let d = w[m as int].time - w[i].time;
                let l = before.len() as int;
                assert(hits[l] - hits[l - 1] == d);
                assert(0 <= w[m as int].time && 0 <= w[i].time);
                assert(is_jacky(d) <==> d <= 166);
                if d <= 166 {
                    assert(is_jacky(hits[(l - 1) + 1] - hits[l - 1]));
                    assert(has_jack(hits));
                }
                assert forall|j: int| #[trigger] taps_next(w, held, tapped, j, m as int) implies j
                    == i by {
                    if j < i {
                        assert(taps_beside(w, held, tapped, i));
                    } else if i < j {
                        assert(taps_beside(w, held, tapped, j));
                    }
                }
            } else {
                assert forall|j: int| !#[trigger] taps_next(w, held, tapped, j, m as int) by {
                    if taps_next(w, held, tapped, j, m as int) {
                        assert(taps_beside(w, held, tapped, j));
                    }
                }
            }
            if has_jack(hits) {
                let k = choose|k: int|
                    0 <= k < hits.len() - 1 && is_jacky(#[trigger] hits[k + 1] - hits[k]);
                if k + 1 < before.len() {
                    assert(is_jacky(before[k + 1] - before[k]));
                    assert(has_jack(before));
                }
            }
        } else {
            assert(hits == before);
        }
        if exists|i: int, j: int| #[trigger]
            taps_next(w, held, tapped, i, j) && j < n && w[j].time - w[i].time <= 166 {
            let (i, j) = choose|i: int, j: int| #[trigger]
                taps_next(w, held, tapped, i, j) && j < n && w[j].time - w[i].time <= 166;
            if j < m {
                assert(has_jack(before));
            } else {
                assert(taps_beside(w, held, tapped, m as int));
            }
        }
    }
}

/// Whether a column next to a held one, under the same hand, is tapped three
/// times or more within eight rows while the other is held, twice in a row with
/// no more than 166 milliseconds between.
pub open spec fn is_locked(w: Seq<PrimitiveView>, held: usize, tapped: usize) -> bool {
    let n = if w.len() < 8 {
        w.len()
    } else {
        8
    };
    &&& tapped < w[0].keys
    &&& tapped == held - 1 || tapped == held + 1
    &&& (held < w[0].left_hand_keys) == (tapped < w[0].left_hand_keys)
    &&& how_many(n, |i: int| taps_beside(w, held, tapped, i)) >= 3
    &&& exists|i: int, j: int| #[trigger]
        taps_next(w, held, tapped, i, j) && j < n && w[j].time - w[i].time <= 166
}

/// A column lock is a hold beside which a column is tapped.
pub proof fn law_column_locks(w: Seq<PrimitiveView>)
    requires
        in_bounds(w),
    ensures
        tells(
            kind_rows(Subtype::ColumnLock, w),
            w.len() >= 3 && w[0].ln_heads.len() > 0 && exists|column: usize| #[trigger]
                is_locked(w, w[0].ln_heads[0], column),
            3,
        ),
{
    if w.len() >= 3 && w[0].ln_heads.len() > 0 {
        let held = w[0].ln_heads[0];
        let (keys, split) = (w[0].keys, w[0].left_hand_keys);
        assert forall|column: usize| #[trigger]
            is_locked(w, held, column) == (beside(held as int, column as int, keys, split) && locks(
                w,
                held,
                column,
            )) by {
            lemma_lock_hits(w, held, column, window(w, 8));
        }
        if exists|column: usize|
            beside(held as int, column as int, keys, split) && #[trigger] locks(w, held, column) {
            let column = choose|column: usize|
                beside(held as int, column as int, keys, split) && #[trigger] locks(w, held, column);
            assert(is_locked(w, held, column));
        }
        if exists|column: usize| #[trigger] is_locked(w, held, column) {
            let column = choose|column: usize| #[trigger] is_locked(w, held, column);
            assert(locks(w, held, column));
        }
    }
}

/// Whether holds end in row `i` and start in the next.
pub open spec fn turns_over(w: Seq<PrimitiveView>, i: int) -> bool {
    w[i].ln_tails.len() > 0 && w[i + 1].ln_heads.len() > 0
}

proof fn lemma_release_gaps(w: Seq<PrimitiveView>, n: nat)
    requires
        n < w.len(),
    ensures
        ({
            let gaps = release_gaps(w, n);
            &&& gaps.len() == how_many(n, |i: int| turns_over(w, i))
            &&& forall|k: int|
                0 <= k < gaps.len() ==> exists|i: int|
                    0 <= i < n && #[trigger] turns_over(w, i) && #[trigger] gaps[k] == w[i + 1].time
                        - w[i].time
            &&& forall|i: int|
                0 <= i < n && #[trigger] turns_over(w, i) ==> gaps.contains(
                    w[i + 1].time - w[i].time,
                )
        }),
    decreases n,
{
    if n > 0 {
        let m = (n - 1) as nat;
        lemma_release_gaps(w, m);
        let before = release_gaps(w, m);
        let gaps = release_gaps(w, n);
        assert forall|k: int| 0 <= k < gaps.len() implies exists|i: int|
            0 <= i < n && #[trigger] turns_over(w, i) && #[trigger] gaps[k] == w[i + 1].time
                - w[i].time by {
            if k < before.len() {
                assert(gaps[k] == before[k]);
                let i = choose|i: int|
                    0 <= i < m && #[trigger] turns_over(w, i) && before[k] == w[i + 1].time
                        - w[i].time;
                assert(turns_over(w, i));
            } else {
                assert(turns_over(w, m as int));
            }
        }
        assert forall|i: int| 0 <= i < n && #[trigger] turns_over(w, i) implies gaps.contains(
            w[i + 1].time - w[i].time,
        ) by {
            if i < m {
                let k = choose|k: int|
                    0 <= k < before.len() && before[k] == w[i + 1].time - w[i].time;
                assert(gaps[k] == before[k]);
            } else {
                assert(gaps[before.len() as int] == w[i + 1].time - w[i].time);
            }
        }
    }
}

/// An inverse is five rows without taps, three columns or more held in one of
/// them, where holds end and start anew twice or more, each time after the same
/// pause, give or take five milliseconds.
pub proof fn law_inverses(w: Seq<PrimitiveView>)
    ensures
        tells(
            kind_rows(Subtype::Inverse, w),
            w.len() >= 5 && (forall|i: int|
                0 <= i < 5 ==> (#[trigger] w[i]).normal_notes.len() == 0) && (exists|i: int|
                0 <= i < 5 && (#[trigger] w[i]).ln_bodies.len() >= 3) && how_many(
                4,
                |i: int| turns_over(w, i),
            ) >= 2 && forall|i: int, j: int|
                0 <= i < 4 && 0 <= j < 4 && #[trigger] turns_over(w, i) && #[trigger] turns_over(
                    w,
                    j,
                ) ==> (w[i + 1].time - w[i].time) - (w[j + 1].time - w[j].time) <= 5,
            5,
        ),
{
    if w.len() >= 5 {
        lemma_release_gaps(w, 4);
        let gaps = release_gaps(w, 4);
        if close(gaps, 5) {
            assert forall|i: int, j: int|
                0 <= i < 4 && 0 <= j < 4 && #[trigger] turns_over(w, i) && #[trigger] turns_over(
                    w,
                    j,
                ) implies (w[i + 1].time - w[i].time) - (w[j + 1].time - w[j].time) <= 5 by {
                let (x, y) = (w[i + 1].time - w[i].time, w[j + 1].time - w[j].time);
                assert(gaps.contains(x) && gaps.contains(y));
                let a = choose|a: int| 0 <= a < gaps.len() && gaps[a] == x;
                let b = choose|b: int| 0 <= b < gaps.len() && gaps[b] == y;
                assert(gaps[a] - gaps[b] <= 5);
            }
        } else {
            let (a, b) = choose|a: int, b: int|
                0 <= a < gaps.len() && 0 <= b < gaps.len() && #[trigger] gaps[a]
                    - #[trigger] gaps[b] > 5;
            let i = choose|i: int|
                0 <= i < 4 && #[trigger] turns_over(w, i) && gaps[a] == w[i + 1].time - w[i].time;
            let j = choose|j: int|
                0 <= j < 4 && #[trigger] turns_over(w, j) && gaps[b] == w[j + 1].time - w[j].time;
            assert(turns_over(w, i) && turns_over(w, j));
        }
    }
}

/// A release is four rows that each end one hold, the second and the third not
/// on the same column, where there is no shield, inverse or jack.
pub proof fn law_releases(w: Seq<PrimitiveView>)
    ensures
        tells(
            kind_rows(Subtype::Release, w),
            w.len() >= 4 && (forall|i: int|
                0 <= i < 4 ==> (#[trigger] w[i]).ln_tails.len() == 1) && w[1].ln_tails[0]
                != w[2].ln_tails[0] && w[1].time < w[2].time && kind_rows(Subtype::Shield, w) == 0
                && kind_rows(Subtype::Inverse, w) == 0 && kind_rows(Subtype::JackyWc, w) == 0,
            4,
        ),
{
}

proof fn lemma_striking(w: Seq<PrimitiveView>, n: nat)
    requires
        n <= w.len(),
        forall|i: int| 0 <= i < n ==> (#[trigger] w[i]).notes > 0,
    ensures
        striking(w, n) == w.take(n as int),
    decreases n,
{
    if n > 0 {
        lemma_striking(w, (n - 1) as nat);
        assert(w[n - 1].notes > 0);
        assert(w.take(n - 1).push(w[n - 1]) =~= w.take(n as int));
    } else {
        assert(w.take(0) =~= Seq::empty());
    }
}

proof fn lemma_repeats(w: Seq<PrimitiveView>, rows: Seq<PrimitiveView>, n: nat)
    requires
        n <= rows.len() <= w.len(),
        forall|i: int| 0 <= i < rows.len() ==> #[trigger] rows[i] == w[i],
    ensures
        repeats(rows, n) == how_many(n, |i: int| w[i].jacks > 0),
    decreases n,
{
    if n > 0 {
        lemma_repeats(w, rows, (n - 1) as nat);
        assert(rows[n - 1] == w[n - 1]);
    }
}

/// Among six rows that all strike, with anything of a hold, repeats make a
/// wildcard: a chord jack or a short jack at once, else two repeats in the first
/// four rows, where one of those is a chord or has a beat of 185 milliseconds or
/// less.
pub proof fn law_jacks_among_holds(w: Seq<PrimitiveView>)
    requires
        forall|i: int| 0 <= i < 6 && i < w.len() ==> (#[trigger] w[i]).notes > 0,
    ensures
        ({
            let near = exists|i: int| 0 <= i < 6 && i < w.len() && has_hold(#[trigger] w[i]);
            let n = if w.len() < 4 {
                w.len()
            } else {
                4
            };
            let at_once = kind_rows(Subtype::Chordjacks, w) > 0 || kind_rows(Subtype::Minijacks, w)
                > 0;
            let often = how_many(n, |i: int| w[i].jacks > 0) >= 2;
            let hard = exists|i: int|
                0 <= i < n && ((#[trigger] w[i]).notes >= 2 || w[i].ms_per_beat <= 185);
            kind_rows(Subtype::JackyWc, w) == (if w.len() < 2 || !near {
                0
            } else if at_once {
                4nat
            } else if often && hard {
                3
            } else {
                0
            })
        }),
{
    if w.len() >= 2 {
        let m = window(w, 6);
        lemma_striking(w, m);
        let rows = striking(w, m);
        assert(forall|i: int| 0 <= i < rows.len() ==> #[trigger] rows[i] == w[i]);
        let n = window(rows, 4);
        lemma_repeats(w, rows, n);
        if holds_near(w, 6) {
            let i = choose|i: int| 0 <= i < window(w, 6) && shows_hold(#[trigger] w[i]);
            assert(has_hold(w[i]));
        }
        if exists|i: int| 0 <= i < 6 && i < w.len() && has_hold(#[trigger] w[i]) {
            let i = choose|i: int| 0 <= i < 6 && i < w.len() && has_hold(#[trigger] w[i]);
            assert(shows_hold(w[i]));
        }
        if exists|i: int|
            0 <= i < n && ((#[trigger] rows[i]).notes >= 2 || rows[i].ms_per_beat <= 185) {
            let i = choose|i: int|
                0 <= i < n && ((#[trigger] rows[i]).notes >= 2 || rows[i].ms_per_beat <= 185);
            assert(rows[i] == w[i]);
        }
        if exists|i: int|
            0 <= i < n && ((#[trigger] w[i]).notes >= 2 || w[i].ms_per_beat <= 185) {
            let i = choose|i: int|
                0 <= i < n && ((#[trigger] w[i]).notes >= 2 || w[i].ms_per_beat <= 185);
            assert(rows[i] == w[i]);
        }
        assert(rows[0] == w[0] && rows[1] == w[1]);
    }
}

/// Whether the starts of holds in row `i` are on a column where the last row
/// before it that starts holds started one too.
pub open spec fn restarts(w: Seq<PrimitiveView>, i: int) -> bool {
    exists|j: int|
        0 <= j < i && #[trigger] starts_last(w, j, i) && common(w[i].ln_heads, w[j].ln_heads)
}

/// Whether row `j` is the last row before row `i` that starts holds.
pub open spec fn starts_last(w: Seq<PrimitiveView>, j: int, i: int) -> bool {
    &&& 0 <= j < i
    &&& w[j].ln_heads.len() > 0
    &&& forall|k: int| j < k < i ==> (#[trigger] w[k]).ln_heads.len() == 0
}

proof fn lemma_heads_before(w: Seq<PrimitiveView>, i: int)
    requires
        0 <= i <= w.len(),
    ensures
        heads_before(w, i).len() > 0 ==> exists|j: int| #[trigger]
            starts_last(w, j, i) && heads_before(w, i) == w[j].ln_heads,
        forall|j: int| #[trigger] starts_last(w, j, i) ==> heads_before(w, i) == w[j].ln_heads,
    decreases i,
{
    if i > 0 {
        lemma_heads_before(w, i - 1);
        if w[i - 1].ln_heads.len() > 0 {
            assert(starts_last(w, i - 1, i));
            assert forall|j: int| #[trigger] starts_last(w, j, i) implies heads_before(w, i)
                == w[j].ln_heads by {
                if j < i - 1 {
                    assert(w[i - 1].ln_heads.len() == 0);
                }
            }
        } else {
            assert forall|j: int| #[trigger] starts_last(w, j, i) implies heads_before(w, i)
                == w[j].ln_heads by {
                assert(starts_last(w, j, i - 1));
            }
            if heads_before(w, i).len() > 0 {
                let j = choose|j: int| #[trigger]
                    starts_last(w, j, i - 1) && heads_before(w, i - 1) == w[j].ln_heads;
                assert(starts_last(w, j, i));
            }
        }
    }
}

proof fn lemma_restarts(w: Seq<PrimitiveView>, n: nat, i: int)
    requires
        0 <= i < n <= w.len(),
    ensures
        heads_only(w, n)[i].notes == w[i].ln_heads.len(),
        heads_only(w, n)[i].jacks == 0 <==> !restarts(w, i),
{
    let heads = w[i].ln_heads;
    let previous = heads_before(w, i);
    lemma_heads_before(w, i);
    lemma_shared_none(heads, previous, heads.len());
    lemma_common(heads, previous);
    if restarts(w, i) {
        let j = choose|j: int|
            0 <= j < i && #[trigger] starts_last(w, j, i) && common(w[i].ln_heads, w[j].ln_heads);
        assert(common(heads, previous));
    }
    if common(heads, previous) {
        let column = choose|column: usize| #[trigger]
            heads.contains(column) && previous.contains(column);
        assert(previous.len() > 0);
        let j = choose|j: int| #[trigger]
            starts_last(w, j, i) && heads_before(w, i) == w[j].ln_heads;
        assert(starts_last(w, j, i) && common(w[i].ln_heads, w[j].ln_heads));
        let k = choose|k: int| 0 <= k < heads.len() && previous.contains(#[trigger] heads[k]);
    } else {
        assert forall|k: int| 0 <= k < heads.len() implies !previous.contains(
            #[trigger] heads[k],
        ) by {
            assert(heads.contains(heads[k]));
        }
    }
}

/// Holds are dense as chords are: four rows, none of which starts holds where
/// the ones before did, make a dense jump stream where they start two, then one,
/// then no more than two; and a dense hand stream where they start three first.
pub proof fn law_dense_holds_on_four_keys(w: Seq<PrimitiveView>)
    ensures
        ({
            let apart = w.len() >= 4 && forall|i: int| 0 <= i < 4 ==> !#[trigger] restarts(w, i);
            &&& tells(
                kind_rows(Subtype::JsDensity, w),
                apart && w[0].ln_heads.len() == 2 && w[1].ln_heads.len() == 1
                    && w[2].ln_heads.len() <= 2 && w[3].ln_heads.len() <= 2,
                4,
            )
            &&& tells(kind_rows(Subtype::HsDensity, w), apart && w[0].ln_heads.len() == 3, 4)
        }),
{
    if w.len() >= 4 {
        lemma_restarts(w, 4, 0);
        lemma_restarts(w, 4, 1);
        lemma_restarts(w, 4, 2);
        lemma_restarts(w, 4, 3);
        let rows = heads_only(w, 4);
        if forall|i: int| 0 <= i < 4 ==> !#[trigger] restarts(w, i) {
            assert(!restarts(w, 0) && !restarts(w, 1) && !restarts(w, 2) && !restarts(w, 3));
        }
        assert(crate::patterns::no_jacks(rows, 4) <==> rows[0].jacks == 0 && rows[1].jacks == 0
            && rows[2].jacks == 0 && rows[3].jacks == 0);
    }
}

/// On other keys two rows that start holds on different columns are dense: two
/// chords of them, a chord and a single one, or two chords of two of which
/// neither lies wholly to one side of the other.
pub proof fn law_dense_holds_on_other_keys(w: Seq<PrimitiveView>)
    ensures
        ({
            let apart = w.len() >= 2 && !common(w[1].ln_heads, w[0].ln_heads);
            let (a, b) = (w[0].ln_heads, w[1].ln_heads);
            &&& tells(
                kind_rows(Subtype::DsDensity, w),
                apart && a.len() == 2 && b.len() == 2 && !(b[1] < a[0]) && !(b[0] > a[1]),
                2,
            )
            &&& tells(
                kind_rows(Subtype::DcsDensity, w),
                apart && a.len() >= 2 && b.len() >= 2,
                2,
            )
            &&& tells(kind_rows(Subtype::LcsDensity, w), apart && a.len() >= 2 && b.len() == 1, 2)
        }),
{
    if w.len() >= 2 {
        lemma_restarts(w, 2, 0);
        lemma_restarts(w, 2, 1);
        let rows = heads_only(w, 2);
        if w[0].ln_heads.len() > 0 {
            assert(starts_last(w, 0, 1));
            lemma_heads_before(w, 1);
            if restarts(w, 1) {
                let j = choose|j: int|
                    0 <= j < 1 && #[trigger] starts_last(w, j, 1) && common(
                        w[1].ln_heads,
                        w[j].ln_heads,
                    );
                assert(j == 0);
            }
        }
    }
}

/// Near holds, a beat of 180 milliseconds or less makes a fast wildcard on four
/// keys.
pub proof fn law_fast_holds_on_four_keys(w: Seq<PrimitiveView>)
    requires
        w.len() > 0 ==> w[0].keys == 4,
    ensures
        tells(
            kind_rows(Subtype::SpeedyWc, w),
            w.len() >= 2 && (exists|i: int|
                0 <= i < 4 && i < w.len() && has_hold(#[trigger] w[i])) && w[0].ms_per_beat <= 180,
            3,
        ),
{
    if w.len() >= 2 {
        lemma_near(w);
        assert(heads_before(w, 0).len() == 0);
    }
}

proof fn lemma_near(w: Seq<PrimitiveView>)
    ensures
        holds_near(w, 4) <==> exists|i: int| 0 <= i < 4 && i < w.len() && has_hold(#[trigger] w[i]),
{
    if holds_near(w, 4) {
        let i = choose|i: int| 0 <= i < window(w, 4) && shows_hold(#[trigger] w[i]);
        assert(has_hold(w[i]));
    }
    if exists|i: int| 0 <= i < 4 && i < w.len() && has_hold(#[trigger] w[i]) {
        let i = choose|i: int| 0 <= i < 4 && i < w.len() && has_hold(#[trigger] w[i]);
        assert(shows_hold(w[i]));
    }
}

/// On other keys a fast wildcard has a beat of 170 milliseconds or less, or
/// starts three chords of holds that roll to one side.
pub proof fn law_fast_holds_on_other_keys(w: Seq<PrimitiveView>)
    requires
        w.len() > 0 ==> w[0].keys != 4,
        forall|i: int|
            0 <= i < w.len() ==> ascending((#[trigger] w[i]).ln_heads, w[i].keys as nat),
    ensures
        ({
            let (a, b, c) = (w[0].ln_heads, w[1].ln_heads, w[2].ln_heads);
            let rolls = w.len() >= 3 && a.len() >= 2 && b.len() >= 2 && c.len() >= 2 && ((b.last()
                < a[0] && c.last() < b[0]) || (b[0] > a.last() && c[0] > b.last()));
            tells(
                kind_rows(Subtype::SpeedyWc, w),
                w.len() >= 2 && (exists|i: int|
                    0 <= i < 4 && i < w.len() && has_hold(#[trigger] w[i])) && (w[0].ms_per_beat
                    <= 170 || rolls),
                3,
            )
        }),
{
    if w.len() >= 2 {
        lemma_near(w);
        assert(heads_before(w, 0).len() == 0);
        if w.len() >= 3 {
            let (a, b, c) = (w[0].ln_heads, w[1].ln_heads, w[2].ln_heads);
            assert(ascending(a, w[0].keys as nat) && ascending(b, w[1].keys as nat) && ascending(
                c,
                w[2].keys as nat,
            ));
            if a.len() >= 2 && b.len() >= 2 && c.len() >= 2 {
                assert(starts_last(w, 0, 1) && starts_last(w, 1, 2));
                lemma_heads_before(w, 1);
                lemma_heads_before(w, 2);
                assert(a[0] < a[a.len() - 1] && b[0] < b[b.len() - 1] && c[0] < c[c.len() - 1]);
            }
            let rows = heads_only(w, window(w, 4));
            assert(rows[0].notes == a.len() && rows[1].notes == b.len() && rows[2].notes
                == c.len());
        }
    }
}

} // verus!
