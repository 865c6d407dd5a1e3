//! How fast notes scroll, told by timing points, and for how long they do so
//! unusually.

use crate::chart::{BpmData, ChartView, TimeItem};
use crate::counting::{how_many, sum_of};
use crate::parser::TimingPoint;
use crate::velocity::{
    cleaned, differ, extreme, extreme_at, lasting, speed_items, sv_amount, tempo_in_force, thinned,
    unusual_runs, unusual_time, usual_speed, Speed,
};
use vstd::prelude::*;

verus! {

/// The beat length of the last tempo before point `i`, where there is one.
pub open spec fn beat_before(points: Seq<TimingPoint>, i: int) -> Option<i128>
    decreases i,
{
    if i <= 0 {
        None
    } else {
        match points[i - 1] {
            TimingPoint::Uninherited { beat, .. } => Some(beat),
            TimingPoint::Inherited { .. } => beat_before(points, i - 1),
        }
    }
}

/// The quotient of the common beat length and one in force, as two numbers; one
/// where there is none, or it has no length.
pub open spec fn pace(common: i128, beat: Option<i128>) -> (int, int) {
    match beat {
        Some(b) if b != 0 => (common as int, b as int),
        _ => (1, 1),
    }
}

proof fn lemma_in_force(points: Seq<TimingPoint>, common: i128, n: nat)
    requires
        n <= points.len(),
    ensures
        ({
            let r = tempo_in_force(points, common, n);
            (r.num as int, r.den as int) == pace(common, beat_before(points, n as int))
        }),
    decreases n,
{
    if n > 0 {
        lemma_in_force(points, common, (n - 1) as nat);
    }
}

/// A tempo scrolls as fast as the most common beat is long relative to its own.
/// A change of velocity scales that by a hundred over its negative value; one
/// without a value, or with none but zero, sets nothing.
pub proof fn law_points_set_speeds(points: Seq<TimingPoint>, common: i128, i: int)
    requires
        0 <= i < points.len(),
    ensures
        ({
            let item = speed_items(points, common)[i];
            match points[i] {
                TimingPoint::Uninherited { time, beat, .. } => {
                    let (a, b) = pace(common, Some(beat));
                    item.time == time && (item.data matches Some(v) && v.num() * b == a * v.den())
                },
                TimingPoint::Inherited { time, beat } => {
                    let (a, b) = pace(common, beat_before(points, i));
                    &&& item.time == time
                    &&& match beat {
                        Some(f) if f != 0 => item.data matches Some(v) && v.num() * (b * -f) == (a
                            * 100_000_000_000_000) * v.den(),
                        _ => item.data is None,
                    }
                },
            }
        }),
{
    lemma_in_force(points, common, i as nat);
    let item = speed_items(points, common)[i];
    match points[i] {
        TimingPoint::Uninherited { beat, .. } => {
            let v = item.data->0;
            let (a, b) = pace(common, Some(beat));
            assert(v.num() == a * 100_000_000_000_000);
            assert(v.den() == b * 100_000_000_000_000);
            assert((a * 100_000_000_000_000) * b == a * (b * 100_000_000_000_000))
                by (nonlinear_arith);
        },
        TimingPoint::Inherited { beat, .. } => {
            let (a, b) = pace(common, beat_before(points, i));
            if let Some(f) = beat {
                if f != 0 {
                    let v = item.data->0;
                    let x = f as int;
                    assert(v.size() == a * 100_000_000_000_000);
                    if f < 0 {
                        assert(v.den() == b * -x);
                    } else {
                        assert(v.den() == b * x);
                        assert((-(a * 100_000_000_000_000)) * (b * -x) == (a * 100_000_000_000_000)
                            * (b * x)) by (nonlinear_arith);
                    }
                }
            }
        },
    }
}

proof fn lemma_lasting(items: Seq<TimeItem<Option<Speed>>>, n: nat, k: int)
    requires
        n <= items.len(),
        0 <= k < lasting(items, n).len(),
    ensures
        exists|i: int|
            0 <= i < n && #[trigger] items[i] == lasting(items, n)[k] && !replaced(items, i),
    decreases n,
{
    let before = lasting(items, (n - 1) as nat);
    let all = lasting(items, n);
    if k < before.len() {
        lemma_lasting(items, (n - 1) as nat, k);
        assert(all[k] == before[k]);
        let i = choose|i: int|
            0 <= i < n - 1 && #[trigger] items[i] == before[k] && !replaced(items, i);
        assert(items[i] == all[k]);
    } else {
        assert(items[n - 1] == all[k]);
        assert(!replaced(items, n - 1)) by {
            if replaced(items, n - 1) {
                let j = choose|j: int|
                    n - 1 < j < items.len() && (#[trigger] items[j]).time == items[n - 1].time;
                assert(crate::velocity::superseded(items, n - 1));
            }
        }
    }
}

/// Whether a later item sets a speed at the same time.
pub open spec fn replaced(items: Seq<TimeItem<Option<Speed>>>, i: int) -> bool {
    items[i].time is Some && exists|j: int|
        i < j < items.len() && (#[trigger] items[j]).time == items[i].time
}

proof fn lemma_thinned(items: Seq<TimeItem<Option<Speed>>>, k: int)
    requires
        0 <= k < thinned(items).len(),
    ensures
        exists|i: int|
            0 <= i < items.len() && (#[trigger] items[i]).time == thinned(items)[k].time
                && items[i].data == Some(thinned(items)[k].data),
    decreases items.len(),
{
    let front = items.drop_last();
    let before = thinned(front);
    let all = thinned(items);
    if k < before.len() {
        lemma_thinned(front, k);
        assert(all[k] == before[k]);
        let i = choose|i: int|
            0 <= i < front.len() && (#[trigger] front[i]).time == before[k].time && front[i].data
                == Some(before[k].data);
        assert(items[i] == front[i]);
    } else {
        assert(items[items.len() - 1] == items.last());
    }
}

/// The changes of speed that are kept are set by items that no later one at the
/// same time replaces.
pub proof fn law_last_speed_of_a_time_counts(items: Seq<TimeItem<Option<Speed>>>, k: int)
    requires
        0 <= k < cleaned(items).len(),
    ensures
        exists|i: int|
            0 <= i < items.len() && (#[trigger] items[i]).time == cleaned(items)[k].time
                && items[i].data == Some(cleaned(items)[k].data) && !replaced(items, i),
{
    let kept = lasting(items, items.len());
    lemma_thinned(kept, k);
    let j = choose|j: int|
        0 <= j < kept.len() && (#[trigger] kept[j]).time == cleaned(items)[k].time && kept[j].data
            == Some(cleaned(items)[k].data);
    lemma_lasting(items, items.len(), j);
    let i = choose|i: int|
        0 <= i < items.len() && #[trigger] items[i] == kept[j] && !replaced(items, i);
    assert(items[i].time == cleaned(items)[k].time);
}

/// Whether two speeds lie more than a two hundredth of the usual one apart.
pub open spec fn is_step(a: Speed, b: Speed) -> bool {
    let (x, y) = (a.num() * b.den(), b.num() * a.den());
    200 * (x - y) > a.den() * b.den() || 200 * (y - x) > a.den() * b.den()
}

/// The changes of speed that are kept are steps: each lies more than a two
/// hundredth off the one before it, the first off the usual one.
pub proof fn law_kept_speeds_are_steps(items: Seq<TimeItem<Option<Speed>>>, k: int)
    requires
        0 <= k < cleaned(items).len(),
    ensures
        k > 0 ==> is_step(cleaned(items)[k].data, cleaned(items)[k - 1].data),
        k == 0 ==> is_step(cleaned(items)[0].data, usual_speed()),
        usual_speed().num() == usual_speed().den() > 0,
{
    crate::velocity::law_changes_are_steps(items);
    lemma_first_step(lasting(items, items.len()));
}

proof fn lemma_first_step(items: Seq<TimeItem<Option<Speed>>>)
    ensures
        thinned(items).len() > 0 ==> differ(thinned(items)[0].data, usual_speed()),
    decreases items.len(),
{
    if items.len() > 0 {
        lemma_first_step(items.drop_last());
    }
}

/// A speed that nothing replaces and that is not kept lies no more than a two
/// hundredth off the one in force.
pub proof fn law_left_out_speeds_are_no_steps(items: Seq<TimeItem<Option<Speed>>>)
    requires
        items.len() > 0,
    ensures
        ({
            let before = thinned(items.drop_last());
            let now = if before.len() > 0 {
                before.last().data
            } else {
                usual_speed()
            };
            match items.last().data {
                Some(v) => if is_step(v, now) {
                    thinned(items) == before.push(TimeItem { time: items.last().time, data: v })
                } else {
                    thinned(items) == before
                },
                None => thinned(items) == before,
            }
        }),
{
}

/// Whether a speed lies more than a twentieth off the usual one.
pub open spec fn is_off(v: Speed) -> bool {
    !(95 * v.den() <= 100 * v.num() <= 105 * v.den())
}

/// Whether the speed turns unusual with item `i`.
pub open spec fn turns_off(sv: Seq<TimeItem<Speed>>, i: int) -> bool {
    is_off(sv[i].data) && (i == 0 || !is_off(sv[i - 1].data))
}

/// How long item `i` lasts: until the next, or until `end`.
pub open spec fn item_lasts(sv: Seq<TimeItem<Speed>>, i: int, end: int) -> int {
    if i + 1 < sv.len() {
        sv[i + 1].time->0 - sv[i].time->0
    } else {
        end - sv[i].time->0
    }
}

proof fn lemma_runs(sv: Seq<TimeItem<Speed>>, n: nat)
    requires
        n <= sv.len(),
    ensures
        unusual_runs(sv, n) == how_many(n, |i: int| turns_off(sv, i)),
    decreases n,
{
    if n > 0 {
        lemma_runs(sv, (n - 1) as nat);
    }
}

proof fn lemma_unusual_time(sv: Seq<TimeItem<Speed>>, n: nat, end: int)
    requires
        0 < n <= sv.len(),
        forall|i: int| 0 <= i < sv.len() ==> (#[trigger] sv[i]).time is Some,
    ensures
        unusual_time(sv, n) == Some(
            sum_of(
                (n - 1) as nat,
                |i: int|
                    if is_off(sv[i].data) {
                        item_lasts(sv, i, end)
                    } else {
                        0
                    },
            ),
        ),
    decreases n,
{
    if n > 1 {
        lemma_unusual_time(sv, (n - 1) as nat, end);
        assert(sv[n - 1].time is Some && sv[n - 2].time is Some);
    }
}

/// Whether tempo `i` is out of the ordinary: no faster than 20 beats a minute,
/// no slower than 450, or at least four times as fast or slow as the one before.
pub open spec fn is_wild(bpm: Seq<TimeItem<BpmData>>, i: int) -> bool {
    let beat = bpm[i].data.ms_per_beat;
    ||| beat >= 3_000_000_000_000_000
    ||| 450 * beat <= 60_000_000_000_000_000
    ||| i > 0 && beat >= 4 * bpm[i - 1].data.ms_per_beat
    ||| i > 0 && 4 * beat <= bpm[i - 1].data.ms_per_beat
}

/// The time that notes scroll unusually is that of all unusual speeds together,
/// up to the last note. It counts as nothing where the speed turns unusual no
/// more than once; and it is at least 2001 milliseconds where a tempo is out of
/// the ordinary.
pub proof fn law_unusual_scrolling_is_added_up(c: ChartView)
    requires
        c.timed,
        forall|i: int| 0 <= i < c.sv.len() ==> (#[trigger] c.sv[i]).time is Some,
    ensures
        ({
            let n = c.sv.len();
            let end = c.notes.last().time * 1_000_000_000_000;
            let total = sum_of(
                n,
                |i: int|
                    if is_off(c.sv[i].data) {
                        item_lasts(c.sv, i, end)
                    } else {
                        0
                    },
            );
            let wild = exists|i: int| 0 <= i < c.bpm.len() && #[trigger] is_wild(c.bpm, i);
            let least = 2_001_000_000_000_000int;
            if how_many(n, |i: int| turns_off(c.sv, i)) <= 1 {
                sv_amount(c) == Some(0int)
            } else if wild && total < least {
                sv_amount(c) == Some(least)
            } else {
                sv_amount(c) == Some(total)
            }
        }),
{
    let n = c.sv.len();
    lemma_runs(c.sv, n);
    if n > 0 {
        let end = c.notes.last().time * 1_000_000_000_000;
        lemma_unusual_time(c.sv, n, end);
        assert(c.sv[n - 1].time is Some);
    }
    if extreme(c.bpm) {
        let i = choose|i: int| 0 <= i < c.bpm.len() && #[trigger] extreme_at(c.bpm, i);
        assert(is_wild(c.bpm, i));
    }
    if exists|i: int| 0 <= i < c.bpm.len() && #[trigger] is_wild(c.bpm, i) {
        let i = choose|i: int| 0 <= i < c.bpm.len() && #[trigger] is_wild(c.bpm, i);
        assert(extreme_at(c.bpm, i));
    }
}

} // verus!
