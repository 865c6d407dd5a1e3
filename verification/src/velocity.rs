//! Scroll velocity: how fast the notes of a chart move, and for how long at
//! another speed than the usual one. Speeds are exact quotients.

use crate::big::Big;
use crate::chart::{BpmData, Chart, ChartView, TimeItem};
use crate::number::{LIMIT, TICKS};
use crate::parser::{point_valid, ticks_valid, TimingPoint};
use crate::types::Ratio;
use crate::wide::Wide;
use vstd::prelude::*;

verus! {

/// From how much time at unusual speeds on a chart is told by it, in ticks.
pub const SV_AMOUNT_THRESHOLD: i128 = 2_000_000_000_000_000;

/// A hundred in ticks: the negative of the factor that leaves a speed as it is.
pub const HUNDRED: i128 = 100_000_000_000_000;

/// A speed, relative to the usual one: that of a tempo, times 100 over the
/// negative of `factor`, which is in ticks.
#[derive(Clone, Copy, Debug, PartialEq, Eq, Structural)]
pub struct Speed {
    pub tempo: Ratio,
    pub factor: i128,
}

impl Speed {
    /// The size of the numerator.
    pub open spec fn size(self) -> int {
        self.tempo.num * HUNDRED
    }

    /// The numerator of the speed.
    pub open spec fn num(self) -> int {
        if self.factor < 0 {
            self.size()
        } else {
            -self.size()
        }
    }

    /// The denominator of the speed.
    pub open spec fn den(self) -> int {
        if self.factor < 0 {
            self.tempo.den * -self.factor
        } else {
            self.tempo.den * self.factor
        }
    }

    /// Whether the quotients exist and lie within the limits of numbers.
    pub open spec fn valid(self) -> bool {
        &&& 0 <= self.tempo.num <= LIMIT
        &&& 0 < self.tempo.den <= LIMIT
        &&& self.factor != 0
        &&& -LIMIT <= self.factor <= LIMIT
    }

    proof fn lemma_valid(self)
        requires
            self.valid(),
        ensures
            self.size() >= 0,
            self.den() > 0,
    {
        let (d, f) = (
            self.tempo.den as int,
            if self.factor < 0 {
                -self.factor
            } else {
                self.factor as int
            },
        );
        assert(d * f > 0) by (nonlinear_arith)
            requires
                d > 0,
                f > 0,
        ;
    }

    fn find_size(self) -> (r: Big)
        requires
            self.valid(),
        ensures
            r@ == self.size(),
    {
        Big::from_u128(self.tempo.num as u128).times_word(HUNDRED as u128)
    }

    fn find_den(self) -> (r: Big)
        requires
            self.valid(),
        ensures
            r@ == self.den(),
    {
        let f: i128 = if self.factor < 0 {
            -self.factor
        } else {
            self.factor
        };
        Big::from_u128(self.tempo.den as u128).times_word(f as u128)
    }
}

/// The usual speed.
pub open spec fn usual_speed() -> Speed {
    Speed { tempo: Ratio { num: 1, den: 1 }, factor: (-HUNDRED) as i128 }
}

/// How far two numbers lie apart.
pub open spec fn apart(a: int, b: int) -> int {
    if a >= b {
        a - b
    } else {
        b - a
    }
}

/// Whether speeds differ by more than a two hundredth of the usual one; those
/// that do not are taken as one.
pub open spec fn differ(a: Speed, b: Speed) -> bool {
    200 * apart(a.num() * b.den(), b.num() * a.den()) > a.den() * b.den()
}

/// The factor that a tempo brings: the most common beat length over its own.
pub open spec fn tempo_factor(common: i128, beat: i128) -> Ratio {
    if beat == 0 {
        Ratio { num: 1, den: 1 }
    } else {
        Ratio { num: common, den: beat }
    }
}

/// The speed of a tempo under a factor, which is 100 over the negative of
/// `beat`.
pub open spec fn scaled_speed(tempo: Ratio, beat: Option<i128>) -> Option<Speed> {
    match beat {
        Some(b) if b != 0 => Some(Speed { tempo, factor: b }),
        _ => None,
    }
}

/// The factor of the last tempo among the first `n` points.
pub open spec fn tempo_in_force(points: Seq<TimingPoint>, common: i128, n: nat) -> Ratio
    decreases n,
{
    if n == 0 {
        Ratio { num: 1, den: 1 }
    } else {
        match points[n - 1] {
            TimingPoint::Uninherited { beat, .. } => tempo_factor(common, beat),
            TimingPoint::Inherited { .. } => tempo_in_force(points, common, (n - 1) as nat),
        }
    }
}

/// The speed that point `i` sets, where it can be told.
pub open spec fn speed_item(points: Seq<TimingPoint>, common: i128, i: int) -> TimeItem<
    Option<Speed>,
> {
    match points[i] {
        TimingPoint::Uninherited { time, beat, .. } => TimeItem {
            time,
            data: Some(Speed { tempo: tempo_factor(common, beat), factor: (-HUNDRED) as i128 }),
        },
        TimingPoint::Inherited { time, beat } => TimeItem {
            time,
            data: scaled_speed(tempo_in_force(points, common, i as nat), beat),
        },
    }
}

/// The speeds that points set.
pub open spec fn speed_items(points: Seq<TimingPoint>, common: i128) -> Seq<TimeItem<Option<Speed>>> {
    Seq::new(points.len(), |i: int| speed_item(points, common, i))
}

/// Whether a later item sets a speed at the same time.
pub open spec fn superseded(items: Seq<TimeItem<Option<Speed>>>, i: int) -> bool {
    items[i].time is Some && exists|j: int|
        i < j < items.len() && (#[trigger] items[j]).time == items[i].time
}

/// Those of the first `n` items that no later one supersedes.
pub open spec fn lasting(items: Seq<TimeItem<Option<Speed>>>, n: nat) -> Seq<TimeItem<Option<Speed>>>
    decreases n,
{
    if n == 0 {
        Seq::empty()
    } else {
        let before = lasting(items, (n - 1) as nat);
        if superseded(items, n - 1) {
            before
        } else {
            before.push(items[n - 1])
        }
    }
}

/// The speed after some items.
pub open spec fn speed_after(items: Seq<TimeItem<Speed>>) -> Speed {
    if items.len() == 0 {
        usual_speed()
    } else {
        items.last().data
    }
}

/// The items that change the speed by more than a step.
pub open spec fn thinned(items: Seq<TimeItem<Option<Speed>>>) -> Seq<TimeItem<Speed>>
    decreases items.len(),
{
    if items.len() == 0 {
        Seq::empty()
    } else {
        let before = thinned(items.drop_last());
        match items.last().data {
            Some(v) => if differ(v, speed_after(before)) {
                before.push(TimeItem { time: items.last().time, data: v })
            } else {
                before
            },
            None => before,
        }
    }
}

/// The changes of speed: the last item of each time, where it changes the
/// speed by more than a step.
pub open spec fn cleaned(items: Seq<TimeItem<Option<Speed>>>) -> Seq<TimeItem<Speed>> {
    thinned(lasting(items, items.len()))
}

/// Whether a speed is off the usual one by more than a twentieth.
pub open spec fn unusual(v: Speed) -> bool {
    20 * v.num() > 21 * v.den() || 20 * v.num() < 19 * v.den()
}

/// `sum` and the time from `a` to `b`, where all can be told.
pub open spec fn extended(sum: Option<int>, a: Option<i128>, b: Option<i128>) -> Option<int> {
    match (sum, a, b) {
        (Some(s), Some(x), Some(y)) => Some(s + y - x),
        _ => None,
    }
}

/// How long the speed is unusual up to item `n`, where that can be told.
pub open spec fn unusual_time(sv: Seq<TimeItem<Speed>>, n: nat) -> Option<int>
    decreases n,
{
    if n <= 1 {
        Some(0)
    } else {
        let before = unusual_time(sv, (n - 1) as nat);
        if unusual(sv[n - 2].data) {
            extended(before, sv[n - 2].time, sv[n - 1].time)
        } else {
            before
        }
    }
}

/// How often the speed turns unusual among the first `n` items.
pub open spec fn unusual_runs(sv: Seq<TimeItem<Speed>>, n: nat) -> nat
    decreases n,
{
    if n == 0 {
        0
    } else {
        unusual_runs(sv, (n - 1) as nat) + (if unusual(sv[n - 1].data) && (n == 1
            || !unusual(sv[n - 2].data)) {
            1nat
        } else {
            0nat
        })
    }
}

/// Whether tempo `i` is out of the ordinary: at most 20 or at least 450 beats
/// a minute, or four times as fast or slow as the one before.
pub open spec fn extreme_at(bpm: Seq<TimeItem<BpmData>>, i: int) -> bool {
    let beat = bpm[i].data.ms_per_beat;
    ||| beat * 20 >= 60_000 * TICKS
    ||| beat * 450 <= 60_000 * TICKS
    ||| i > 0 && (beat >= 4 * bpm[i - 1].data.ms_per_beat || bpm[i - 1].data.ms_per_beat >= 4 * beat)
}

/// Whether any tempo is out of the ordinary.
pub open spec fn extreme(bpm: Seq<TimeItem<BpmData>>) -> bool {
    exists|i: int| 0 <= i < bpm.len() && #[trigger] extreme_at(bpm, i)
}

/// How long the notes of a chart move at unusual speeds, in ticks; nothing
/// where they do so only once, more than the threshold where a tempo is out of
/// the ordinary, and none where it cannot be told.
pub open spec fn sv_amount(c: ChartView) -> Option<int> {
    let n = c.sv.len();
    if unusual_runs(c.sv, n) <= 1 {
        Some(0)
    } else {
        let total = if unusual(c.sv.last().data) {
            match (unusual_time(c.sv, n), c.sv.last().time) {
                (Some(s), Some(t)) if c.timed => Some(s + c.last_note() * TICKS - t),
                _ => None,
            }
        } else {
            unusual_time(c.sv, n)
        };
        let least = SV_AMOUNT_THRESHOLD + TICKS;
        if extreme(c.bpm) {
            match total {
                Some(t) if t > least => Some(t),
                _ => Some(least),
            }
        } else {
            total
        }
    }
}

/// Whether the times of items lie within the limits of numbers.
pub open spec fn items_valid<T>(items: Seq<TimeItem<T>>) -> bool {
    forall|i: int| 0 <= i < items.len() ==> ticks_valid((#[trigger] items[i]).time)
}

/// Whether all speeds lie within the limits of numbers.
pub open spec fn speeds_valid(items: Seq<TimeItem<Speed>>) -> bool {
    forall|i: int| 0 <= i < items.len() ==> (#[trigger] items[i]).data.valid()
}

/// Whether all speeds that can be told lie within the limits of numbers.
pub open spec fn told_speeds_valid(items: Seq<TimeItem<Option<Speed>>>) -> bool {
    forall|i: int|
        0 <= i < items.len() ==> ((#[trigger] items[i]).data matches Some(v) ==> v.valid())
}

proof fn lemma_thinned_valid(items: Seq<TimeItem<Option<Speed>>>)
    requires
        items_valid(items),
        told_speeds_valid(items),
    ensures
        items_valid(thinned(items)),
        speeds_valid(thinned(items)),
    decreases items.len(),
{
    if items.len() > 0 {
        let front = items.drop_last();
        let last = items[items.len() - 1];
        assert(ticks_valid(last.time));
        assert(last.data matches Some(v) ==> v.valid());
        assert forall|i: int| 0 <= i < front.len() implies ticks_valid((#[trigger] front[i]).time)
            && (front[i].data matches Some(v) ==> v.valid()) by {
            assert(ticks_valid(items[i].time));
        }
        lemma_thinned_valid(front);
        let before = thinned(front);
        let all = thinned(items);
        assert forall|i: int| 0 <= i < all.len() implies ticks_valid((#[trigger] all[i]).time)
            && all[i].data.valid() by {
            if i < before.len() {
                assert(all[i] == before[i]);
                assert(before[i].data.valid());
            }
        }
    }
}

proof fn lemma_lasting_valid(items: Seq<TimeItem<Option<Speed>>>, n: nat)
    requires
        items_valid(items),
        told_speeds_valid(items),
        n <= items.len(),
    ensures
        items_valid(lasting(items, n)),
        told_speeds_valid(lasting(items, n)),
    decreases n,
{
    if n > 0 {
        lemma_lasting_valid(items, (n - 1) as nat);
        assert(ticks_valid(items[n - 1].time));
        let before = lasting(items, (n - 1) as nat);
        let all = lasting(items, n);
        assert forall|i: int| 0 <= i < all.len() implies ticks_valid((#[trigger] all[i]).time) && (
        all[i].data matches Some(v) ==> v.valid()) by {
            if i < before.len() {
                assert(all[i] == before[i]);
            } else {
                assert(all[i] == items[n - 1]);
            }
        }
    }
}

proof fn lemma_tempo_in_force(points: Seq<TimingPoint>, common: i128, n: nat)
    requires
        n <= points.len(),
        0 <= common <= LIMIT,
        forall|i: int| 0 <= i < points.len() ==> point_valid(#[trigger] points[i]),
    ensures
        0 <= tempo_in_force(points, common, n).num <= LIMIT,
        0 < tempo_in_force(points, common, n).den <= LIMIT,
    decreases n,
{
    if n > 0 {
        assert(point_valid(points[n - 1]));
        lemma_tempo_in_force(points, common, (n - 1) as nat);
    }
}

proof fn lemma_speed_items(points: Seq<TimingPoint>, common: i128)
    requires
        0 <= common <= LIMIT,
        forall|i: int| 0 <= i < points.len() ==> point_valid(#[trigger] points[i]),
    ensures
        items_valid(speed_items(points, common)),
        told_speeds_valid(speed_items(points, common)),
{
    let items = speed_items(points, common);
    assert forall|i: int| 0 <= i < items.len() implies ticks_valid((#[trigger] items[i]).time) && (
    items[i].data matches Some(v) ==> v.valid()) by {
        assert(point_valid(points[i]));
        lemma_tempo_in_force(points, common, i as nat);
    }
}

pub(crate) proof fn lemma_cleaned_valid(points: Seq<TimingPoint>, common: i128)
    requires
        0 <= common <= LIMIT,
        forall|i: int| 0 <= i < points.len() ==> point_valid(#[trigger] points[i]),
    ensures
        items_valid(cleaned(speed_items(points, common))),
        speeds_valid(cleaned(speed_items(points, common))),
{
    let items = speed_items(points, common);
    lemma_speed_items(points, common);
    lemma_lasting_valid(items, items.len());
    lemma_thinned_valid(lasting(items, items.len()));
}

/// Finds the speeds that points set.
pub fn find_speeds(points: &[TimingPoint], common: i128) -> (r: Vec<TimeItem<Option<Speed>>>)
    requires
        0 <= common <= LIMIT,
        forall|i: int| 0 <= i < points@.len() ==> point_valid(#[trigger] points@[i]),
    ensures
        r@ == speed_items(points@, common),
        items_valid(r@),
        told_speeds_valid(r@),
{
    let mut out: Vec<TimeItem<Option<Speed>>> = Vec::new();
    let mut current = Ratio { num: 1, den: 1 };
    let mut i: usize = 0;
    while i < points.len()
        invariant
            i <= points@.len(),
            current == tempo_in_force(points@, common, i as nat),
            out@.len() == i,
            forall|j: int| 0 <= j < i ==> #[trigger] out@[j] == speed_item(points@, common, j),
        decreases points@.len() - i,
    {
        match points[i] {
            TimingPoint::Uninherited { time, beat, .. } => {
                current = if beat == 0 {
                    Ratio { num: 1, den: 1 }
                } else {
                    Ratio { num: common, den: beat }
                };
                out.push(TimeItem { time, data: Some(Speed { tempo: current, factor: -HUNDRED }) });
            },
            TimingPoint::Inherited { time, beat } => {
                let data = match beat {
                    Some(b) => if b != 0 {
                        Some(Speed { tempo: current, factor: b })
                    } else {
                        None
                    },
                    None => None,
                };
                out.push(TimeItem { time, data });
            },
        }
        i = i + 1;
    }
    assert(out@ =~= speed_items(points@, common));
    proof {
        lemma_speed_items(points@, common);
    }
    out
}

fn are_apart(a: Speed, b: Speed) -> (r: bool)
    requires
        a.valid(),
        b.valid(),
    ensures
        r == differ(a, b),
{
    let (d, e) = (a.find_den(), b.find_den());
    let x = a.find_size().times(&e);
    let y = b.find_size().times(&d);
    let whole = d.times(&e);
    proof {
        a.lemma_valid();
        b.lemma_valid();
        let (m, n, p, q) = (a.size(), b.size(), a.den(), b.den());
        assert((-m) * q == -(m * q)) by (nonlinear_arith);
        assert((-n) * p == -(n * p)) by (nonlinear_arith);
        assert(m * q >= 0) by (nonlinear_arith)
            requires
                m >= 0,
                q > 0,
        ;
        assert(n * p >= 0) by (nonlinear_arith)
            requires
                n >= 0,
                p > 0,
        ;
    }
    if (a.factor < 0) != (b.factor < 0) {
        whole.below(&x.plus(&y).times_word(200))
    } else {
        let u = x.times_word(200);
        let v = y.times_word(200);
        proof {
            let (p, q) = (a.den(), b.den());
            assert(p * q > 0) by (nonlinear_arith)
                requires
                    p > 0,
                    q > 0,
            ;
        }
        whole.plus(&u).below(&v) || whole.plus(&v).below(&u)
    }
}

fn is_superseded(items: &[TimeItem<Option<Speed>>], i: usize) -> (r: bool)
    requires
        i < items@.len(),
    ensures
        r == superseded(items@, i as int),
{
    let time: i128 = match items[i].time {
        Some(t) => t,
        None => {
            return false;
        },
    };
    let mut j: usize = i + 1;
    while j < items.len()
        invariant
            i < j <= items@.len(),
            items@[i as int].time == Some(time),
            forall|k: int| i < k < j ==> (#[trigger] items@[k]).time != Some(time),
        decreases items@.len() - j,
    {
        if let Some(t) = items[j].time {
            if t == time {
                assert(items@[j as int].time == items@[i as int].time);
                return true;
            }
        }
        j = j + 1;
    }
    false
}

/// Keeps the changes of speed.
pub fn cleaned_sv(items: &[TimeItem<Option<Speed>>]) -> (r: Vec<TimeItem<Speed>>)
    requires
        items_valid(items@),
        told_speeds_valid(items@),
    ensures
        r@ == cleaned(items@),
        items_valid(r@),
        speeds_valid(r@),
{
    let mut out: Vec<TimeItem<Speed>> = Vec::new();
    let mut speed = Speed { tempo: Ratio { num: 1, den: 1 }, factor: -HUNDRED };
    let mut n: usize = 0;
    while n < items.len()
        invariant
            n <= items@.len(),
            told_speeds_valid(items@),
            out@ == thinned(lasting(items@, n as nat)),
            speed == speed_after(out@),
            speed.valid(),
        decreases items@.len() - n,
    {
        if !is_superseded(items, n) {
            let ghost before = lasting(items@, n as nat);
            let ghost after = lasting(items@, (n + 1) as nat);
            assert(after.drop_last() =~= before);
            let item = items[n];
            assert(items@[n as int].data matches Some(v) ==> v.valid());
            if let Some(v) = item.data {
                if are_apart(v, speed) {
                    out.push(TimeItem { time: item.time, data: v });
                    speed = v;
                }
            }
        }
        n = n + 1;
    }
    proof {
        lemma_lasting_valid(items@, items@.len());
        lemma_thinned_valid(lasting(items@, items@.len()));
    }
    out
}

fn is_unusual(v: Speed) -> (r: bool)
    requires
        v.valid(),
    ensures
        r == unusual(v),
{
    proof {
        v.lemma_valid();
    }
    if v.factor > 0 {
        return true;
    }
    let num = v.find_size().times_word(20);
    let den = v.find_den();
    den.times_word(21).below(&num) || num.below(&den.times_word(19))
}

fn has_extreme(bpm: &[TimeItem<BpmData>]) -> (r: bool)
    requires
        forall|i: int|
            0 <= i < bpm@.len() ==> 0 <= (#[trigger] bpm@[i]).data.ms_per_beat <= LIMIT,
    ensures
        r == extreme(bpm@),
{
    let mut i: usize = 0;
    while i < bpm.len()
        invariant
            i <= bpm@.len(),
            forall|j: int|
                0 <= j < bpm@.len() ==> 0 <= (#[trigger] bpm@[j]).data.ms_per_beat <= LIMIT,
            forall|j: int| 0 <= j < i ==> !#[trigger] extreme_at(bpm@, j),
        decreases bpm@.len() - i,
    {
        let beat: i128 = bpm[i].data.ms_per_beat;
        if beat * 20 >= 60_000 * TICKS || beat * 450 <= 60_000 * TICKS {
            assert(extreme_at(bpm@, i as int));
            return true;
        }
        if i > 0 {
            let last: i128 = bpm[i - 1].data.ms_per_beat;
            if beat >= 4 * last || last >= 4 * beat {
                assert(extreme_at(bpm@, i as int));
                return true;
            }
        }
        i = i + 1;
    }
    false
}

/// Tells how long the notes of a chart move at unusual speeds, in ticks.
pub fn sv_time(chart: &Chart) -> (r: Option<Wide>)
    requires
        chart@.valid(),
    ensures
        match r {
            Some(t) => sv_amount(chart@) == Some(t@),
            None => sv_amount(chart@) is None,
        },
{
    let ghost sv = chart@.sv;
    let mut total: Option<Wide> = Some(Wide::zero());
    let mut runs: usize = 0;
    let mut n: usize = 0;
    while n < chart.sv.len()
        invariant
            n <= sv.len(),
            sv == chart.sv@,
            items_valid(sv),
            speeds_valid(sv),
            runs == unusual_runs(sv, n as nat),
            runs <= n,
            match total {
                Some(t) => unusual_time(sv, n as nat) == Some(t@) && -n * 0x2_0000_0000 <= t.high
                    && t.high <= n * 0x2_0000_0000,
                None => unusual_time(sv, n as nat) is None,
            },
        decreases sv.len() - n,
    {
        let item = chart.sv[n];
        assert(ticks_valid(sv[n as int].time) && sv[n as int].data.valid());
        let was: bool = if n > 0 {
            assert(ticks_valid(sv[n - 1].time) && sv[n - 1].data.valid());
            is_unusual(chart.sv[n - 1].data)
        } else {
            false
        };
        if was {
            total = match (total, chart.sv[n - 1].time, item.time) {
                (Some(s), Some(a), Some(b)) => Some(s.plus(b - a)),
                _ => None,
            };
        }
        if is_unusual(item.data) && !was {
            runs = runs + 1;
        }
        n = n + 1;
    }
    if runs <= 1 {
        return Some(Wide::zero());
    }
    let last = chart.sv[n - 1];
    assert(ticks_valid(sv[n - 1].time) && sv[n - 1].data.valid());
    if is_unusual(last.data) {
        let end: i128 = chart.last_note() as i128 * TICKS;
        proof {
            let k = chart@.notes.len() - 1;
            assert(-crate::chart::TIME_LIMIT <= chart@.notes[k].time
                <= crate::chart::TIME_LIMIT);
        }
        total = match (total, last.time) {
            (Some(s), Some(t)) if chart.timed => Some(s.plus(end - t)),
            _ => None,
        };
    }
    if has_extreme(chart.bpm.as_slice()) {
        let least = Wide::from_i128(SV_AMOUNT_THRESHOLD + TICKS);
        match total {
            Some(t) => if least.below(t) {
                Some(t)
            } else {
                Some(least)
            },
            None => Some(least),
        }
    } else {
        total
    }
}

/// A chart whose speed turns unusual no more than once has no time at
/// unusual speeds.
pub proof fn law_one_change_is_no_velocity(c: ChartView)
    requires
        unusual_runs(c.sv, c.sv.len()) <= 1,
    ensures
        sv_amount(c) == Some(0int),
{
}

/// Each change of speed that is kept is one of more than a step.
pub proof fn law_changes_are_steps(items: Seq<TimeItem<Option<Speed>>>)
    ensures
        forall|i: int|
            1 <= i < cleaned(items).len() ==> {
                differ((#[trigger] cleaned(items)[i]).data, cleaned(items)[i - 1].data)
            },
{
    lemma_thinned_steps(lasting(items, items.len()));
}

proof fn lemma_thinned_steps(items: Seq<TimeItem<Option<Speed>>>)
    ensures
        forall|i: int|
            1 <= i < thinned(items).len() ==> {
                differ((#[trigger] thinned(items)[i]).data, thinned(items)[i - 1].data)
            },
    decreases items.len(),
{
    if items.len() > 0 {
        lemma_thinned_steps(items.drop_last());
        let before = thinned(items.drop_last());
        let after = thinned(items);
        assert forall|i: int| 1 <= i < after.len() implies {
            differ((#[trigger] after[i]).data, after[i - 1].data)
        } by {
            if i < before.len() {
                assert(after[i] == before[i]);
                assert(after[i - 1] == before[i - 1]);
            } else {
                assert(after[i - 1] == before.last());
            }
        }
    }
}

} // verus!
