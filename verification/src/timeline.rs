//! The timeline of a beatmap: rows of what is pressed, held and let go at once.
//!
//! Times count parts: there are [`MS`] of them in a millisecond, so that times
//! stay whole at every clock rate.

use crate::beatmap::HitObject;
use crate::columns::{has, lemma_mask_of, lemma_same_mask, lemma_union, lemma_weight, mask_of, weigh, weight};
use crate::number::LIMIT;
use crate::order::{is_stable_order, lemma_onto, positions, sort_order};
use vstd::prelude::*;

verus! {

/// Parts in a millisecond.
pub const MS: i128 = 3_000_000_000_000;

/// Events at most this far behind the first of a row belong to the row.
pub const ROW_TOLERANCE: i128 = 6_000_000_000_000;

/// A time before all others.
pub const NEVER: i128 = -1_000_000_000_000_000_000_000_000_000_000;

/// What happens at one time, as masks of columns.
#[derive(Clone, Copy, Debug, PartialEq, Eq, Structural)]
pub struct TimelineRow {
    pub time: i128,
    pub head_mask: u8,
    pub normal_mask: u8,
    pub ln_head_mask: u8,
    pub release_mask: u8,
    pub active_hold_mask: u8,
}

/// Whether a note lies on one of 8 columns and has times that clock rates keep
/// within range.
pub open spec fn timed(o: HitObject) -> bool {
    o.column < 8 && -4 * LIMIT <= o.start <= o.end <= 4 * LIMIT
}

/// Whether all notes are [`timed`].
pub open spec fn all_timed(objects: Seq<HitObject>) -> bool {
    forall|i: int| 0 <= i < objects.len() ==> timed(#[trigger] objects[i])
}

/// Whether a note starts, or a long note ends, at a time.
pub open spec fn has_event(o: HitObject, t: int) -> bool {
    o.start == t || (o.long_note && o.end == t)
}

/// Whether any note starts, or any long note ends, at a time.
pub open spec fn is_event(objects: Seq<HitObject>, t: int) -> bool {
    exists|i: int| 0 <= i < objects.len() && has_event(#[trigger] objects[i], t)
}

/// The earlier of two times, where there are any.
pub open spec fn earlier(a: Option<int>, b: Option<int>) -> Option<int> {
    match (a, b) {
        (Some(x), Some(y)) => if x <= y {
            a
        } else {
            b
        },
        (None, _) => b,
        (_, None) => a,
    }
}

/// A time, if it lies behind another.
pub open spec fn beyond(t: int, after: int) -> Option<int> {
    if t > after {
        Some(t)
    } else {
        None
    }
}

/// The first event behind a time.
pub open spec fn next_event(objects: Seq<HitObject>, after: int) -> Option<int>
    decreases objects.len(),
{
    if objects.len() == 0 {
        None
    } else {
        let o = objects.last();
        let rest = earlier(next_event(objects.drop_last(), after), beyond(o.start as int, after));
        if o.long_note {
            earlier(rest, beyond(o.end as int, after))
        } else {
            rest
        }
    }
}

/// How many events lie behind a time.
pub open spec fn later(objects: Seq<HitObject>, after: int) -> nat
    decreases objects.len(),
{
    if objects.len() == 0 {
        0
    } else {
        let o = objects.last();
        later(objects.drop_last(), after) + (if o.start > after {
            1nat
        } else {
            0
        }) + (if o.long_note && o.end > after {
            1nat
        } else {
            0
        })
    }
}

/// The first event behind a time is an event behind it, and there is none
/// before it.
pub proof fn lemma_next_event(objects: Seq<HitObject>, after: int)
    ensures
        match next_event(objects, after) {
            Some(t) => t > after && is_event(objects, t) && forall|u: int| #[trigger]
                is_event(objects, u) && u > after ==> u >= t,
            None => forall|u: int| #[trigger] is_event(objects, u) ==> u <= after,
        },
    decreases objects.len(),
{
    if objects.len() > 0 {
        let front = objects.drop_last();
        let o = objects.last();
        lemma_next_event(front, after);
        assert forall|u: int| is_event(front, u) implies is_event(objects, u) by {
            let i = choose|i: int| 0 <= i < front.len() && has_event(#[trigger] front[i], u);
            assert(objects[i] == front[i]);
        }
        assert forall|u: int| has_event(o, u) implies is_event(objects, u) by {
            assert(has_event(objects[objects.len() - 1], u));
        }
        assert forall|u: int| #[trigger] is_event(objects, u) implies is_event(front, u)
            || has_event(o, u) by {
            let i = choose|i: int| 0 <= i < objects.len() && has_event(#[trigger] objects[i], u);
            if i < front.len() {
                assert(has_event(front[i], u));
            }
        }
        assert(has_event(o, o.start as int));
        if o.long_note {
            assert(has_event(o, o.end as int));
        }
    }
}

/// Fewer events lie behind a later time.
pub proof fn lemma_later(objects: Seq<HitObject>, after: int, t: int)
    requires
        after <= t,
    ensures
        later(objects, t) <= later(objects, after),
        after < t && is_event(objects, t) ==> later(objects, t) < later(objects, after),
    decreases objects.len(),
{
    if objects.len() > 0 {
        let front = objects.drop_last();
        lemma_later(front, after, t);
        if is_event(objects, t) {
            let i = choose|i: int| 0 <= i < objects.len() && has_event(#[trigger] objects[i], t);
            if i < front.len() {
                assert(has_event(front[i], t));
            }
        }
    }
}

/// The times of the rows behind a time: the first event behind it, then the
/// first event out of that row's reach, and so on.
pub open spec fn row_times(objects: Seq<HitObject>, after: int) -> Seq<int>
    decreases later(objects, after),
{
    match next_event(objects, after) {
        Some(t) => {
            proof {
                lemma_next_event(objects, after);
                lemma_later(objects, after, t);
                lemma_later(objects, t, t + ROW_TOLERANCE);
            }
            seq![t] + row_times(objects, t + ROW_TOLERANCE)
        },
        None => Seq::empty(),
    }
}

/// Whether a row at `t` reaches a time.
pub open spec fn in_row(t: int, u: int) -> bool {
    t <= u <= t + ROW_TOLERANCE
}

/// Whether a note of the given kind is pressed on a column in the row at `t`.
pub open spec fn struck(objects: Seq<HitObject>, t: int, c: int, long: bool) -> bool {
    exists|i: int|
        0 <= i < objects.len() && (#[trigger] objects[i]).long_note == long && objects[i].column
            == c && in_row(t, objects[i].start as int)
}

/// Whether a long note on a column is let go in the row at `t`.
pub open spec fn released(objects: Seq<HitObject>, t: int, c: int) -> bool {
    exists|i: int|
        0 <= i < objects.len() && (#[trigger] objects[i]).long_note && objects[i].column == c
            && in_row(t, objects[i].end as int)
}

/// Whether a long note on a column has started by the row at `t` and not
/// ended before it.
pub open spec fn held(objects: Seq<HitObject>, t: int, c: int) -> bool {
    exists|i: int|
        0 <= i < objects.len() && (#[trigger] objects[i]).long_note && objects[i].column == c
            && objects[i].start <= t + ROW_TOLERANCE && objects[i].end + ROW_TOLERANCE >= t
}

/// The row at `t`.
pub open spec fn row_at(objects: Seq<HitObject>, t: int) -> TimelineRow {
    TimelineRow {
        time: t as i128,
        head_mask: mask_of(
            |c: int| struck(objects, t, c, false) || struck(objects, t, c, true),
        ),
        normal_mask: mask_of(|c: int| struck(objects, t, c, false)),
        ln_head_mask: mask_of(|c: int| struck(objects, t, c, true)),
        release_mask: mask_of(|c: int| released(objects, t, c)),
        active_hold_mask: mask_of(|c: int| held(objects, t, c)),
    }
}

/// The rows of a beatmap.
pub open spec fn timeline(objects: Seq<HitObject>) -> Seq<TimelineRow> {
    row_times(objects, NEVER as int).map_values(|t: int| row_at(objects, t))
}

#[derive(Clone, Copy, Debug, PartialEq, Eq, Structural)]
enum EventKind {
    Tap,
    LongHead,
    LongTail,
}

#[derive(Clone, Copy, Debug, PartialEq, Eq, Structural)]
struct Event {
    time: i128,
    column: u8,
    kind: EventKind,
    end: i128,
}

spec fn head_of(o: HitObject) -> Event {
    Event {
        time: o.start,
        column: o.column,
        kind: if o.long_note {
            EventKind::LongHead
        } else {
            EventKind::Tap
        },
        end: o.end,
    }
}

spec fn tail_of(o: HitObject) -> Event {
    Event { time: o.end, column: o.column, kind: EventKind::LongTail, end: o.end }
}

/// Whether an event is the start of a note or the end of a long note.
spec fn stems(e: Event, objects: Seq<HitObject>) -> bool {
    exists|i: int|
        0 <= i < objects.len() && (e == head_of(#[trigger] objects[i]) || (objects[i].long_note
            && e == tail_of(objects[i])))
}

/// Whether the events are those of the notes.
#[verifier::opaque]
spec fn drawn(events: Seq<Event>, objects: Seq<HitObject>) -> bool {
    &&& forall|j: int| 0 <= j < events.len() ==> stems(#[trigger] events[j], objects)
    &&& forall|i: int|
        0 <= i < objects.len() ==> events.contains(head_of(#[trigger] objects[i])) && (
        objects[i].long_note ==> events.contains(tail_of(objects[i])))
}

/// The note that an event belongs to.
proof fn lemma_source(events: Seq<Event>, objects: Seq<HitObject>, j: int) -> (i: int)
    requires
        drawn(events, objects),
        0 <= j < events.len(),
    ensures
        0 <= i < objects.len(),
        events[j] == head_of(objects[i]) || (objects[i].long_note && events[j] == tail_of(
            objects[i],
        )),
{
    reveal(drawn);
    assert(stems(events[j], objects));
    choose|i: int|
        0 <= i < objects.len() && (events[j] == head_of(#[trigger] objects[i]) || (
        objects[i].long_note && events[j] == tail_of(objects[i])))
}

/// The event at which a note starts.
proof fn lemma_head(events: Seq<Event>, objects: Seq<HitObject>, i: int) -> (j: int)
    requires
        drawn(events, objects),
        0 <= i < objects.len(),
    ensures
        0 <= j < events.len(),
        events[j] == head_of(objects[i]),
{
    reveal(drawn);
    assert(events.contains(head_of(objects[i])));
    choose|j: int| 0 <= j < events.len() && events[j] == head_of(objects[i])
}

/// The event at which a long note ends.
proof fn lemma_tail(events: Seq<Event>, objects: Seq<HitObject>, i: int) -> (j: int)
    requires
        drawn(events, objects),
        0 <= i < objects.len(),
        objects[i].long_note,
    ensures
        0 <= j < events.len(),
        events[j] == tail_of(objects[i]),
{
    reveal(drawn);
    assert(events.contains(head_of(objects[i])));
    choose|j: int| 0 <= j < events.len() && events[j] == tail_of(objects[i])
}

spec fn ordered(events: Seq<Event>) -> bool {
    forall|i: int, j: int| 0 <= i <= j < events.len() ==> events[i].time <= events[j].time
}

/// Whether the first `index` events, and no others, lie up to `after`.
spec fn parted(events: Seq<Event>, index: int, after: int) -> bool {
    &&& 0 <= index <= events.len()
    &&& forall|j: int| 0 <= j < index ==> (#[trigger] events[j]).time <= after
    &&& forall|j: int| index <= j < events.len() ==> (#[trigger] events[j]).time > after
}

/// Whether an event of a kind occurs on a column.
spec fn seen(events: Seq<Event>, from: int, to: int, kind: EventKind, c: int) -> bool {
    exists|j: int|
        from <= j < to && (#[trigger] events[j]).kind == kind && events[j].column == c
}

/// Whether a long note on column `c`, started by the first `to` events, ends at
/// a time.
spec fn ends_at(events: Seq<Event>, to: int, c: int, end: int) -> bool {
    exists|j: int|
        0 <= j < to && (#[trigger] events[j]).kind == EventKind::LongHead && events[j].column == c
            && events[j].end == end
}

/// Whether the long note that an event starts ends by the time of its column.
spec fn ends_by(e: Event, until: Seq<i128>) -> bool {
    e.kind == EventKind::LongHead ==> e.end <= until[e.column as int]
}

/// Whether `until` is when the long notes started by the first `to` events end,
/// at the latest, by column.
spec fn tracked_ends(until: Seq<i128>, events: Seq<Event>, to: int) -> bool {
    &&& until.len() == 8
    &&& forall|j: int| 0 <= j < to ==> #[trigger] ends_by(events[j], until)
    &&& forall|c: int|
        0 <= c < 8 ==> until[c] == NEVER || #[trigger] ends_at(events, to, c, until[c] as int)
}

proof fn lemma_first_is_next(events: Seq<Event>, objects: Seq<HitObject>, index: int, after: int)
    requires
        drawn(events, objects),
        ordered(events),
        parted(events, index, after),
    ensures
        next_event(objects, after) == (if index < events.len() {
            Some(events[index].time as int)
        } else {
            None
        }),
{
    lemma_next_event(objects, after);
    if let Some(t) = next_event(objects, after) {
        let i = choose|i: int| 0 <= i < objects.len() && has_event(#[trigger] objects[i], t);
        let j = if objects[i].start == t {
            lemma_head(events, objects, i)
        } else {
            lemma_tail(events, objects, i)
        };
        assert(events[j].time == t);
    }
    if index < events.len() {
        let i = lemma_source(events, objects, index);
        assert(has_event(objects[i], events[index].time as int));
        assert(is_event(objects, events[index].time as int));
    }
}

proof fn lemma_row_masks(
    events: Seq<Event>,
    objects: Seq<HitObject>,
    index: int,
    next: int,
    t: int,
    until: Seq<i128>,
    c: int,
)
    requires
        drawn(events, objects),
        ordered(events),
        all_timed(objects),
        parted(events, index, t - 1),
        parted(events, next, t + ROW_TOLERANCE),
        tracked_ends(until, events, next),
        t >= -4 * LIMIT,
        0 <= c < 8,
    ensures
        struck(objects, t, c, false) == seen(events, index, next, EventKind::Tap, c),
        struck(objects, t, c, true) == seen(events, index, next, EventKind::LongHead, c),
        released(objects, t, c) == seen(events, index, next, EventKind::LongTail, c),
        held(objects, t, c) == (until[c] + ROW_TOLERANCE >= t),
{
    assert forall|long: bool| #[trigger] struck(objects, t, c, long) implies seen(
        events,
        index,
        next,
        if long {
            EventKind::LongHead
        } else {
            EventKind::Tap
        },
        c,
    ) by {
        let i = choose|i: int|
            0 <= i < objects.len() && (#[trigger] objects[i]).long_note == long
                && objects[i].column == c && in_row(t, objects[i].start as int);
        let j = lemma_head(events, objects, i);
        assert(events[j].column == c);
    }
    if released(objects, t, c) {
        let i = choose|i: int|
            0 <= i < objects.len() && (#[trigger] objects[i]).long_note && objects[i].column == c
                && in_row(t, objects[i].end as int);
        let j = lemma_tail(events, objects, i);
        assert(events[j].column == c);
    }
    assert forall|kind: EventKind| #[trigger] seen(events, index, next, kind, c) implies ({
        match kind {
            EventKind::Tap => struck(objects, t, c, false),
            EventKind::LongHead => struck(objects, t, c, true),
            EventKind::LongTail => released(objects, t, c),
        }
    }) by {
        let j = choose|j: int|
            index <= j < next && (#[trigger] events[j]).kind == kind && events[j].column == c;
        let i = lemma_source(events, objects, j);
        assert(in_row(t, events[j].time as int));
        assert(objects[i].column == c);
    }
    if held(objects, t, c) {
        let i = choose|i: int|
            0 <= i < objects.len() && (#[trigger] objects[i]).long_note && objects[i].column == c
                && objects[i].start <= t + ROW_TOLERANCE && objects[i].end + ROW_TOLERANCE >= t;
        let j = lemma_head(events, objects, i);
        assert(ends_by(events[j], until));
    }
    if until[c] + ROW_TOLERANCE >= t {
        assert(ends_at(events, next, c, until[c] as int));
        let j = choose|j: int|
            0 <= j < next && (#[trigger] events[j]).kind == EventKind::LongHead && events[j].column
                == c && events[j].end == until[c];
        let i = lemma_source(events, objects, j);
        assert(objects[i].long_note);
    }
}

/// The events of the notes, in order of time.
fn sorted_events(objects: &[HitObject]) -> (r: Vec<Event>)
    requires
        all_timed(objects@),
    ensures
        drawn(r@, objects@),
        ordered(r@),
{
    let mut events: Vec<Event> = Vec::new();
    let mut keys: Vec<i128> = Vec::new();
    let mut i: usize = 0;
    proof {
        reveal(drawn);
    }
    while i < objects.len()
        invariant
            i <= objects@.len(),
            keys@.len() == events@.len(),
            forall|j: int| 0 <= j < keys@.len() ==> #[trigger] keys@[j] == events@[j].time,
            drawn(events@, objects@.take(i as int)),
        decreases objects@.len() - i,
    {
        let o = objects[i];
        let ghost before = events@;
        let kind = if o.long_note {
            EventKind::LongHead
        } else {
            EventKind::Tap
        };
        events.push(Event { time: o.start, column: o.column, kind, end: o.end });
        keys.push(o.start);
        if o.long_note {
            events.push(
                Event { time: o.end, column: o.column, kind: EventKind::LongTail, end: o.end },
            );
            keys.push(o.end);
        }
        proof {
            reveal(drawn);
            let shown = objects@.take(i as int);
            let wider = objects@.take(i + 1);
            assert(wider[i as int] == o);
            assert forall|j: int| 0 <= j < events@.len() implies stems(
                #[trigger] events@[j],
                wider,
            ) by {
                if j < before.len() {
                    let e = before[j];
                    assert(stems(e, shown));
                    let n = choose|n: int|
                        0 <= n < shown.len() && (e == head_of(#[trigger] shown[n]) || (
                        shown[n].long_note && e == tail_of(shown[n])));
                    assert(wider[n] == shown[n]);
                } else if j == before.len() {
                    assert(events@[j] == head_of(wider[i as int]));
                } else {
                    assert(events@[j] == tail_of(wider[i as int]));
                }
            }
            assert forall|n: int| 0 <= n < wider.len() implies events@.contains(
                head_of(#[trigger] wider[n]),
            ) && (wider[n].long_note ==> events@.contains(tail_of(wider[n]))) by {
                if n < i {
                    assert(shown[n] == wider[n]);
                    let j = choose|j: int| 0 <= j < before.len() && before[j] == head_of(shown[n]);
                    assert(before.contains(head_of(shown[n])));
                    assert(events@[j] == before[j]);
                    if wider[n].long_note {
                        assert(before.contains(tail_of(shown[n])));
                        let k = choose|k: int|
                            0 <= k < before.len() && before[k] == tail_of(shown[n]);
                        assert(events@[k] == before[k]);
                    }
                } else {
                    assert(events@[before.len() as int] == head_of(wider[n]));
                    if o.long_note {
                        assert(events@[before.len() as int + 1] == tail_of(wider[n]));
                    }
                }
            }
        }
        i = i + 1;
    }
    assert(objects@.take(i as int) =~= objects@);
    let order = sort_order(keys.as_slice());
    let mut out: Vec<Event> = Vec::new();
    let mut n: usize = 0;
    while n < order.len()
        invariant
            n <= order@.len(),
            order@.len() == events@.len(),
            out@.len() == n,
            forall|j: int| 0 <= j < order@.len() ==> #[trigger] order@[j] < events@.len(),
            forall|j: int| 0 <= j < n ==> #[trigger] out@[j] == events@[order@[j] as int],
        decreases order@.len() - n,
    {
        out.push(events[order[n]]);
        n = n + 1;
    }
    proof {
        reveal(drawn);
        let places = positions(order@);
        assert(is_stable_order(keys@, places, keys@.len()));
        lemma_onto(places, keys@.len());
        assert forall|a: int, b: int| 0 <= a <= b < out@.len() implies out@[a].time
            <= out@[b].time by {
            if a < b {
                assert(keys@[places[a]] <= keys@[places[b]]);
            }
        }
        assert forall|e: Event| events@.contains(e) implies out@.contains(e) by {
            let k = choose|k: int| 0 <= k < events@.len() && events@[k] == e;
            assert(places.contains(k));
            let j = choose|j: int| 0 <= j < places.len() && places[j] == k;
            assert(out@[j] == e);
        }
        assert forall|j: int| 0 <= j < out@.len() implies stems(#[trigger] out@[j], objects@) by {
            assert(stems(events@[order@[j] as int], objects@));
        }
    }
    out
}

proof fn lemma_seen(events: Seq<Event>, from: int, to: int)
    requires
        0 <= from <= to < events.len(),
    ensures
        forall|kind: EventKind, c: int| #[trigger]
            seen(events, from, to + 1, kind, c) == (seen(events, from, to, kind, c) || (
            events[to].kind == kind && events[to].column == c)),
{
}

/// Takes one more event into account.
fn extend_ends(until: &mut Vec<i128>, events: &[Event], next: usize)
    requires
        next < events@.len(),
        tracked_ends(old(until)@, events@, next as int),
        forall|j: int| 0 <= j < events@.len() ==> (#[trigger] events@[j]).column < 8,
        -4 * LIMIT <= events@[next as int].end <= 4 * LIMIT,
        forall|c: int| 0 <= c < 8 ==> NEVER <= #[trigger] old(until)@[c] <= 4 * LIMIT,
    ensures
        tracked_ends(final(until)@, events@, next + 1),
        forall|c: int| 0 <= c < 8 ==> NEVER <= #[trigger] final(until)@[c] <= 4 * LIMIT,
{
    let event = events[next];
    assert(events@[next as int].column < 8);
    let lane: usize = event.column as usize;
    let ghost before = until@;
    if event.kind == EventKind::LongHead && event.end > until[lane] {
        until.set(lane, event.end);
    }
    proof {
        assert forall|c: int| 0 <= c < 8 && until@[c] != NEVER implies #[trigger] ends_at(
            events@,
            next + 1,
            c,
            until@[c] as int,
        ) by {
            if until@[c] != before[c] {
                assert(events@[next as int].kind == EventKind::LongHead);
            } else {
                assert(ends_at(events@, next as int, c, before[c] as int));
            }
        }
        assert forall|j: int| 0 <= j < next + 1 implies #[trigger] ends_by(events@[j], until@) by {
            if j < next {
                assert(ends_by(events@[j], before));
                assert(events@[j].column < 8);
            }
        }
    }
}

/// The rows of a beatmap.
pub fn timeline_rows(objects: &[HitObject]) -> (r: Vec<TimelineRow>)
    requires
        all_timed(objects@),
    ensures
        r@ == timeline(objects@),
{
    let events = sorted_events(objects);
    let ghost ev = events@;
    let ghost obs = objects@;
    let ghost all = row_times(obs, NEVER as int);
    let ghost mut after: int = NEVER as int;
    let ghost mut times: Seq<int> = Seq::empty();
    let mut rows: Vec<TimelineRow> = Vec::new();
    let mut until: Vec<i128> = vec![NEVER, NEVER, NEVER, NEVER, NEVER, NEVER, NEVER, NEVER];
    let mut index: usize = 0;
    proof {
        assert(times + all =~= all);
        assert forall|j: int| 0 <= j < ev.len() implies (#[trigger] ev[j]).time > NEVER
            && ev[j].time >= -4 * LIMIT && ev[j].time <= 4 * LIMIT && ev[j].column < 8 && ev[j].end
            <= 4 * LIMIT && ev[j].end >= -4 * LIMIT by {
            let i = lemma_source(ev, obs, j);
            assert(timed(obs[i]));
        }
    }
    while index < events.len()
        invariant
            events@ == ev,
            objects@ == obs,
            all == row_times(obs, NEVER as int),
            all_timed(obs),
            drawn(ev, obs),
            ordered(ev),
            forall|j: int|
                0 <= j < ev.len() ==> (#[trigger] ev[j]).time >= -4 * LIMIT && ev[j].time <= 4
                    * LIMIT && ev[j].column < 8 && ev[j].end <= 4 * LIMIT && ev[j].end >= -4
                    * LIMIT,
            parted(ev, index as int, after),
            tracked_ends(until@, ev, index as int),
            times + row_times(obs, after) == all,
            rows@ == times.map_values(|t: int| row_at(obs, t)),
            forall|c: int| 0 <= c < 8 ==> NEVER <= #[trigger] until@[c] <= 4 * LIMIT,
        decreases ev.len() - index,
    {
        let time: i128 = events[index].time;
        let mut next: usize = index;
        let mut normal_mask: u8 = 0;
        let mut ln_head_mask: u8 = 0;
        let mut release_mask: u8 = 0;
        proof {
            lemma_first_is_next(ev, obs, index as int, after);
            lemma_weight();
        }
        while next < events.len() && events[next].time - time <= ROW_TOLERANCE
            invariant
                events@ == ev,
                index <= next <= ev.len(),
                index < ev.len(),
                time == ev[index as int].time,
                ordered(ev),
                forall|j: int|
                    0 <= j < ev.len() ==> (#[trigger] ev[j]).time >= -4 * LIMIT && ev[j].time <= 4
                        * LIMIT && ev[j].column < 8 && ev[j].end <= 4 * LIMIT && ev[j].end >= -4
                        * LIMIT,
                tracked_ends(until@, ev, next as int),
                forall|c: int| 0 <= c < 8 ==> NEVER <= #[trigger] until@[c] <= 4 * LIMIT,
                forall|j: int| 0 <= j < next ==> (#[trigger] ev[j]).time <= time + ROW_TOLERANCE,
                forall|c: int|
                    0 <= c < 8 ==> #[trigger] has(normal_mask, c) == seen(
                        ev,
                        index as int,
                        next as int,
                        EventKind::Tap,
                        c,
                    ),
                forall|c: int|
                    0 <= c < 8 ==> #[trigger] has(ln_head_mask, c) == seen(
                        ev,
                        index as int,
                        next as int,
                        EventKind::LongHead,
                        c,
                    ),
                forall|c: int|
                    0 <= c < 8 ==> #[trigger] has(release_mask, c) == seen(
                        ev,
                        index as int,
                        next as int,
                        EventKind::LongTail,
                        c,
                    ),
            decreases ev.len() - next,
        {
            let event = events[next];
            assert(ev[next as int].column < 8);
            let bit = weigh(event.column);
            proof {
                lemma_weight();
                lemma_union(normal_mask, bit);
                lemma_union(ln_head_mask, bit);
                lemma_union(release_mask, bit);
                lemma_seen(ev, index as int, next as int);
            }
            match event.kind {
                EventKind::Tap => {
                    normal_mask = normal_mask | bit;
                },
                EventKind::LongHead => {
                    ln_head_mask = ln_head_mask | bit;
                },
                EventKind::LongTail => {
                    release_mask = release_mask | bit;
                },
            }
            extend_ends(&mut until, events.as_slice(), next);
            next = next + 1;
        }
        let head_mask = normal_mask | ln_head_mask;
        let active_hold_mask = holding(until.as_slice(), time);
        let row = TimelineRow {
            time,
            head_mask,
            normal_mask,
            ln_head_mask,
            release_mask,
            active_hold_mask,
        };
        rows.push(row);
        proof {
            let t = time as int;
            assert(parted(ev, next as int, t + ROW_TOLERANCE));
            assert(parted(ev, index as int, t - 1));
            let expected = row_at(obs, t);
            assert forall|c: int| 0 <= c < 8 implies struck(obs, t, c, false) == seen(
                ev,
                index as int,
                next as int,
                EventKind::Tap,
                c,
            ) && struck(obs, t, c, true) == seen(
                ev,
                index as int,
                next as int,
                EventKind::LongHead,
                c,
            ) && released(obs, t, c) == seen(
                ev,
                index as int,
                next as int,
                EventKind::LongTail,
                c,
            ) && held(obs, t, c) == (until@[c] + ROW_TOLERANCE >= t) by {
                lemma_row_masks(ev, obs, index as int, next as int, t, until@, c);
            }
            lemma_union(normal_mask, ln_head_mask);
            lemma_mask_of(|c: int| struck(obs, t, c, false) || struck(obs, t, c, true));
            lemma_mask_of(|c: int| struck(obs, t, c, false));
            lemma_mask_of(|c: int| struck(obs, t, c, true));
            lemma_mask_of(|c: int| released(obs, t, c));
            lemma_mask_of(|c: int| held(obs, t, c));
            lemma_same_mask(head_mask, expected.head_mask);
            lemma_same_mask(normal_mask, expected.normal_mask);
            lemma_same_mask(ln_head_mask, expected.ln_head_mask);
            lemma_same_mask(release_mask, expected.release_mask);
            lemma_same_mask(active_hold_mask, expected.active_hold_mask);
            assert(row == expected);
            assert(times + row_times(obs, after) =~= times.push(t) + row_times(
                obs,
                t + ROW_TOLERANCE,
            ));
            assert(rows@ =~= times.push(t).map_values(|t: int| row_at(obs, t)));
            times = times.push(t);
            after = t + ROW_TOLERANCE;
        }
        index = next;
    }
    proof {
        lemma_first_is_next(ev, obs, index as int, after);
        assert(times + row_times(obs, after) =~= times);
    }
    rows
}

/// The columns whose long notes have not ended before a time.
fn holding(until: &[i128], time: i128) -> (r: u8)
    requires
        until@.len() == 8,
        forall|c: int| 0 <= c < 8 ==> NEVER <= #[trigger] until@[c] <= 4 * LIMIT,
    ensures
        forall|c: int| 0 <= c < 8 ==> #[trigger] has(r, c) == (until@[c] + ROW_TOLERANCE >= time),
{
    let mut mask: u8 = 0;
    let mut c: u8 = 0;
    proof {
        lemma_weight();
    }
    while c < 8
        invariant
            c <= 8,
            until@.len() == 8,
            forall|d: int| 0 <= d < 8 ==> NEVER <= #[trigger] until@[d] <= 4 * LIMIT,
            forall|d: int|
                0 <= d < 8 ==> #[trigger] has(mask, d) == (d < c && until@[d] + ROW_TOLERANCE
                    >= time),
        decreases 8 - c,
    {
        assert(NEVER <= until@[c as int]);
        if until[c as usize] + ROW_TOLERANCE >= time {
            let ghost before = mask;
            mask = mask | weigh(c);
            proof {
                lemma_union(before, weight(c as int));
                lemma_weight();
            }
        }
        c = c + 1;
    }
    mask
}

/// Rows start at events, each out of reach of the row before it.
pub proof fn law_rows_are_apart(objects: Seq<HitObject>, after: int)
    ensures
        forall|i: int|
            0 <= i < row_times(objects, after).len() ==> after < #[trigger] row_times(
                objects,
                after,
            )[i] && is_event(objects, row_times(objects, after)[i]),
        forall|i: int, j: int|
            0 <= i < j < row_times(objects, after).len() ==> #[trigger] row_times(objects, after)[i]
                + ROW_TOLERANCE < #[trigger] row_times(objects, after)[j],
    decreases later(objects, after),
{
    lemma_next_event(objects, after);
    if let Some(t) = next_event(objects, after) {
        lemma_later(objects, after, t);
        lemma_later(objects, t, t + ROW_TOLERANCE);
        law_rows_are_apart(objects, t + ROW_TOLERANCE);
        let rest = row_times(objects, t + ROW_TOLERANCE);
        let all = row_times(objects, after);
        assert(all =~= seq![t] + rest);
        assert forall|i: int| 0 <= i < all.len() implies after < #[trigger] all[i] && is_event(
            objects,
            all[i],
        ) by {
            if i > 0 {
                assert(all[i] == rest[i - 1]);
            }
        }
        assert forall|i: int, j: int| 0 <= i < j < all.len() implies #[trigger] all[i]
            + ROW_TOLERANCE < #[trigger] all[j] by {
            assert(all[j] == rest[j - 1]);
            if i > 0 {
                assert(all[i] == rest[i - 1]);
            }
        }
    }
}

/// Every event behind `after` lies within reach of some row.
pub proof fn law_every_event_is_in_a_row(objects: Seq<HitObject>, after: int, u: int)
    requires
        is_event(objects, u),
        u > after,
    ensures
        exists|i: int|
            0 <= i < row_times(objects, after).len() && #[trigger] in_row(
                row_times(objects, after)[i],
                u,
            ),
    decreases later(objects, after),
{
    lemma_next_event(objects, after);
    let t = next_event(objects, after)->Some_0;
    lemma_later(objects, after, t);
    lemma_later(objects, t, t + ROW_TOLERANCE);
    let rest = row_times(objects, t + ROW_TOLERANCE);
    let all = row_times(objects, after);
    assert(all =~= seq![t] + rest);
    if u <= t + ROW_TOLERANCE {
        assert(in_row(all[0], u));
    } else {
        law_every_event_is_in_a_row(objects, t + ROW_TOLERANCE, u);
        let i = choose|i: int| 0 <= i < rest.len() && #[trigger] in_row(rest[i], u);
        assert(all[i + 1] == rest[i]);
        assert(in_row(all[i + 1], u));
    }
}

/// A beatmap with notes has rows; their times rise and are times of events.
pub proof fn lemma_timeline(objects: Seq<HitObject>)
    requires
        all_timed(objects),
    ensures
        timeline(objects).len() == row_times(objects, NEVER as int).len(),
        objects.len() > 0 ==> timeline(objects).len() > 0,
        forall|i: int|
            0 <= i < timeline(objects).len() ==> -4 * LIMIT <= (#[trigger] timeline(
                objects,
            )[i]).time <= 4 * LIMIT && timeline(objects)[i].time == row_times(
                objects,
                NEVER as int,
            )[i],
        forall|i: int, j: int|
            0 <= i < j < timeline(objects).len() ==> (#[trigger] timeline(objects)[i]).time
                + ROW_TOLERANCE < (#[trigger] timeline(objects)[j]).time,
{
    let ts = row_times(objects, NEVER as int);
    law_rows_are_apart(objects, NEVER as int);
    if objects.len() > 0 {
        assert(timed(objects[0]));
        assert(has_event(objects[0], objects[0].start as int));
        assert(is_event(objects, objects[0].start as int));
        law_every_event_is_in_a_row(objects, NEVER as int, objects[0].start as int);
    }
    assert forall|i: int| 0 <= i < ts.len() implies -4 * LIMIT <= #[trigger] ts[i] <= 4 * LIMIT by {
        let t = ts[i];
        assert(is_event(objects, t));
        let n = choose|n: int| 0 <= n < objects.len() && has_event(#[trigger] objects[n], t);
        assert(timed(objects[n]));
    }
}

} // verus!
