//! Patterns of holds, and where rows show them.

use crate::patterns::{
    chord_roll_rows, chordjack_rows, chordstream_4k_handstream, chordstream_4k_jumpstream,
    chordstream_7k_chord_roll, chordstream_7k_dense_chordstream, chordstream_7k_double_streams,
    chordstream_7k_light_chordstream, columns_meet, dense_chordstream_rows, double_stream_rows,
    handstream_rows, hold_shown, if_rows, is_chordjack, is_ln_head_context, jumpstream_rows,
    light_chordstream_rows, meet, minijack_rows, roll_rows, rows_if, shows_hold, starts_hold,
    stream_4k_roll,
};
use crate::primitives::{
    count_shared, detect_direction, direction_of, has_column, is_roll, shared, views, Direction,
    Primitive, PrimitiveView,
};
use crate::types::Ratio;
use vstd::prelude::*;

verus! {

/// Ticks of a millisecond, as often as a beat has quarters.
pub const BEAT_QUARTERS: i128 = 4_000_000_000_000;

/// The tempo of a jack whose hits are `delta` milliseconds apart, at most 230.
pub open spec fn jack_tempo(delta: int) -> Ratio {
    if delta <= 65 {
        Ratio { num: 230, den: 1 }
    } else {
        Ratio { num: 15000, den: delta as i128 }
    }
}

/// The tempo of a jack whose hits are `delta_ms` apart: four hits to a beat,
/// and at most 230.
pub fn jack_bpm(delta_ms: i64) -> (r: Ratio)
    ensures
        r == jack_tempo(delta_ms as int),
{
    if delta_ms <= 65 {
        Ratio { num: 230, den: 1 }
    } else {
        Ratio { num: 15000, den: delta_ms as i128 }
    }
}

/// Whether a jack with such hits has a tempo of 90 or more.
pub open spec fn is_jacky(delta: int) -> bool {
    jack_tempo(delta).num >= 90 * jack_tempo(delta).den
}

/// The times at which the first `n` rows hold one column and tap another.
pub open spec fn lock_hits(w: Seq<PrimitiveView>, held: usize, tapped: usize, n: nat) -> Seq<int>
    decreases n,
{
    if n == 0 {
        Seq::empty()
    } else {
        let before = lock_hits(w, held, tapped, (n - 1) as nat);
        let row = w[n - 1];
        if row.ln_bodies.contains(held) && row.normal_notes.contains(tapped) {
            before.push(row.time)
        } else {
            before
        }
    }
}

/// Whether two hits in a row are fast enough for a jack.
pub open spec fn has_jack(hits: Seq<int>) -> bool {
    exists|k: int| 0 <= k < hits.len() - 1 && is_jacky(#[trigger] hits[k + 1] - hits[k])
}

/// The number of rows that a window reads at most.
pub open spec fn window(w: Seq<PrimitiveView>, n: nat) -> nat {
    if w.len() < n {
        w.len()
    } else {
        n
    }
}

/// Whether one column is held while another is tapped three times or more,
/// fast enough somewhere.
pub open spec fn locks(w: Seq<PrimitiveView>, held: usize, tapped: usize) -> bool {
    let hits = lock_hits(w, held, tapped, window(w, 8));
    hits.len() >= 3 && has_jack(hits)
}

/// Whether a column lies next to a held one, under the same hand.
pub open spec fn beside(held: int, column: int, keys: int, split: int) -> bool {
    0 <= column < keys && (column == held - 1 || column == held + 1) && (held < split) == (column
        < split)
}

/// A hold, while the column next to it under the same hand is tapped.
pub open spec fn column_lock_rows(w: Seq<PrimitiveView>) -> nat {
    rows_if(
        w.len() >= 3 && w[0].ln_heads.len() > 0 && exists|column: usize|
            beside(w[0].ln_heads[0] as int, column as int, w[0].keys, w[0].left_hand_keys)
                && #[trigger] locks(w, w[0].ln_heads[0], column),
        3,
    )
}

fn hits_of(xs: &[Primitive], held: usize, tapped: usize) -> (r: Vec<i64>)
    ensures
        r@.map_values(|t: i64| t as int) == lock_hits(
            views(xs@),
            held,
            tapped,
            window(views(xs@), 8),
        ),
{
    let ghost w = views(xs@);
    let limit: usize = if xs.len() < 8 {
        xs.len()
    } else {
        8
    };
    let mut out: Vec<i64> = Vec::new();
    let mut n: usize = 0;
    assert(out@.map_values(|t: i64| t as int) =~= Seq::<int>::empty());
    while n < limit
        invariant
            n <= limit <= xs@.len(),
            w == views(xs@),
            out@.map_values(|t: i64| t as int) == lock_hits(w, held, tapped, n as nat),
        decreases limit - n,
    {
        assert(w[n as int] == xs@[n as int]@);
        if has_column(xs[n].ln_bodies.as_slice(), held) && has_column(
            xs[n].normal_notes.as_slice(),
            tapped,
        ) {
            let ghost before = out@.map_values(|t: i64| t as int);
            out.push(xs[n].time);
            assert(out@.map_values(|t: i64| t as int) =~= before.push(xs@[n as int].time as int));
        }
        n = n + 1;
    }
    out
}

fn lock_found(xs: &[Primitive], held: usize, tapped: usize) -> (r: bool)
    ensures
        r == locks(views(xs@), held, tapped),
{
    let hits = hits_of(xs, held, tapped);
    let ghost spec_hits = hits@.map_values(|t: i64| t as int);
    if hits.len() < 3 {
        return false;
    }
    let mut k: usize = 0;
    while k < hits.len() - 1
        invariant
            3 <= hits@.len(),
            k <= hits@.len() - 1,
            spec_hits == hits@.map_values(|t: i64| t as int),
            spec_hits == lock_hits(views(xs@), held, tapped, window(views(xs@), 8)),
            forall|j: int| 0 <= j < k ==> !is_jacky(#[trigger] spec_hits[j + 1] - spec_hits[j]),
        decreases hits@.len() - k,
    {
        let delta: i128 = hits[k + 1] as i128 - hits[k] as i128;
        assert(delta == spec_hits[k + 1] - spec_hits[k as int]);
        if delta <= 166 {
            assert(is_jacky(spec_hits[k + 1] - spec_hits[k as int]));
            return true;
        }
        k = k + 1;
    }
    assert forall|j: int| 0 <= j < spec_hits.len() - 1 implies !is_jacky(
        #[trigger] spec_hits[j + 1] - spec_hits[j],
    ) by {}
    false
}

/// A hold, while the column next to it under the same hand is tapped.
pub fn coordination_column_lock(xs: &[Primitive]) -> (r: usize)
    ensures
        r == column_lock_rows(views(xs@)),
{
    let ghost w = views(xs@);
    if xs.len() < 3 || xs[0].ln_heads.len() == 0 {
        return 0;
    }
    assert(w[0] == xs@[0]@);
    let held: usize = xs[0].ln_heads[0];
    let keys: usize = xs[0].keys;
    let split: usize = xs[0].left_hand_keys;
    if held > 0 && held - 1 < keys && (held < split) == (held - 1 < split) {
        if lock_found(xs, held, held - 1) {
            let ghost column: usize = (held - 1) as usize;
            assert(beside(held as int, column as int, keys as int, split as int));
            assert(locks(w, w[0].ln_heads[0], column));
            return 3;
        }
    }
    if held < keys && held < usize::MAX && held + 1 < keys && (held < split) == (held + 1
        < split) {
        if lock_found(xs, held, held + 1) {
            let ghost column: usize = (held + 1) as usize;
            assert(beside(held as int, column as int, keys as int, split as int));
            assert(locks(w, w[0].ln_heads[0], column));
            return 3;
        }
    }
    assert forall|column: usize|
        beside(held as int, column as int, keys as int, split as int) implies !#[trigger] locks(
        w,
        held,
        column,
    ) by {}
    0
}

/// A tap where a hold is about to start, or a tap where one has just ended,
/// within a quarter of a beat.
pub open spec fn shield_rows(w: Seq<PrimitiveView>) -> nat {
    rows_if(
        w.len() >= 2 && 0 <= w[1].time - w[0].time && (w[1].time - w[0].time) * BEAT_QUARTERS
            <= w[1].beat_length && (meet(w[0].normal_notes, w[1].ln_heads) || meet(
            w[0].ln_tails,
            w[1].normal_notes,
        )),
        2,
    )
}

/// A tap where a hold is about to start, or a tap where one has just ended.
pub fn coordination_shield(xs: &[Primitive]) -> (r: usize)
    ensures
        r == shield_rows(views(xs@)),
{
    if xs.len() < 2 {
        return 0;
    }
    let delta: i128 = xs[1].time as i128 - xs[0].time as i128;
    if delta < 0 || delta * BEAT_QUARTERS > xs[1].beat_length {
        return 0;
    }
    if_rows(
        columns_meet(xs[0].normal_notes.as_slice(), xs[1].ln_heads.as_slice()) || columns_meet(
            xs[0].ln_tails.as_slice(),
            xs[1].normal_notes.as_slice(),
        ),
        2,
    )
}

/// The gaps from rows that end a hold to rows that start one, among the first
/// `n` rows and the ones behind them.
pub open spec fn release_gaps(w: Seq<PrimitiveView>, n: nat) -> Seq<int>
    decreases n,
{
    if n == 0 {
        Seq::empty()
    } else {
        let before = release_gaps(w, (n - 1) as nat);
        if w[n - 1].ln_tails.len() > 0 && w[n as int].ln_heads.len() > 0 {
            before.push(w[n as int].time - w[n - 1].time)
        } else {
            before
        }
    }
}

/// Whether all numbers lie within `d` of each other.
pub open spec fn close(s: Seq<int>, d: int) -> bool {
    forall|i: int, j: int| 0 <= i < s.len() && 0 <= j < s.len() ==> #[trigger] s[i] - #[trigger] s[j] <= d
}

/// Whether five rows without taps hold three columns or more somewhere, and
/// pause between holds evenly.
pub open spec fn is_inverse(w: Seq<PrimitiveView>) -> bool {
    &&& w.len() >= 5
    &&& forall|i: int| 0 <= i < 5 ==> (#[trigger] w[i]).normal_notes.len() == 0
    &&& exists|i: int| 0 <= i < 5 && (#[trigger] w[i]).ln_bodies.len() >= 3
    &&& release_gaps(w, 4).len() >= 2
    &&& close(release_gaps(w, 4), 5)
}

fn inverse_ready(xs: &[Primitive]) -> (r: bool)
    ensures
        r == is_inverse(views(xs@)),
{
    let ghost w = views(xs@);
    if xs.len() < 5 {
        return false;
    }
    let mut full = false;
    let mut i: usize = 0;
    while i < 5
        invariant
            i <= 5 <= xs@.len(),
            w == views(xs@),
            forall|j: int| 0 <= j < i ==> (#[trigger] w[j]).normal_notes.len() == 0,
            full == exists|j: int| 0 <= j < i && (#[trigger] w[j]).ln_bodies.len() >= 3,
        decreases 5 - i,
    {
        assert(w[i as int] == xs@[i as int]@);
        if xs[i].normal_notes.len() > 0 {
            return false;
        }
        if xs[i].ln_bodies.len() >= 3 {
            assert(w[i as int].ln_bodies.len() >= 3);
            full = true;
        }
        i = i + 1;
    }
    if !full {
        return false;
    }
    let mut gaps: usize = 0;
    let mut low: i128 = 0;
    let mut high: i128 = 0;
    let mut n: usize = 0;
    while n < 4
        invariant
            n <= 4,
            5 <= xs@.len(),
            w == views(xs@),
            gaps == release_gaps(w, n as nat).len(),
            gaps <= n,
            -0x1_0000_0000_0000_0000 <= low <= 0x1_0000_0000_0000_0000,
            -0x1_0000_0000_0000_0000 <= high <= 0x1_0000_0000_0000_0000,
            gaps > 0 ==> (forall|k: int|
                0 <= k < gaps ==> low <= #[trigger] release_gaps(w, n as nat)[k] <= high)
                && release_gaps(w, n as nat).contains(low as int) && release_gaps(
                w,
                n as nat,
            ).contains(high as int),
        decreases 4 - n,
    {
        assert(w[n as int] == xs@[n as int]@);
        assert(w[n + 1] == xs@[n + 1]@);
        if xs[n].ln_tails.len() > 0 && xs[n + 1].ln_heads.len() > 0 {
            let gap: i128 = xs[n + 1].time as i128 - xs[n].time as i128;
            let ghost before = release_gaps(w, n as nat);
            let ghost all = release_gaps(w, (n + 1) as nat);
            let ghost (l, h) = (low as int, high as int);
            assert(all == before.push(gap as int));
            if gaps == 0 {
                low = gap;
                high = gap;
                assert(all[0] == gap);
            } else {
                proof {
                    let a = choose|a: int| 0 <= a < before.len() && before[a] == l;
                    let b = choose|b: int| 0 <= b < before.len() && before[b] == h;
                    assert(all[a] == l);
                    assert(all[b] == h);
                    assert(all[before.len() as int] == gap);
                }
                if gap < low {
                    low = gap;
                }
                if gap > high {
                    high = gap;
                }
            }
            gaps = gaps + 1;
        }
        n = n + 1;
    }
    if gaps < 2 {
        return false;
    }
    let r = high - low <= 5;
    proof {
        let all = release_gaps(w, 4);
        if !r {
            let a = choose|a: int| 0 <= a < all.len() && all[a] == high as int;
            let b = choose|b: int| 0 <= b < all.len() && all[b] == low as int;
            assert(all[a] - all[b] > 5);
        }
    }
    r
}

/// Even pauses between holds.
pub fn density_4k_inverse(xs: &[Primitive]) -> (r: usize)
    ensures
        r == rows_if(is_inverse(views(xs@)), 5),
{
    if_rows(inverse_ready(xs), 5)
}

/// Whether any of the first `n` rows shows anything of a hold.
pub open spec fn holds_near(w: Seq<PrimitiveView>, n: nat) -> bool {
    exists|i: int| 0 <= i < window(w, n) && shows_hold(#[trigger] w[i])
}

fn has_ln_context(xs: &[Primitive], n: usize) -> (r: bool)
    ensures
        r == holds_near(views(xs@), n as nat),
{
    let ghost w = views(xs@);
    let limit: usize = if xs.len() < n {
        xs.len()
    } else {
        n
    };
    let mut i: usize = 0;
    while i < limit
        invariant
            i <= limit <= xs@.len(),
            w == views(xs@),
            limit == window(w, n as nat),
            forall|j: int| 0 <= j < i ==> !shows_hold(#[trigger] w[j]),
        decreases limit - i,
    {
        assert(w[i as int] == xs@[i as int]@);
        if hold_shown(&xs[i]) {
            assert(shows_hold(w[i as int]));
            return true;
        }
        i = i + 1;
    }
    false
}

/// Those of the first `n` rows that strike.
pub open spec fn striking(w: Seq<PrimitiveView>, n: nat) -> Seq<PrimitiveView>
    decreases n,
{
    if n == 0 {
        Seq::empty()
    } else if w[n - 1].notes > 0 {
        striking(w, (n - 1) as nat).push(w[n - 1])
    } else {
        striking(w, (n - 1) as nat)
    }
}

/// How many of the first `n` rows repeat a column.
pub open spec fn repeats(w: Seq<PrimitiveView>, n: nat) -> nat
    decreases n,
{
    if n == 0 {
        0
    } else {
        repeats(w, (n - 1) as nat) + (if w[n - 1].jacks > 0 {
            1nat
        } else {
            0
        })
    }
}

/// Repeats near holds: a chord jack or a mini jack, or else two repeats among
/// four strikes, with a chord or fast enough.
pub open spec fn jacky_rows(w: Seq<PrimitiveView>) -> nat {
    let rows = striking(w, window(w, 6));
    let n = window(rows, 4);
    if w.len() < 2 || !holds_near(w, 6) || rows.len() < 2 {
        0
    } else if chordjack_rows(rows) != 0 || minijack_rows(rows) != 0 {
        4
    } else {
        rows_if(
            repeats(rows, n) >= 2 && exists|i: int|
                0 <= i < n && ((#[trigger] rows[i]).notes >= 2 || rows[i].ms_per_beat <= 185),
            3,
        )
    }
}

/// Repeats near holds.
pub fn wildcard_jack(xs: &[Primitive]) -> (r: usize)
    ensures
        r == jacky_rows(views(xs@)),
{
    let ghost w = views(xs@);
    if xs.len() < 2 || !has_ln_context(xs, 6) {
        return 0;
    }
    let limit: usize = if xs.len() < 6 {
        xs.len()
    } else {
        6
    };
    let mut rows: Vec<usize> = Vec::new();
    let mut i: usize = 0;
    while i < limit
        invariant
            i <= limit <= xs@.len(),
            w == views(xs@),
            rows@.len() == striking(w, i as nat).len(),
            rows@.len() <= i,
            forall|k: int|
                0 <= k < rows@.len() ==> (#[trigger] rows@[k]) < xs@.len() && striking(
                    w,
                    i as nat,
                )[k] == xs@[rows@[k] as int]@,
        decreases limit - i,
    {
        assert(w[i as int] == xs@[i as int]@);
        if xs[i].notes > 0 {
            rows.push(i);
        }
        i = i + 1;
    }
    let ghost kept = striking(w, window(w, 6));
    if rows.len() < 2 {
        return 0;
    }
    assert(kept[0] == xs@[rows@[0] as int]@);
    assert(kept[1] == xs@[rows@[1] as int]@);
    let a = &xs[rows[0]];
    let b = &xs[rows[1]];
    if is_chordjack(a, b) || (a.jacks > 0 && b.jacks == 0) {
        return 4;
    }
    let n: usize = if rows.len() < 4 {
        rows.len()
    } else {
        4
    };
    let mut jacks: usize = 0;
    let mut near = false;
    let mut k: usize = 0;
    while k < n
        invariant
            k <= n <= rows@.len(),
            n <= 4,
            kept.len() == rows@.len(),
            forall|j: int|
                0 <= j < rows@.len() ==> (#[trigger] rows@[j]) < xs@.len() && kept[j]
                    == xs@[rows@[j] as int]@,
            jacks == repeats(kept, k as nat),
            jacks <= k,
            near == exists|j: int|
                0 <= j < k && ((#[trigger] kept[j]).notes >= 2 || kept[j].ms_per_beat <= 185),
        decreases n - k,
    {
        let row = &xs[rows[k]];
        assert(kept[k as int] == row@);
        if row.jacks > 0 {
            jacks = jacks + 1;
        }
        if row.notes >= 2 || row.ms_per_beat <= 185 {
            near = true;
        }
        k = k + 1;
    }
    if_rows(jacks >= 2 && near, 3)
}

/// Single ends of holds in four rows, the second and the third on different
/// columns, where nothing else is shown.
pub open spec fn release_rows(w: Seq<PrimitiveView>) -> nat {
    rows_if(
        w.len() >= 4 && shield_rows(w) == 0 && !is_inverse(w) && jacky_rows(w) == 0 && (forall|
            i: int,
        |
            0 <= i < 4 ==> (#[trigger] w[i]).ln_tails.len() == 1) && w[1].ln_tails[0]
            != w[2].ln_tails[0] && w[2].time > w[1].time,
        4,
    )
}

/// Single ends of holds, row after row.
pub fn coordination_release(xs: &[Primitive]) -> (r: usize)
    ensures
        r == release_rows(views(xs@)),
{
    let ghost w = views(xs@);
    if xs.len() < 4 || coordination_shield(xs) != 0 || inverse_ready(xs) || wildcard_jack(xs)
        != 0 {
        return 0;
    }
    let mut i: usize = 0;
    while i < 4
        invariant
            i <= 4 <= xs@.len(),
            w == views(xs@),
            forall|j: int| 0 <= j < i ==> (#[trigger] w[j]).ln_tails.len() == 1,
        decreases 4 - i,
    {
        assert(w[i as int] == xs@[i as int]@);
        if xs[i].ln_tails.len() != 1 {
            return 0;
        }
        i = i + 1;
    }
    assert(w[1] == xs@[1]@ && w[2] == xs@[2]@);
    if_rows(xs[1].ln_tails[0] != xs[2].ln_tails[0] && xs[2].time > xs[1].time, 4)
}

/// The last starts of holds before row `i`.
pub open spec fn heads_before(w: Seq<PrimitiveView>, i: int) -> Seq<usize>
    decreases i,
{
    if i <= 0 {
        Seq::empty()
    } else if w[i - 1].ln_heads.len() > 0 {
        w[i - 1].ln_heads
    } else {
        heads_before(w, i - 1)
    }
}

/// Row `i` as if only the starts of holds were struck.
pub open spec fn head_row(w: Seq<PrimitiveView>, i: int) -> PrimitiveView {
    let heads = w[i].ln_heads;
    let previous = heads_before(w, i);
    let both = previous.len() > 0 && heads.len() > 0;
    PrimitiveView {
        notes: heads.len() as int,
        jacks: shared(heads, previous, heads.len()) as int,
        direction: if both {
            direction_of(previous, heads)
        } else {
            Direction::Still
        },
        roll: both && is_roll(previous, heads),
        normal_notes: Seq::empty(),
        raw_notes: heads,
        ..w[i]
    }
}

/// The first `n` rows as if only the starts of holds were struck.
pub open spec fn heads_only(w: Seq<PrimitiveView>, n: nat) -> Seq<PrimitiveView> {
    Seq::new(n, |i: int| head_row(w, i))
}

fn head_rows(xs: &[Primitive], n: usize) -> (r: Vec<Primitive>)
    requires
        n <= xs@.len(),
    ensures
        views(r@) == heads_only(views(xs@), n as nat),
{
    let ghost w = views(xs@);
    let mut out: Vec<Primitive> = Vec::new();
    let mut previous: Vec<usize> = Vec::new();
    let mut i: usize = 0;
    assert(previous@ =~= heads_before(w, 0));
    while i < n
        invariant
            i <= n <= xs@.len(),
            w == views(xs@),
            previous@ == heads_before(w, i as int),
            out@.len() == i,
            forall|j: int| 0 <= j < i ==> (#[trigger] out@[j])@ == head_row(w, j),
        decreases n - i,
    {
        let row = &xs[i];
        assert(w[i as int] == row@);
        let heads = row.ln_heads.clone();
        let (direction, roll) = if previous.len() > 0 && heads.len() > 0 {
            detect_direction(previous.as_slice(), heads.as_slice())
        } else {
            (Direction::Still, false)
        };
        let next = Primitive {
            index: row.index,
            time: row.time,
            ms_per_beat: row.ms_per_beat,
            beat_length: row.beat_length,
            notes: heads.len(),
            jacks: count_shared(heads.as_slice(), previous.as_slice()),
            direction,
            roll,
            keys: row.keys,
            left_hand_keys: row.left_hand_keys,
            ln_heads: row.ln_heads.clone(),
            ln_bodies: row.ln_bodies.clone(),
            ln_tails: row.ln_tails.clone(),
            normal_notes: Vec::new(),
            raw_notes: heads.clone(),
        };
        assert(next@ =~= head_row(w, i as int));
        out.push(next);
        if heads.len() > 0 {
            previous = heads;
        }
        i = i + 1;
    }
    assert(views(out@) =~= heads_only(w, n as nat));
    out
}

/// A jump stream of the starts of holds.
pub open spec fn js_density_rows(w: Seq<PrimitiveView>) -> nat {
    rows_if(w.len() >= 4 && starts_hold(w) && jumpstream_rows(heads_only(w, 4)) != 0, 4)
}

/// A jump stream of the starts of holds.
pub fn density_4k_jumpstream(xs: &[Primitive]) -> (r: usize)
    ensures
        r == js_density_rows(views(xs@)),
{
    if xs.len() < 4 || !is_ln_head_context(xs) {
        return 0;
    }
    if_rows(chordstream_4k_jumpstream(head_rows(xs, 4).as_slice()) != 0, 4)
}

/// A hand stream of the starts of holds.
pub open spec fn hs_density_rows(w: Seq<PrimitiveView>) -> nat {
    rows_if(w.len() >= 4 && starts_hold(w) && handstream_rows(heads_only(w, 4)) != 0, 4)
}

/// A hand stream of the starts of holds.
pub fn density_4k_handstream(xs: &[Primitive]) -> (r: usize)
    ensures
        r == hs_density_rows(views(xs@)),
{
    if xs.len() < 4 || !is_ln_head_context(xs) {
        return 0;
    }
    if_rows(chordstream_4k_handstream(head_rows(xs, 4).as_slice()) != 0, 4)
}

/// A double stream of the starts of holds.
pub open spec fn ds_density_rows(w: Seq<PrimitiveView>) -> nat {
    rows_if(w.len() >= 2 && starts_hold(w) && double_stream_rows(heads_only(w, 2)) != 0, 2)
}

/// A double stream of the starts of holds.
pub fn density_7k_double_streams(xs: &[Primitive]) -> (r: usize)
    ensures
        r == ds_density_rows(views(xs@)),
{
    if xs.len() < 2 || !is_ln_head_context(xs) {
        return 0;
    }
    if_rows(chordstream_7k_double_streams(head_rows(xs, 2).as_slice()) != 0, 2)
}

/// A dense chord stream of the starts of holds.
pub open spec fn dcs_density_rows(w: Seq<PrimitiveView>) -> nat {
    rows_if(w.len() >= 2 && starts_hold(w) && dense_chordstream_rows(heads_only(w, 2)) != 0, 2)
}

/// A dense chord stream of the starts of holds.
pub fn density_7k_dense_chordstream(xs: &[Primitive]) -> (r: usize)
    ensures
        r == dcs_density_rows(views(xs@)),
{
    if xs.len() < 2 || !is_ln_head_context(xs) {
        return 0;
    }
    if_rows(chordstream_7k_dense_chordstream(head_rows(xs, 2).as_slice()) != 0, 2)
}

/// A light chord stream of the starts of holds.
pub open spec fn lcs_density_rows(w: Seq<PrimitiveView>) -> nat {
    rows_if(w.len() >= 2 && starts_hold(w) && light_chordstream_rows(heads_only(w, 2)) != 0, 2)
}

/// A light chord stream of the starts of holds.
pub fn density_7k_light_chordstream(xs: &[Primitive]) -> (r: usize)
    ensures
        r == lcs_density_rows(views(xs@)),
{
    if xs.len() < 2 || !is_ln_head_context(xs) {
        return 0;
    }
    if_rows(chordstream_7k_light_chordstream(head_rows(xs, 2).as_slice()) != 0, 2)
}

/// Whether a direction is a side.
pub open spec fn sideways(d: Direction) -> bool {
    d == Direction::Left || d == Direction::Right
}

/// Speed near holds: starts of holds that roll, go on to one side, or follow
/// each other fast.
pub open spec fn speedy_rows(w: Seq<PrimitiveView>) -> nat {
    let n = window(w, 4);
    let rows = heads_only(w, n);
    let onward = sideways(rows[0].direction) && rows[0].direction == rows[1].direction;
    rows_if(
        w.len() >= 2 && holds_near(w, 4) && (if w[0].keys == 4 {
            (n >= 3 && roll_rows(rows) != 0) || onward || rows[0].ms_per_beat <= 180
        } else {
            (n >= 3 && chord_roll_rows(rows) != 0) || (rows[0].notes >= 2 && rows[1].notes >= 2
                && onward) || rows[0].ms_per_beat <= 170
        }),
        3,
    )
}

/// Speed near holds.
pub fn wildcard_speed(xs: &[Primitive]) -> (r: usize)
    ensures
        r == speedy_rows(views(xs@)),
{
    let ghost w = views(xs@);
    if xs.len() < 2 || !has_ln_context(xs, 4) {
        return 0;
    }
    let n: usize = if xs.len() < 4 {
        xs.len()
    } else {
        4
    };
    let rows = head_rows(xs, n);
    assert(views(rows@).len() == rows@.len());
    assert(views(rows@)[0] == rows@[0]@);
    assert(views(rows@)[1] == rows@[1]@);
    let side = rows[0].direction == Direction::Left || rows[0].direction == Direction::Right;
    let onward = side && rows[0].direction == rows[1].direction;
    if xs[0].keys == 4 {
        if_rows(
            (n >= 3 && stream_4k_roll(rows.as_slice()) != 0) || onward || rows[0].ms_per_beat <= 180,
            3,
        )
    } else {
        if_rows(
            (n >= 3 && chordstream_7k_chord_roll(rows.as_slice()) != 0) || (rows[0].notes >= 2
                && rows[1].notes >= 2 && onward) || rows[0].ms_per_beat <= 170,
            3,
        )
    }
}

} // verus!
