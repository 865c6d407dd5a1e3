//! What mirroring a chart and moving it in time leave as it is.

use crate::analyzer::{analysis, clocked, clocked_object};
use crate::beatmap::{well_placed, HitObject, ParsedView};
use crate::columns::{
    has, lemma_common, lemma_mask_of, lemma_same_mask, lemma_weight, mask_of, ones, weight,
};
use crate::features::{
    held_before, lasting, lasting_sum, pattern_amount, pattern_amounts, returned, rotated,
    summary_of, totals,
};
use crate::number::LIMIT;
use crate::strain::{
    anchored, gap_since, head_facts, jack_gaps, last_head, last_mask, last_struck, notes_within,
    strain, strain_row, window_masks, window_transitions, zone_beat, zone_beats, zones, HeadView,
    StrainView, ZoneBeat, ANCHOR_GAP,
};
use crate::tally::{alike, law_tally_ignores_names};
use crate::timeline::{
    all_timed, has_event, held, in_row, is_event, later, lemma_later, lemma_next_event,
    lemma_timeline, next_event, released, row_at, row_times, struck, timed, timeline, TimelineRow,
    NEVER, ROW_TOLERANCE,
};
use crate::types::ManiaGameMod;
use vstd::prelude::*;

verus! {

/// A column seen from the other side.
pub open spec fn flipped(c: int, keys: int, flip: bool) -> int {
    if flip {
        keys - 1 - c
    } else {
        c
    }
}

/// A note moved by `d` and, if `flip`, seen from the other side.
pub open spec fn image(o: HitObject, keys: int, flip: bool, d: int) -> HitObject {
    HitObject {
        column: flipped(o.column as int, keys, flip) as u8,
        start: (o.start + d) as i128,
        end: (o.end + d) as i128,
        long_note: o.long_note,
    }
}

/// Whether a note is the image of one of `a`.
pub open spec fn is_image(
    a: Seq<HitObject>,
    o: HitObject,
    keys: int,
    flip: bool,
    d: int,
) -> bool {
    exists|i: int| 0 <= i < a.len() && o == image(#[trigger] a[i], keys, flip, d)
}

/// Whether the notes of `b` are the images of those of `a`, in any order.
#[verifier::opaque]
pub open spec fn images(
    a: Seq<HitObject>,
    b: Seq<HitObject>,
    keys: int,
    flip: bool,
    d: int,
) -> bool {
    &&& forall|i: int| 0 <= i < a.len() ==> b.contains(image(#[trigger] a[i], keys, flip, d))
    &&& forall|j: int| 0 <= j < b.len() ==> is_image(a, #[trigger] b[j], keys, flip, d)
}

/// Whether notes lie on the columns there are, and stay within range where
/// they are moved by `d`.
pub open spec fn movable(a: Seq<HitObject>, keys: int, d: int) -> bool {
    forall|i: int|
        0 <= i < a.len() ==> (#[trigger] a[i]).column < keys && timed(a[i]) && -4 * LIMIT
            <= a[i].start + d && a[i].end + d <= 4 * LIMIT
}

/// Whether mask `n` is mask `m`, seen from the other side if `flip`.
pub open spec fn twin(m: u8, n: u8, keys: int, flip: bool) -> bool {
    &&& forall|c: int| 0 <= c < keys ==> #[trigger] has(n, c) == has(m, flipped(c, keys, flip))
    &&& forall|c: int| keys <= c < 8 ==> !#[trigger] has(n, c)
    &&& forall|c: int| keys <= c < 8 ==> !#[trigger] has(m, c)
}

/// Whether row `s` is row `r`, moved by `d` and seen from the other side if
/// `flip`.
pub open spec fn twin_row(
    r: TimelineRow,
    s: TimelineRow,
    keys: int,
    flip: bool,
    d: int,
) -> bool {
    &&& s.time == r.time + d
    &&& twin(r.head_mask, s.head_mask, keys, flip)
    &&& twin(r.normal_mask, s.normal_mask, keys, flip)
    &&& twin(r.ln_head_mask, s.ln_head_mask, keys, flip)
    &&& twin(r.release_mask, s.release_mask, keys, flip)
    &&& twin(r.active_hold_mask, s.active_hold_mask, keys, flip)
}

/// Whether rows are [`twin_row`]s of each other, one by one.
pub open spec fn twin_rows(
    r: Seq<TimelineRow>,
    s: Seq<TimelineRow>,
    keys: int,
    flip: bool,
    d: int,
) -> bool {
    &&& r.len() == s.len()
    &&& forall|i: int| 0 <= i < r.len() ==> twin_row(#[trigger] r[i], #[trigger] s[i], keys, flip, d)
}

/// Whether charts with so many keys are dealt with.
pub open spec fn is_key_count(keys: int) -> bool {
    keys == 4 || keys == 6 || keys == 7
}

proof fn lemma_empty_mask(m: u8)
    ensures
        m == 0 <==> (forall|c: int| 0 <= c < 8 ==> !#[trigger] has(m, c)),
{
    lemma_weight();
    if forall|c: int| 0 <= c < 8 ==> !#[trigger] has(m, c) {
        lemma_same_mask(m, 0);
    }
}

/// Twins are empty together and hold as many columns.
proof fn lemma_twin(m: u8, n: u8, keys: int, flip: bool)
    requires
        is_key_count(keys),
        twin(m, n, keys, flip),
    ensures
        m == 0 <==> n == 0,
        ones(m) == ones(n),
{
    lemma_empty_mask(m);
    lemma_empty_mask(n);
    assert forall|c: int| 0 <= c < keys implies #[trigger] has(m, c) == has(
        n,
        flipped(c, keys, flip),
    ) by {
        assert(has(n, flipped(c, keys, flip)) == has(
            m,
            flipped(flipped(c, keys, flip), keys, flip),
        ));
    }
    assert(m == 0 <==> n == 0) by {
        if n == 0 && m != 0 {
            let c = choose|c: int| 0 <= c < 8 && #[trigger] has(m, c);
            assert(has(n, flipped(c, keys, flip)));
        }
        if m == 0 && n != 0 {
            let c = choose|c: int| 0 <= c < 8 && #[trigger] has(n, c);
            assert(has(m, flipped(c, keys, flip)));
        }
    }
    assert(has(n, 0) == has(m, flipped(0, keys, flip)));
    assert(has(n, 1) == has(m, flipped(1, keys, flip)));
    assert(has(n, 2) == has(m, flipped(2, keys, flip)));
    assert(has(n, 3) == has(m, flipped(3, keys, flip)));
    assert(!(has(m, 7)) && !(has(n, 7)));
    if keys >= 6 {
        assert(has(n, 4) == has(m, flipped(4, keys, flip)));
        assert(has(n, 5) == has(m, flipped(5, keys, flip)));
    } else {
        assert(!(has(m, 4)) && !(has(n, 4)));
        assert(!(has(m, 5)) && !(has(n, 5)));
    }
    if keys == 7 {
        assert(has(n, 6) == has(m, flipped(6, keys, flip)));
    } else {
        assert(!(has(m, 6)) && !(has(n, 6)));
    }
}

/// The intersections of twins are twins.
proof fn lemma_twin_common(m: u8, n: u8, p: u8, q: u8, keys: int, flip: bool)
    requires
        is_key_count(keys),
        twin(m, n, keys, flip),
        twin(p, q, keys, flip),
    ensures
        twin(m & p, n & q, keys, flip),
        m & p == 0 <==> n & q == 0,
        ones(m & p) == ones(n & q),
{
    lemma_common(m, p);
    lemma_common(n, q);
    assert forall|c: int| 0 <= c < keys implies #[trigger] has(n & q, c) == has(
        m & p,
        flipped(c, keys, flip),
    ) by {
        assert(has(n, c) == has(m, flipped(c, keys, flip)));
        assert(has(q, c) == has(p, flipped(c, keys, flip)));
    }
    assert forall|c: int| keys <= c < 8 implies !#[trigger] has(n & q, c) by {
        assert(!(has(n, c)));
    }
    assert forall|c: int| keys <= c < 8 implies !#[trigger] has(m & p, c) by {
        assert(!(has(m, c)));
    }
    lemma_twin(m & p, n & q, keys, flip);
}

/// Masks are equal where their twins are.
proof fn lemma_twin_equal(m: u8, n: u8, p: u8, q: u8, keys: int, flip: bool)
    requires
        is_key_count(keys),
        twin(m, n, keys, flip),
        twin(p, q, keys, flip),
    ensures
        m == p <==> n == q,
{
    if m == p {
        assert forall|c: int| 0 <= c < 8 implies #[trigger] has(n, c) == has(q, c) by {
            if c < keys {
                assert(has(q, c) == has(p, flipped(c, keys, flip)));
            } else {
                assert(!(has(q, c)));
            }
        }
        lemma_same_mask(n, q);
    }
    if n == q {
        assert forall|c: int| 0 <= c < 8 implies #[trigger] has(m, c) == has(p, c) by {
            if c < keys {
                let e = flipped(c, keys, flip);
                assert(has(n, e) == has(m, flipped(e, keys, flip)));
                assert(has(q, e) == has(p, flipped(e, keys, flip)));
            } else {
                assert(!(has(p, c)));
                assert(!(has(m, c)));
            }
        }
        lemma_same_mask(m, p);
    }
}

proof fn lemma_twin_column(c: int, keys: int, flip: bool)
    requires
        is_key_count(keys),
        0 <= c < keys,
    ensures
        twin(weight(c), weight(flipped(c, keys, flip)), keys, flip),
{
    lemma_weight();
    let (m, n) = (weight(c), weight(flipped(c, keys, flip)));
    assert forall|e: int| 0 <= e < keys implies #[trigger] has(n, e) == has(
        m,
        flipped(e, keys, flip),
    ) by {
        assert(has(m, flipped(e, keys, flip)) == (c == flipped(e, keys, flip)));
    }
}

/// The place of a part of the hands, seen from the other side.
pub open spec fn flipped_zone(z: int, keys: int, flip: bool) -> int {
    if flip {
        zones(keys as u8).len() - 1 - z
    } else {
        z
    }
}

proof fn lemma_twin_zone(z: int, keys: int, flip: bool)
    requires
        is_key_count(keys),
        0 <= z < zones(keys as u8).len(),
    ensures
        twin(zones(keys as u8)[z], zones(keys as u8)[flipped_zone(z, keys, flip)], keys, flip),
{
    let (m, n) = (zones(keys as u8)[z], zones(keys as u8)[flipped_zone(z, keys, flip)]);
    assert(has(3u8, 0) && has(3u8, 1) && !(has(3u8, 2)) && !(has(3u8, 3)) && !(has(3u8, 4)) && !(has(
        3u8,
        5,
    )) && !(has(3u8, 6)) && !(has(3u8, 7))) by {
        assert(3u8 & 1 != 0 && 3u8 & 2 != 0 && 3u8 & 4 == 0 && 3u8 & 8 == 0 && 3u8 & 16 == 0 && 3u8
            & 32 == 0 && 3u8 & 64 == 0 && 3u8 & 128 == 0) by (bit_vector);
    }
    assert(!(has(12u8, 0)) && !(has(12u8, 1)) && has(12u8, 2) && has(12u8, 3) && !(has(12u8, 4)) && !(has(
        12u8,
        5,
    )) && !(has(12u8, 6)) && !(has(12u8, 7))) by {
        assert(12u8 & 1 == 0 && 12u8 & 2 == 0 && 12u8 & 4 != 0 && 12u8 & 8 != 0 && 12u8 & 16 == 0
            && 12u8 & 32 == 0 && 12u8 & 64 == 0 && 12u8 & 128 == 0) by (bit_vector);
    }
    assert(has(7u8, 0) && has(7u8, 1) && has(7u8, 2) && !(has(7u8, 3)) && !(has(7u8, 4)) && !(has(7u8, 5))
        && !(has(7u8, 6)) && !(has(7u8, 7))) by {
        assert(7u8 & 1 != 0 && 7u8 & 2 != 0 && 7u8 & 4 != 0 && 7u8 & 8 == 0 && 7u8 & 16 == 0 && 7u8
            & 32 == 0 && 7u8 & 64 == 0 && 7u8 & 128 == 0) by (bit_vector);
    }
    assert(!(has(56u8, 0)) && !(has(56u8, 1)) && !(has(56u8, 2)) && has(56u8, 3) && has(56u8, 4) && has(
        56u8,
        5,
    ) && !(has(56u8, 6)) && !(has(56u8, 7))) by {
        assert(56u8 & 1 == 0 && 56u8 & 2 == 0 && 56u8 & 4 == 0 && 56u8 & 8 != 0 && 56u8 & 16 != 0
            && 56u8 & 32 != 0 && 56u8 & 64 == 0 && 56u8 & 128 == 0) by (bit_vector);
    }
    assert(!(has(8u8, 0)) && !(has(8u8, 1)) && !(has(8u8, 2)) && has(8u8, 3) && !(has(8u8, 4)) && !(has(
        8u8,
        5,
    )) && !(has(8u8, 6)) && !(has(8u8, 7))) by {
        assert(8u8 & 1 == 0 && 8u8 & 2 == 0 && 8u8 & 4 == 0 && 8u8 & 8 != 0 && 8u8 & 16 == 0 && 8u8
            & 32 == 0 && 8u8 & 64 == 0 && 8u8 & 128 == 0) by (bit_vector);
    }
    assert(!(has(112u8, 0)) && !(has(112u8, 1)) && !(has(112u8, 2)) && !(has(112u8, 3)) && has(112u8, 4)
        && has(112u8, 5) && has(112u8, 6) && !(has(112u8, 7))) by {
        assert(112u8 & 1 == 0 && 112u8 & 2 == 0 && 112u8 & 4 == 0 && 112u8 & 8 == 0 && 112u8 & 16
            != 0 && 112u8 & 32 != 0 && 112u8 & 64 != 0 && 112u8 & 128 == 0) by (bit_vector);
    }
    assert forall|c: int| 0 <= c < keys implies #[trigger] has(n, c) == has(
        m,
        flipped(c, keys, flip),
    ) by {
        if c == 0 {
        } else if c == 1 {
        } else if c == 2 {
        } else if c == 3 {
        } else if c == 4 {
        } else if c == 5 {
        } else {
            assert(c == 6);
        }
    }
    assert forall|c: int| keys <= c < 8 implies !#[trigger] has(n, c) by {
        if c == 4 {
        } else if c == 5 {
        } else if c == 6 {
        } else {
            assert(c == 7);
        }
    }
    assert forall|c: int| keys <= c < 8 implies !#[trigger] has(m, c) by {
        if c == 4 {
        } else if c == 5 {
        } else if c == 6 {
        } else {
            assert(c == 7);
        }
    }
}

proof fn lemma_image(o: HitObject, keys: int, flip: bool, d: int)
    requires
        is_key_count(keys),
        o.column < keys,
        timed(o),
        -4 * LIMIT <= o.start + d,
        o.end + d <= 4 * LIMIT,
    ensures
        ({
            let p = image(o, keys, flip, d);
            &&& p.column == flipped(o.column as int, keys, flip)
            &&& p.column < keys
            &&& o.column == flipped(p.column as int, keys, flip)
            &&& p.start == o.start + d
            &&& p.end == o.end + d
        }),
{
}

/// The note that a note of `b` is the image of.
proof fn source_of(
    a: Seq<HitObject>,
    b: Seq<HitObject>,
    keys: int,
    flip: bool,
    d: int,
    j: int,
) -> (i: int)
    requires
        is_key_count(keys),
        movable(a, keys, d),
        images(a, b, keys, flip, d),
        0 <= j < b.len(),
    ensures
        0 <= i < a.len(),
        a[i].column < keys,
        timed(a[i]),
        b[j].long_note == a[i].long_note,
        b[j].column < keys,
        b[j].column == flipped(a[i].column as int, keys, flip),
        a[i].column == flipped(b[j].column as int, keys, flip),
        b[j].start == a[i].start + d,
        b[j].end == a[i].end + d,
        timed(b[j]),
{
    reveal(images);
    assert(is_image(a, b[j], keys, flip, d));
    let i = choose|i: int| 0 <= i < a.len() && b[j] == image(#[trigger] a[i], keys, flip, d);
    lemma_image(a[i], keys, flip, d);
    i
}

/// The image of a note of `a`.
proof fn image_of(
    a: Seq<HitObject>,
    b: Seq<HitObject>,
    keys: int,
    flip: bool,
    d: int,
    i: int,
) -> (j: int)
    requires
        is_key_count(keys),
        movable(a, keys, d),
        images(a, b, keys, flip, d),
        0 <= i < a.len(),
    ensures
        0 <= j < b.len(),
        b[j].long_note == a[i].long_note,
        b[j].column == flipped(a[i].column as int, keys, flip),
        b[j].start == a[i].start + d,
        b[j].end == a[i].end + d,
{
    reveal(images);
    let p = image(a[i], keys, flip, d);
    assert(b.contains(p));
    lemma_image(a[i], keys, flip, d);
    choose|j: int| 0 <= j < b.len() && b[j] == p
}

proof fn lemma_image_events(
    a: Seq<HitObject>,
    b: Seq<HitObject>,
    keys: int,
    flip: bool,
    d: int,
    u: int,
)
    requires
        is_key_count(keys),
        movable(a, keys, d),
        images(a, b, keys, flip, d),
    ensures
        is_event(b, u + d) == is_event(a, u),
{
    if is_event(a, u) {
        let i = choose|i: int| 0 <= i < a.len() && has_event(#[trigger] a[i], u);
        let j = image_of(a, b, keys, flip, d, i);
        assert(has_event(b[j], u + d));
    }
    if is_event(b, u + d) {
        let j = choose|j: int| 0 <= j < b.len() && has_event(#[trigger] b[j], u + d);
        let i = source_of(a, b, keys, flip, d, j);
        assert(has_event(a[i], u));
    }
}

proof fn lemma_image_next(
    a: Seq<HitObject>,
    b: Seq<HitObject>,
    keys: int,
    flip: bool,
    d: int,
    after: int,
)
    requires
        is_key_count(keys),
        movable(a, keys, d),
        images(a, b, keys, flip, d),
    ensures
        next_event(b, after + d) == (match next_event(a, after) {
            Some(t) => Some(t + d),
            None => None,
        }),
{
    lemma_next_event(a, after);
    lemma_next_event(b, after + d);
    match (next_event(a, after), next_event(b, after + d)) {
        (Some(t), Some(w)) => {
            lemma_image_events(a, b, keys, flip, d, t);
            lemma_image_events(a, b, keys, flip, d, w - d);
            assert(is_event(b, t + d));
            assert(is_event(b, w - d + d));
            assert(is_event(a, w - d));
        },
        (Some(t), None) => {
            lemma_image_events(a, b, keys, flip, d, t);
            assert(is_event(b, t + d));
        },
        (None, Some(w)) => {
            lemma_image_events(a, b, keys, flip, d, w - d);
            assert(is_event(b, w - d + d));
            assert(is_event(a, w - d));
        },
        (None, None) => {},
    }
}

proof fn lemma_image_times(
    a: Seq<HitObject>,
    b: Seq<HitObject>,
    keys: int,
    flip: bool,
    d: int,
    after: int,
)
    requires
        is_key_count(keys),
        movable(a, keys, d),
        images(a, b, keys, flip, d),
    ensures
        row_times(b, after + d) == row_times(a, after).map_values(|t: int| t + d),
    decreases later(a, after),
{
    lemma_image_next(a, b, keys, flip, d, after);
    let moved = row_times(a, after).map_values(|t: int| t + d);
    if let Some(t) = next_event(a, after) {
        lemma_next_event(a, after);
        lemma_later(a, after, t);
        lemma_later(a, t, t + ROW_TOLERANCE);
        lemma_image_times(a, b, keys, flip, d, t + ROW_TOLERANCE);
        let rest = row_times(a, t + ROW_TOLERANCE);
        assert(t + ROW_TOLERANCE + d == t + d + ROW_TOLERANCE);
        assert(row_times(b, after + d) =~= seq![t + d] + row_times(b, t + d + ROW_TOLERANCE));
        assert(row_times(a, after) =~= seq![t] + rest);
        assert(moved =~= seq![t + d] + rest.map_values(|t: int| t + d));
    } else {
        assert(row_times(b, after + d) =~= moved);
    }
}

/// Where the search starts does not matter, as long as it is before all
/// events.
proof fn lemma_early_start(b: Seq<HitObject>, x: int, y: int)
    requires
        forall|u: int| #[trigger] is_event(b, u) ==> u > x && u > y,
    ensures
        row_times(b, x) == row_times(b, y),
{
    lemma_next_event(b, x);
    lemma_next_event(b, y);
    match (next_event(b, x), next_event(b, y)) {
        (Some(t), Some(w)) => {
            assert(is_event(b, t) && is_event(b, w));
            assert(t == w);
        },
        (Some(t), None) => {
            assert(is_event(b, t));
        },
        (None, Some(w)) => {
            assert(is_event(b, w));
        },
        (None, None) => {},
    }
}

proof fn lemma_image_struck(
    a: Seq<HitObject>,
    b: Seq<HitObject>,
    keys: int,
    flip: bool,
    d: int,
    t: int,
    c: int,
    long: bool,
)
    requires
        is_key_count(keys),
        movable(a, keys, d),
        images(a, b, keys, flip, d),
    ensures
        0 <= c < keys ==> struck(b, t + d, c, long) == struck(a, t, flipped(c, keys, flip), long),
        keys <= c ==> !struck(a, t, c, long) && !struck(b, t + d, c, long),
{
    let e = flipped(c, keys, flip);
    if struck(b, t + d, c, long) {
        let j = choose|j: int|
            0 <= j < b.len() && (#[trigger] b[j]).long_note == long && b[j].column == c && in_row(
                t + d,
                b[j].start as int,
            );
        let i = source_of(a, b, keys, flip, d, j);
        assert(a[i].long_note == long && a[i].column == e && in_row(t, a[i].start as int));
    }
    if 0 <= c < keys && struck(a, t, e, long) {
        let i = choose|i: int|
            0 <= i < a.len() && (#[trigger] a[i]).long_note == long && a[i].column == e && in_row(
                t,
                a[i].start as int,
            );
        let j = image_of(a, b, keys, flip, d, i);
        assert(b[j].long_note == long && b[j].column == c && in_row(t + d, b[j].start as int));
    }
}

proof fn lemma_image_released(
    a: Seq<HitObject>,
    b: Seq<HitObject>,
    keys: int,
    flip: bool,
    d: int,
    t: int,
    c: int,
)
    requires
        is_key_count(keys),
        movable(a, keys, d),
        images(a, b, keys, flip, d),
    ensures
        0 <= c < keys ==> released(b, t + d, c) == released(a, t, flipped(c, keys, flip)),
        keys <= c ==> !released(a, t, c) && !released(b, t + d, c),
{
    let e = flipped(c, keys, flip);
    if released(b, t + d, c) {
        let j = choose|j: int|
            0 <= j < b.len() && (#[trigger] b[j]).long_note && b[j].column == c && in_row(
                t + d,
                b[j].end as int,
            );
        let i = source_of(a, b, keys, flip, d, j);
        assert(a[i].long_note && a[i].column == e && in_row(t, a[i].end as int));
    }
    if 0 <= c < keys && released(a, t, e) {
        let i = choose|i: int|
            0 <= i < a.len() && (#[trigger] a[i]).long_note && a[i].column == e && in_row(
                t,
                a[i].end as int,
            );
        let j = image_of(a, b, keys, flip, d, i);
        assert(b[j].long_note && b[j].column == c && in_row(t + d, b[j].end as int));
    }
}

proof fn lemma_image_held(
    a: Seq<HitObject>,
    b: Seq<HitObject>,
    keys: int,
    flip: bool,
    d: int,
    t: int,
    c: int,
)
    requires
        is_key_count(keys),
        movable(a, keys, d),
        images(a, b, keys, flip, d),
    ensures
        0 <= c < keys ==> held(b, t + d, c) == held(a, t, flipped(c, keys, flip)),
        keys <= c ==> !held(a, t, c) && !held(b, t + d, c),
{
    let e = flipped(c, keys, flip);
    if held(b, t + d, c) {
        let j = choose|j: int|
            0 <= j < b.len() && (#[trigger] b[j]).long_note && b[j].column == c && b[j].start <= t
                + d + ROW_TOLERANCE && b[j].end + ROW_TOLERANCE >= t + d;
        let i = source_of(a, b, keys, flip, d, j);
        assert(a[i].long_note && a[i].column == e && a[i].start <= t + ROW_TOLERANCE && a[i].end
            + ROW_TOLERANCE >= t);
    }
    if 0 <= c < keys && held(a, t, e) {
        let i = choose|i: int|
            0 <= i < a.len() && (#[trigger] a[i]).long_note && a[i].column == e && a[i].start <= t
                + ROW_TOLERANCE && a[i].end + ROW_TOLERANCE >= t;
        let j = image_of(a, b, keys, flip, d, i);
        assert(b[j].long_note && b[j].column == c && b[j].start <= t + d + ROW_TOLERANCE
            && b[j].end + ROW_TOLERANCE >= t + d);
    }
}

/// Masks of predicates that mirror each other are twins.
proof fn lemma_twin_masks(p: spec_fn(int) -> bool, q: spec_fn(int) -> bool, keys: int, flip: bool)
    requires
        is_key_count(keys),
        forall|c: int| 0 <= c < keys ==> #[trigger] q(c) == p(flipped(c, keys, flip)),
        forall|c: int| keys <= c < 8 ==> !#[trigger] q(c),
        forall|c: int| keys <= c < 8 ==> !#[trigger] p(c),
    ensures
        twin(mask_of(p), mask_of(q), keys, flip),
{
    lemma_mask_of(p);
    lemma_mask_of(q);
    let (m, n) = (mask_of(p), mask_of(q));
    assert forall|c: int| 0 <= c < keys implies #[trigger] has(n, c) == has(
        m,
        flipped(c, keys, flip),
    ) by {
        assert(q(c) == p(flipped(c, keys, flip)));
        assert(has(m, flipped(c, keys, flip)) == p(flipped(c, keys, flip)));
    }
    assert forall|c: int| keys <= c < 8 implies !#[trigger] has(n, c) by {
        assert(!q(c));
    }
    assert forall|c: int| keys <= c < 8 implies !#[trigger] has(m, c) by {
        assert(!p(c));
    }
}

proof fn lemma_image_row(
    a: Seq<HitObject>,
    b: Seq<HitObject>,
    keys: int,
    flip: bool,
    d: int,
    t: int,
)
    requires
        is_key_count(keys),
        movable(a, keys, d),
        images(a, b, keys, flip, d),
        row_at(a, t).time == t,
        row_at(b, t + d).time == t + d,
    ensures
        twin_row(row_at(a, t), row_at(b, t + d), keys, flip, d),
{
    let (head_p, head_q) = (|c: int| struck(a, t, c, false) || struck(a, t, c, true), |c: int| struck(b, t + d, c, false) || struck(b, t + d, c, true));
    assert(twin(mask_of(head_p), mask_of(head_q), keys, flip)) by {
        assert forall|c: int| 0 <= c < keys implies #[trigger] head_q(c) == head_p(
            flipped(c, keys, flip),
        ) by {
            lemma_image_struck(a, b, keys, flip, d, t, c, false);
            lemma_image_struck(a, b, keys, flip, d, t, c, true);
        }
        assert forall|c: int| keys <= c < 8 implies !#[trigger] head_q(c) by {
            lemma_image_struck(a, b, keys, flip, d, t, c, false);
            lemma_image_struck(a, b, keys, flip, d, t, c, true);
        }
        assert forall|c: int| keys <= c < 8 implies !#[trigger] head_p(c) by {
            lemma_image_struck(a, b, keys, flip, d, t, c, false);
            lemma_image_struck(a, b, keys, flip, d, t, c, true);
        }
        lemma_twin_masks(head_p, head_q, keys, flip);
    }
    let (tap_p, tap_q) = (|c: int| struck(a, t, c, false), |c: int| struck(b, t + d, c, false));
    assert(twin(mask_of(tap_p), mask_of(tap_q), keys, flip)) by {
        assert forall|c: int| 0 <= c < keys implies #[trigger] tap_q(c) == tap_p(
            flipped(c, keys, flip),
        ) by {
            lemma_image_struck(a, b, keys, flip, d, t, c, false);
        }
        assert forall|c: int| keys <= c < 8 implies !#[trigger] tap_q(c) by {
            lemma_image_struck(a, b, keys, flip, d, t, c, false);
        }
        assert forall|c: int| keys <= c < 8 implies !#[trigger] tap_p(c) by {
            lemma_image_struck(a, b, keys, flip, d, t, c, false);
        }
        lemma_twin_masks(tap_p, tap_q, keys, flip);
    }
    let (long_p, long_q) = (|c: int| struck(a, t, c, true), |c: int| struck(b, t + d, c, true));
    assert(twin(mask_of(long_p), mask_of(long_q), keys, flip)) by {
        assert forall|c: int| 0 <= c < keys implies #[trigger] long_q(c) == long_p(
            flipped(c, keys, flip),
        ) by {
            lemma_image_struck(a, b, keys, flip, d, t, c, true);
        }
        assert forall|c: int| keys <= c < 8 implies !#[trigger] long_q(c) by {
            lemma_image_struck(a, b, keys, flip, d, t, c, true);
        }
        assert forall|c: int| keys <= c < 8 implies !#[trigger] long_p(c) by {
            lemma_image_struck(a, b, keys, flip, d, t, c, true);
        }
        lemma_twin_masks(long_p, long_q, keys, flip);
    }
    let (free_p, free_q) = (|c: int| released(a, t, c), |c: int| released(b, t + d, c));
    assert(twin(mask_of(free_p), mask_of(free_q), keys, flip)) by {
        assert forall|c: int| 0 <= c < keys implies #[trigger] free_q(c) == free_p(
            flipped(c, keys, flip),
        ) by {
            lemma_image_released(a, b, keys, flip, d, t, c);
        }
        assert forall|c: int| keys <= c < 8 implies !#[trigger] free_q(c) by {
            lemma_image_released(a, b, keys, flip, d, t, c);
        }
        assert forall|c: int| keys <= c < 8 implies !#[trigger] free_p(c) by {
            lemma_image_released(a, b, keys, flip, d, t, c);
        }
        lemma_twin_masks(free_p, free_q, keys, flip);
    }
    let (held_p, held_q) = (|c: int| held(a, t, c), |c: int| held(b, t + d, c));
    assert(twin(mask_of(held_p), mask_of(held_q), keys, flip)) by {
        assert forall|c: int| 0 <= c < keys implies #[trigger] held_q(c) == held_p(
            flipped(c, keys, flip),
        ) by {
            lemma_image_held(a, b, keys, flip, d, t, c);
        }
        assert forall|c: int| keys <= c < 8 implies !#[trigger] held_q(c) by {
            lemma_image_held(a, b, keys, flip, d, t, c);
        }
        assert forall|c: int| keys <= c < 8 implies !#[trigger] held_p(c) by {
            lemma_image_held(a, b, keys, flip, d, t, c);
        }
        lemma_twin_masks(held_p, held_q, keys, flip);
    }
    let (x, y) = (row_at(a, t), row_at(b, t + d));
    assert(x.head_mask == mask_of(head_p) && y.head_mask == mask_of(head_q));
    assert(x.normal_mask == mask_of(tap_p) && y.normal_mask == mask_of(tap_q));
    assert(x.ln_head_mask == mask_of(long_p) && y.ln_head_mask == mask_of(long_q));
    assert(x.release_mask == mask_of(free_p) && y.release_mask == mask_of(free_q));
    assert(x.active_hold_mask == mask_of(held_p) && y.active_hold_mask == mask_of(held_q));
}

/// The rows of images are twins of the rows.
proof fn lemma_image_timeline(
    a: Seq<HitObject>,
    b: Seq<HitObject>,
    keys: int,
    flip: bool,
    d: int,
)
    requires
        is_key_count(keys),
        movable(a, keys, d),
        images(a, b, keys, flip, d),
    ensures
        twin_rows(timeline(a), timeline(b), keys, flip, d),
        all_timed(a),
        all_timed(b),
{
    assert forall|j: int| 0 <= j < b.len() implies timed(#[trigger] b[j]) by {
        let i = source_of(a, b, keys, flip, d, j);
    }
    lemma_image_times(a, b, keys, flip, d, NEVER as int);
    assert forall|u: int| #[trigger] is_event(b, u) implies u > NEVER && u > NEVER + d by {
        let j = choose|j: int| 0 <= j < b.len() && has_event(#[trigger] b[j], u);
        let i = source_of(a, b, keys, flip, d, j);
    }
    lemma_early_start(b, NEVER as int, NEVER + d);
    lemma_timeline(a);
    lemma_timeline(b);
    let (r, s) = (timeline(a), timeline(b));
    let ts = row_times(a, NEVER as int);
    assert(r.len() == s.len());
    assert forall|n: int| 0 <= n < r.len() implies twin_row(
        #[trigger] r[n],
        #[trigger] s[n],
        keys,
        flip,
        d,
    ) by {
        let t = ts[n];
        assert(row_times(b, NEVER as int)[n] == t + d);
        assert(r[n] == row_at(a, t));
        assert(s[n] == row_at(b, t + d));
        lemma_image_row(a, b, keys, flip, d, t);
    }
}

proof fn lemma_last_struck(
    r: Seq<TimelineRow>,
    s: Seq<TimelineRow>,
    keys: int,
    flip: bool,
    d: int,
    i: int,
    m: u8,
    n: u8,
)
    requires
        is_key_count(keys),
        twin_rows(r, s, keys, flip, d),
        twin(m, n, keys, flip),
        i <= r.len(),
    ensures
        last_struck(s, i, n) == last_struck(r, i, m),
        last_struck(r, i, m) matches Some(j) ==> 0 <= j < i,
    decreases i,
{
    if i > 0 {
        assert(twin_row(r[i - 1], s[i - 1], keys, flip, d));
        lemma_twin_common(r[i - 1].head_mask, s[i - 1].head_mask, m, n, keys, flip);
        lemma_last_struck(r, s, keys, flip, d, i - 1, m, n);
    }
}

proof fn lemma_last_head(
    r: Seq<TimelineRow>,
    s: Seq<TimelineRow>,
    keys: int,
    flip: bool,
    d: int,
    i: int,
)
    requires
        is_key_count(keys),
        twin_rows(r, s, keys, flip, d),
        i <= r.len(),
    ensures
        last_head(s, i) == last_head(r, i),
        last_head(r, i) matches Some(j) ==> 0 <= j < i,
        twin(last_mask(r, i), last_mask(s, i), keys, flip),
    decreases i,
{
    if i > 0 {
        assert(twin_row(r[i - 1], s[i - 1], keys, flip, d));
        lemma_twin(r[i - 1].head_mask, s[i - 1].head_mask, keys, flip);
        lemma_last_head(r, s, keys, flip, d, i - 1);
    } else {
        lemma_weight();
    }
}

proof fn lemma_gap_since(
    r: Seq<TimelineRow>,
    s: Seq<TimelineRow>,
    keys: int,
    flip: bool,
    d: int,
    i: int,
    j: Option<int>,
)
    requires
        twin_rows(r, s, keys, flip, d),
        0 <= i < r.len(),
        j matches Some(j) ==> 0 <= j < r.len(),
    ensures
        gap_since(s, i, j) == gap_since(r, i, j),
{
    assert(twin_row(r[i], s[i], keys, flip, d));
    if let Some(j) = j {
        assert(twin_row(r[j], s[j], keys, flip, d));
    }
}

/// What a part of the hands does, seen from the other side.
pub open spec fn flipped_beat(b: ZoneBeat, keys: int, flip: bool) -> ZoneBeat {
    ZoneBeat { zone: flipped_zone(b.zone as int, keys, flip) as u8, ..b }
}

/// What the parts of the hands do, seen from the other side: in reverse.
pub open spec fn flipped_beats(v: Seq<ZoneBeat>, keys: int, flip: bool) -> Seq<ZoneBeat> {
    Seq::new(
        v.len(),
        |n: int|
            flipped_beat(
                v[if flip {
                    v.len() - 1 - n
                } else {
                    n
                }],
                keys,
                flip,
            ),
    )
}

proof fn lemma_zone_beat(
    r: Seq<TimelineRow>,
    s: Seq<TimelineRow>,
    keys: int,
    flip: bool,
    d: int,
    i: int,
    z: int,
)
    requires
        is_key_count(keys),
        twin_rows(r, s, keys, flip, d),
        0 <= i < r.len(),
        0 <= z < zones(keys as u8).len(),
    ensures
        ({
            let y = flipped_zone(z, keys, flip);
            let (m, n) = (zones(keys as u8)[z], zones(keys as u8)[y]);
            &&& r[i].head_mask & m == 0 <==> s[i].head_mask & n == 0
            &&& zone_beat(s, i, y, n) == flipped_beat(zone_beat(r, i, z, m), keys, flip)
        }),
{
    let y = flipped_zone(z, keys, flip);
    let (m, n) = (zones(keys as u8)[z], zones(keys as u8)[y]);
    lemma_twin_zone(z, keys, flip);
    assert(twin_row(r[i], s[i], keys, flip, d));
    lemma_twin_common(r[i].head_mask, s[i].head_mask, m, n, keys, flip);
    lemma_last_struck(r, s, keys, flip, d, i, m, n);
    lemma_gap_since(r, s, keys, flip, d, i, last_struck(r, i, m));
    if let Some(j) = last_struck(r, i, m) {
        assert(twin_row(r[j], s[j], keys, flip, d));
        lemma_twin_common(r[j].head_mask, s[j].head_mask, m, n, keys, flip);
        lemma_twin_common(
            r[j].head_mask & m,
            s[j].head_mask & n,
            r[i].head_mask & m,
            s[i].head_mask & n,
            keys,
            flip,
        );
    }
}

/// What part `z` of the hands does in row `i`, where it strikes.
spec fn part_beat(rows: Seq<TimelineRow>, i: int, keys: int, z: int) -> Seq<ZoneBeat> {
    let part = zones(keys as u8)[z];
    if rows[i].head_mask & part != 0 {
        seq![zone_beat(rows, i, z, part)]
    } else {
        Seq::empty()
    }
}

proof fn lemma_part_beat(
    r: Seq<TimelineRow>,
    s: Seq<TimelineRow>,
    keys: int,
    flip: bool,
    d: int,
    i: int,
    z: int,
)
    requires
        is_key_count(keys),
        twin_rows(r, s, keys, flip, d),
        0 <= i < r.len(),
        0 <= z < zones(keys as u8).len(),
    ensures
        part_beat(s, i, keys, flipped_zone(z, keys, flip)) == flipped_beats(
            part_beat(r, i, keys, z),
            keys,
            flip,
        ),
{
    lemma_zone_beat(r, s, keys, flip, d, i, z);
    assert(part_beat(s, i, keys, flipped_zone(z, keys, flip)) =~= flipped_beats(
        part_beat(r, i, keys, z),
        keys,
        flip,
    ));
}

proof fn lemma_flipped_beats(a: Seq<ZoneBeat>, b: Seq<ZoneBeat>, keys: int)
    ensures
        flipped_beats(a + b, keys, true) == flipped_beats(b, keys, true) + flipped_beats(
            a,
            keys,
            true,
        ),
        flipped_beats(a + b, keys, false) == flipped_beats(a, keys, false) + flipped_beats(
            b,
            keys,
            false,
        ),
{
    assert(flipped_beats(a + b, keys, true) =~= flipped_beats(b, keys, true) + flipped_beats(
        a,
        keys,
        true,
    ));
    assert(flipped_beats(a + b, keys, false) =~= flipped_beats(a, keys, false) + flipped_beats(
        b,
        keys,
        false,
    ));
}

proof fn lemma_parts(rows: Seq<TimelineRow>, i: int, keys: int)
    requires
        is_key_count(keys),
    ensures
        ({
            let parts = zones(keys as u8);
            let two = part_beat(rows, i, keys, 0) + part_beat(rows, i, keys, 1);
            zone_beats(rows, i, parts, parts.len()) == if keys == 7 {
                two + part_beat(rows, i, keys, 2)
            } else {
                two
            }
        }),
{
    let parts = zones(keys as u8);
    let none = zone_beats(rows, i, parts, 0);
    let first = zone_beats(rows, i, parts, 1);
    let both = zone_beats(rows, i, parts, 2);
    assert(none =~= Seq::empty());
    assert(first =~= part_beat(rows, i, keys, 0));
    assert(both =~= first + part_beat(rows, i, keys, 1));
    if keys == 7 {
        assert(zone_beats(rows, i, parts, 3) =~= both + part_beat(rows, i, keys, 2));
    }
}

proof fn lemma_zone_beats(
    r: Seq<TimelineRow>,
    s: Seq<TimelineRow>,
    keys: int,
    flip: bool,
    d: int,
    i: int,
)
    requires
        is_key_count(keys),
        twin_rows(r, s, keys, flip, d),
        0 <= i < r.len(),
    ensures
        ({
            let parts = zones(keys as u8);
            zone_beats(s, i, parts, parts.len()) == flipped_beats(
                zone_beats(r, i, parts, parts.len()),
                keys,
                flip,
            )
        }),
{
    let parts = zones(keys as u8);
    let (x, y) = (part_beat(r, i, keys, 0), part_beat(r, i, keys, 1));
    lemma_part_beat(r, s, keys, flip, d, i, 0);
    lemma_part_beat(r, s, keys, flip, d, i, 1);
    lemma_parts(r, i, keys);
    lemma_parts(s, i, keys);
    lemma_flipped_beats(x, y, keys);
    if keys == 7 {
        let z = part_beat(r, i, keys, 2);
        lemma_part_beat(r, s, keys, flip, d, i, 2);
        lemma_flipped_beats(x + y, z, keys);
        if flip {
            let (u, v, w) = (
                flipped_beats(z, keys, flip),
                flipped_beats(y, keys, flip),
                flipped_beats(x, keys, flip),
            );
            assert(u + v + w =~= u + (v + w));
        }
    }
}

/// The gap of a column of row `i`, where it has one.
spec fn column_gap(rows: Seq<TimelineRow>, i: int, c: int) -> Seq<i128> {
    match last_struck(rows, i, weight(c)) {
        Some(j) if has(rows[i].head_mask, c) => seq![(rows[i].time - rows[j].time) as i128],
        _ => Seq::empty(),
    }
}

/// The gaps of the columns from `lo` to `hi`.
spec fn gaps_between(rows: Seq<TimelineRow>, i: int, lo: int, hi: int) -> Seq<i128>
    decreases hi - lo,
{
    if lo >= hi {
        Seq::empty()
    } else {
        column_gap(rows, i, lo) + gaps_between(rows, i, lo + 1, hi)
    }
}

proof fn lemma_gaps_extend(rows: Seq<TimelineRow>, i: int, lo: int, hi: int)
    requires
        lo <= hi,
    ensures
        gaps_between(rows, i, lo, hi + 1) == gaps_between(rows, i, lo, hi) + column_gap(
            rows,
            i,
            hi,
        ),
    decreases hi - lo,
{
    if lo < hi {
        lemma_gaps_extend(rows, i, lo + 1, hi);
        assert(gaps_between(rows, i, lo, hi + 1) =~= gaps_between(rows, i, lo, hi) + column_gap(
            rows,
            i,
            hi,
        ));
    } else {
        assert(gaps_between(rows, i, hi + 1, hi + 1) =~= Seq::empty());
        assert(gaps_between(rows, i, lo, hi + 1) =~= gaps_between(rows, i, lo, hi) + column_gap(
            rows,
            i,
            hi,
        ));
    }
}

proof fn lemma_jack_gaps_split(rows: Seq<TimelineRow>, i: int, n: nat)
    ensures
        jack_gaps(rows, i, n) == gaps_between(rows, i, 0, n as int),
    decreases n,
{
    if n > 0 {
        lemma_jack_gaps_split(rows, i, (n - 1) as nat);
        lemma_gaps_extend(rows, i, 0, n - 1);
        assert(jack_gaps(rows, i, n) =~= jack_gaps(rows, i, (n - 1) as nat) + column_gap(
            rows,
            i,
            n - 1,
        ));
    }
}

proof fn lemma_column_gap(
    r: Seq<TimelineRow>,
    s: Seq<TimelineRow>,
    keys: int,
    flip: bool,
    d: int,
    i: int,
    c: int,
)
    requires
        is_key_count(keys),
        twin_rows(r, s, keys, flip, d),
        0 <= i < r.len(),
        0 <= c < keys,
    ensures
        column_gap(s, i, c) == column_gap(r, i, flipped(c, keys, flip)),
{
    let e = flipped(c, keys, flip);
    assert(flipped(e, keys, flip) == c);
    lemma_twin_column(e, keys, flip);
    lemma_last_struck(r, s, keys, flip, d, i, weight(e), weight(c));
    assert(twin_row(r[i], s[i], keys, flip, d));
    assert(has(s[i].head_mask, c) == has(r[i].head_mask, e));
    if let Some(j) = last_struck(r, i, weight(e)) {
        assert(twin_row(r[j], s[j], keys, flip, d));
    }
}

proof fn lemma_jack_gaps_flipped(
    r: Seq<TimelineRow>,
    s: Seq<TimelineRow>,
    keys: int,
    d: int,
    i: int,
    n: nat,
)
    requires
        is_key_count(keys),
        twin_rows(r, s, keys, true, d),
        0 <= i < r.len(),
        n <= keys,
    ensures
        jack_gaps(s, i, n) == gaps_between(r, i, keys - n, keys).reverse(),
    decreases n,
{
    if n > 0 {
        lemma_jack_gaps_flipped(r, s, keys, d, i, (n - 1) as nat);
        lemma_column_gap(r, s, keys, true, d, i, n - 1);
        let g = column_gap(r, i, keys - n);
        let rest = gaps_between(r, i, keys - n + 1, keys);
        assert(jack_gaps(s, i, n) =~= jack_gaps(s, i, (n - 1) as nat) + g);
        assert((g + rest).reverse() =~= rest.reverse() + g);
    } else {
        assert(jack_gaps(s, i, 0) =~= gaps_between(r, i, keys - n, keys).reverse());
    }
}

proof fn lemma_jack_gaps_kept(
    r: Seq<TimelineRow>,
    s: Seq<TimelineRow>,
    keys: int,
    d: int,
    i: int,
    n: nat,
)
    requires
        is_key_count(keys),
        twin_rows(r, s, keys, false, d),
        0 <= i < r.len(),
        n <= keys,
    ensures
        jack_gaps(s, i, n) == jack_gaps(r, i, n),
    decreases n,
{
    if n > 0 {
        lemma_jack_gaps_kept(r, s, keys, d, i, (n - 1) as nat);
        lemma_column_gap(r, s, keys, false, d, i, n - 1);
        assert(jack_gaps(s, i, n) =~= jack_gaps(s, i, (n - 1) as nat) + column_gap(s, i, n - 1));
        assert(jack_gaps(r, i, n) =~= jack_gaps(r, i, (n - 1) as nat) + column_gap(r, i, n - 1));
    }
}

/// A list, in reverse if `flip`.
pub open spec fn flipped_list<A>(v: Seq<A>, flip: bool) -> Seq<A> {
    if flip {
        v.reverse()
    } else {
        v
    }
}

proof fn lemma_jack_gaps(
    r: Seq<TimelineRow>,
    s: Seq<TimelineRow>,
    keys: int,
    flip: bool,
    d: int,
    i: int,
)
    requires
        is_key_count(keys),
        twin_rows(r, s, keys, flip, d),
        0 <= i < r.len(),
    ensures
        jack_gaps(s, i, keys as nat) == flipped_list(jack_gaps(r, i, keys as nat), flip),
        anchored(jack_gaps(s, i, keys as nat)) == anchored(jack_gaps(r, i, keys as nat)),
{
    let (a, b) = (jack_gaps(r, i, keys as nat), jack_gaps(s, i, keys as nat));
    if flip {
        lemma_jack_gaps_flipped(r, s, keys, d, i, keys as nat);
        lemma_jack_gaps_split(r, i, keys as nat);
        assert(b == a.reverse());
        if anchored(a) {
            let n = choose|n: int| 0 <= n < a.len() && #[trigger] a[n] <= ANCHOR_GAP;
            assert(b[a.len() - 1 - n] == a[n]);
        }
        if anchored(b) {
            let n = choose|n: int| 0 <= n < b.len() && #[trigger] b[n] <= ANCHOR_GAP;
            assert(a[a.len() - 1 - n] == b[n]);
        }
    } else {
        lemma_jack_gaps_kept(r, s, keys, d, i, keys as nat);
    }
}

proof fn lemma_notes_within(
    r: Seq<TimelineRow>,
    s: Seq<TimelineRow>,
    keys: int,
    flip: bool,
    d: int,
    i: int,
    n: nat,
    span: int,
)
    requires
        is_key_count(keys),
        twin_rows(r, s, keys, flip, d),
        0 <= i < r.len(),
        n <= r.len(),
    ensures
        notes_within(s, i, n, span) == notes_within(r, i, n, span),
    decreases n,
{
    if n > 0 {
        lemma_notes_within(r, s, keys, flip, d, i, (n - 1) as nat, span);
        assert(twin_row(r[i], s[i], keys, flip, d));
        assert(twin_row(r[n - 1], s[n - 1], keys, flip, d));
        lemma_twin(r[n - 1].head_mask, s[n - 1].head_mask, keys, flip);
    }
}

/// Whether a list of masks is that of their twins.
spec fn twin_masks(a: Seq<u32>, b: Seq<u32>, keys: int, flip: bool) -> bool {
    &&& a.len() == b.len()
    &&& forall|n: int|
        0 <= n < a.len() ==> #[trigger] a[n] < 256 && b[n] < 256 && twin(
            a[n] as u8,
            b[n] as u8,
            keys,
            flip,
        )
}

proof fn lemma_window_masks(
    r: Seq<TimelineRow>,
    s: Seq<TimelineRow>,
    keys: int,
    flip: bool,
    d: int,
    i: int,
    n: nat,
)
    requires
        is_key_count(keys),
        twin_rows(r, s, keys, flip, d),
        0 <= i < r.len(),
        n <= r.len(),
    ensures
        twin_masks(window_masks(r, i, n), window_masks(s, i, n), keys, flip),
    decreases n,
{
    if n > 0 {
        lemma_window_masks(r, s, keys, flip, d, i, (n - 1) as nat);
        assert(twin_row(r[i], s[i], keys, flip, d));
        assert(twin_row(r[n - 1], s[n - 1], keys, flip, d));
        lemma_twin(r[n - 1].head_mask, s[n - 1].head_mask, keys, flip);
        let (a, b) = (window_masks(r, i, n), window_masks(s, i, n));
        let before = window_masks(r, i, (n - 1) as nat);
        let other = window_masks(s, i, (n - 1) as nat);
        assert forall|k: int| 0 <= k < a.len() implies #[trigger] a[k] < 256 && b[k] < 256 && twin(
            a[k] as u8,
            b[k] as u8,
            keys,
            flip,
        ) by {
            if k < before.len() {
                assert(a[k] == before[k] && b[k] == other[k]);
            }
        }
    }
}

/// Whether a list of transitions is that of their twins.
spec fn twin_transitions(a: Seq<u32>, b: Seq<u32>, keys: int, flip: bool) -> bool {
    &&& a.len() == b.len()
    &&& forall|n: int|
        0 <= n < a.len() ==> #[trigger] a[n] < 65536 && b[n] < 65536 && twin(
            (a[n] / 256) as u8,
            (b[n] / 256) as u8,
            keys,
            flip,
        ) && twin((a[n] % 256) as u8, (b[n] % 256) as u8, keys, flip)
}

proof fn lemma_window_transitions(
    r: Seq<TimelineRow>,
    s: Seq<TimelineRow>,
    keys: int,
    flip: bool,
    d: int,
    i: int,
    n: nat,
)
    requires
        is_key_count(keys),
        twin_rows(r, s, keys, flip, d),
        0 <= i < r.len(),
        n <= r.len(),
    ensures
        twin_transitions(window_transitions(r, i, n), window_transitions(s, i, n), keys, flip),
    decreases n,
{
    if n > 0 {
        lemma_window_transitions(r, s, keys, flip, d, i, (n - 1) as nat);
        assert(twin_row(r[i], s[i], keys, flip, d));
        assert(twin_row(r[n - 1], s[n - 1], keys, flip, d));
        lemma_twin(r[n - 1].head_mask, s[n - 1].head_mask, keys, flip);
        lemma_last_head(r, s, keys, flip, d, n - 1);
        lemma_twin(last_mask(r, n - 1), last_mask(s, n - 1), keys, flip);
        let (a, b) = (window_transitions(r, i, n), window_transitions(s, i, n));
        let before = window_transitions(r, i, (n - 1) as nat);
        let other = window_transitions(s, i, (n - 1) as nat);
        let (x, y) = (last_mask(r, n - 1) as int, r[n - 1].head_mask as int);
        let (u, v) = (last_mask(s, n - 1) as int, s[n - 1].head_mask as int);
        assert((x * 256 + y) / 256 == x && (x * 256 + y) % 256 == y);
        assert((u * 256 + v) / 256 == u && (u * 256 + v) % 256 == v);
        assert forall|k: int| 0 <= k < a.len() implies #[trigger] a[k] < 65536 && b[k] < 65536
            && twin((a[k] / 256) as u8, (b[k] / 256) as u8, keys, flip) && twin(
            (a[k] % 256) as u8,
            (b[k] % 256) as u8,
            keys,
            flip,
        ) by {
            if k < before.len() {
                assert(a[k] == before[k] && b[k] == other[k]);
            } else {
                assert(a[k] == x * 256 + y);
                assert(b[k] == u * 256 + v);
            }
        }
    }
}

proof fn lemma_masks_alike(a: Seq<u32>, b: Seq<u32>, keys: int, flip: bool)
    requires
        is_key_count(keys),
        twin_masks(a, b, keys, flip),
    ensures
        alike(a, b),
{
    assert forall|i: int, j: int| 0 <= i < a.len() && 0 <= j < a.len() implies ((#[trigger] a[i]
        == #[trigger] a[j]) <==> (b[i] == b[j])) by {
        lemma_twin_equal(a[i] as u8, b[i] as u8, a[j] as u8, b[j] as u8, keys, flip);
    }
}

proof fn lemma_transitions_alike(a: Seq<u32>, b: Seq<u32>, keys: int, flip: bool)
    requires
        is_key_count(keys),
        twin_transitions(a, b, keys, flip),
    ensures
        alike(a, b),
{
    assert forall|i: int, j: int| 0 <= i < a.len() && 0 <= j < a.len() implies ((#[trigger] a[i]
        == #[trigger] a[j]) <==> (b[i] == b[j])) by {
        lemma_twin_equal(
            (a[i] / 256) as u8,
            (b[i] / 256) as u8,
            (a[j] / 256) as u8,
            (b[j] / 256) as u8,
            keys,
            flip,
        );
        lemma_twin_equal(
            (a[i] % 256) as u8,
            (b[i] % 256) as u8,
            (a[j] % 256) as u8,
            (b[j] % 256) as u8,
            keys,
            flip,
        );
    }
}

/// Whether `b` asks the same of the hands as `a`, seen from the other side if
/// `flip`: the parts of the hands and the columns change places, the counts
/// may come in another order, and all else is equal.
pub open spec fn twin_head(a: HeadView, b: HeadView, keys: int, flip: bool) -> bool {
    &&& b.count == a.count
    &&& b.gap == a.gap
    &&& b.rhythm == a.rhythm
    &&& b.zones == flipped_beats(a.zones, keys, flip)
    &&& b.jack_gaps == flipped_list(a.jack_gaps, flip)
    &&& b.anchor == a.anchor
    &&& b.changed == a.changed
    &&& b.mask_counts.to_multiset() == a.mask_counts.to_multiset()
    &&& b.transition_counts.to_multiset() == a.transition_counts.to_multiset()
    &&& b.count_1s == a.count_1s
    &&& b.count_4s == a.count_4s
}

/// Whether row `b` asks the same of the hands as row `a`, seen from the other
/// side if `flip`.
pub open spec fn twin_strain(a: StrainView, b: StrainView, keys: int, flip: bool) -> bool {
    &&& b.since == a.since
    &&& b.gap == a.gap
    &&& b.held == a.held
    &&& b.released == a.released
    &&& b.ln_heads == a.ln_heads
    &&& b.hybrid == a.hybrid
    &&& b.pattern == a.pattern
    &&& match (a.head, b.head) {
        (Some(x), Some(y)) => twin_head(x, y, keys, flip),
        (None, None) => true,
        _ => false,
    }
}

proof fn lemma_head_facts(
    r: Seq<TimelineRow>,
    s: Seq<TimelineRow>,
    keys: int,
    flip: bool,
    d: int,
    i: int,
)
    requires
        is_key_count(keys),
        twin_rows(r, s, keys, flip, d),
        0 <= i < r.len(),
    ensures
        twin_head(head_facts(r, keys as u8, i), head_facts(s, keys as u8, i), keys, flip),
{
    assert(twin_row(r[i], s[i], keys, flip, d));
    lemma_twin(r[i].head_mask, s[i].head_mask, keys, flip);
    lemma_last_head(r, s, keys, flip, d, i);
    let last = last_head(r, i);
    lemma_gap_since(r, s, keys, flip, d, i, last);
    if let Some(j) = last {
        lemma_last_head(r, s, keys, flip, d, j);
        lemma_gap_since(r, s, keys, flip, d, j, last_head(r, j));
    }
    lemma_zone_beats(r, s, keys, flip, d, i);
    lemma_jack_gaps(r, s, keys, flip, d, i);
    lemma_twin_equal(
        last_mask(r, i),
        last_mask(s, i),
        r[i].head_mask,
        s[i].head_mask,
        keys,
        flip,
    );
    let n = (i + 1) as nat;
    lemma_notes_within(r, s, keys, flip, d, i, n, crate::strain::SECOND as int);
    lemma_notes_within(r, s, keys, flip, d, i, n, crate::strain::FOUR_SECONDS as int);
    lemma_window_masks(r, s, keys, flip, d, i, n);
    lemma_masks_alike(window_masks(r, i, n), window_masks(s, i, n), keys, flip);
    law_tally_ignores_names(window_masks(r, i, n), window_masks(s, i, n));
    lemma_window_transitions(r, s, keys, flip, d, i, n);
    lemma_transitions_alike(window_transitions(r, i, n), window_transitions(s, i, n), keys, flip);
    law_tally_ignores_names(window_transitions(r, i, n), window_transitions(s, i, n));
}

proof fn lemma_strain_row(
    r: Seq<TimelineRow>,
    s: Seq<TimelineRow>,
    keys: int,
    flip: bool,
    d: int,
    i: int,
)
    requires
        is_key_count(keys),
        twin_rows(r, s, keys, flip, d),
        0 <= i < r.len(),
    ensures
        twin_strain(strain_row(r, keys as u8, i), strain_row(s, keys as u8, i), keys, flip),
{
    assert(twin_row(r[i], s[i], keys, flip, d));
    assert(twin_row(r[0], s[0], keys, flip, d));
    if i > 0 {
        assert(twin_row(r[i - 1], s[i - 1], keys, flip, d));
    }
    lemma_twin(r[i].head_mask, s[i].head_mask, keys, flip);
    lemma_twin(r[i].normal_mask, s[i].normal_mask, keys, flip);
    lemma_twin(r[i].ln_head_mask, s[i].ln_head_mask, keys, flip);
    lemma_twin(r[i].release_mask, s[i].release_mask, keys, flip);
    lemma_twin(r[i].active_hold_mask, s[i].active_hold_mask, keys, flip);
    lemma_twin_common(
        r[i].release_mask,
        s[i].release_mask,
        r[i].head_mask,
        s[i].head_mask,
        keys,
        flip,
    );
    lemma_last_head(r, s, keys, flip, d, i);
    lemma_twin_common(
        last_mask(r, i),
        last_mask(s, i),
        r[i].head_mask,
        s[i].head_mask,
        keys,
        flip,
    );
    lemma_jack_gaps(r, s, keys, flip, d, i);
    lemma_head_facts(r, s, keys, flip, d, i);
}

proof fn lemma_flipped_counts(v: Seq<ZoneBeat>, keys: int, flip: bool)
    requires
        v.len() <= 3,
    ensures
        rotated(flipped_beats(v, keys, flip), v.len()) == rotated(v, v.len()),
        returned(flipped_beats(v, keys, flip), v.len()) == returned(v, v.len()),
{
    reveal_with_fuel(rotated, 4);
    reveal_with_fuel(returned, 4);
    let w = flipped_beats(v, keys, flip);
    if v.len() == 1 {
        assert(w[0] == flipped_beat(v[0], keys, flip));
    } else if v.len() == 2 {
        assert(w[0] == flipped_beat(v[if flip { 1 } else { 0 }], keys, flip));
        assert(w[1] == flipped_beat(v[if flip { 0 } else { 1 }], keys, flip));
    } else if v.len() == 3 {
        assert(w[0] == flipped_beat(v[if flip { 2 } else { 0 }], keys, flip));
        assert(w[1] == flipped_beat(v[1], keys, flip));
        assert(w[2] == flipped_beat(v[if flip { 0 } else { 2 }], keys, flip));
    }
}

proof fn lemma_totals(
    r: Seq<TimelineRow>,
    s: Seq<TimelineRow>,
    keys: int,
    flip: bool,
    d: int,
    n: nat,
)
    requires
        is_key_count(keys),
        twin_rows(r, s, keys, flip, d),
        n <= r.len(),
    ensures
        totals(s, keys as u8, n) == totals(r, keys as u8, n),
    decreases n,
{
    if n > 0 {
        let i = n - 1;
        lemma_totals(r, s, keys, flip, d, i as nat);
        assert(twin_row(r[i], s[i], keys, flip, d));
        if i > 0 {
            assert(twin_row(r[i - 1], s[i - 1], keys, flip, d));
            lemma_twin(r[i - 1].active_hold_mask, s[i - 1].active_hold_mask, keys, flip);
        }
        assert(held_before(s, i) == held_before(r, i));
        lemma_twin(r[i].head_mask, s[i].head_mask, keys, flip);
        lemma_twin(r[i].normal_mask, s[i].normal_mask, keys, flip);
        lemma_twin(r[i].ln_head_mask, s[i].ln_head_mask, keys, flip);
        lemma_last_head(r, s, keys, flip, d, i);
        lemma_gap_since(r, s, keys, flip, d, i, last_head(r, i));
        lemma_jack_gaps(r, s, keys, flip, d, i);
        lemma_notes_within(r, s, keys, flip, d, i, n, crate::strain::SECOND as int);
        lemma_zone_beats(r, s, keys, flip, d, i);
        lemma_parts(r, i, keys);
        let beats = zone_beats(r, i, zones(keys as u8), zones(keys as u8).len());
        assert(beats.len() <= 3);
        lemma_flipped_counts(beats, keys, flip);
    }
}

proof fn lemma_amounts(
    r: Seq<TimelineRow>,
    s: Seq<TimelineRow>,
    keys: int,
    flip: bool,
    d: int,
    n: nat,
)
    requires
        is_key_count(keys),
        twin_rows(r, s, keys, flip, d),
        n <= r.len(),
    ensures
        pattern_amounts(s, keys as u8, n) == pattern_amounts(r, keys as u8, n),
        lasting_sum(s, n) == lasting_sum(r, n),
    decreases n,
{
    if n > 0 {
        let i = n - 1;
        lemma_amounts(r, s, keys, flip, d, i as nat);
        lemma_strain_row(r, s, keys, flip, d, i);
        assert(twin_row(r[i], s[i], keys, flip, d));
        if i + 1 < r.len() {
            assert(twin_row(r[i + 1], s[i + 1], keys, flip, d));
        }
        assert(lasting(s, i) == lasting(r, i));
        assert forall|rank: int| 0 <= rank < 6 implies #[trigger] pattern_amount(
            s,
            keys as u8,
            n,
            rank,
        ) == pattern_amount(r, keys as u8, n, rank) by {
            let (a, b) = (
                pattern_amounts(r, keys as u8, i as nat),
                pattern_amounts(s, keys as u8, i as nat),
            );
            assert(a[rank] == b[rank]);
        }
        assert(pattern_amounts(s, keys as u8, n) =~= pattern_amounts(r, keys as u8, n));
    } else {
        assert(pattern_amounts(s, keys as u8, n) =~= pattern_amounts(r, keys as u8, n)) by {
            assert forall|rank: int| 0 <= rank < 6 implies #[trigger] pattern_amount(
                s,
                keys as u8,
                0,
                rank,
            ) == pattern_amount(r, keys as u8, 0, rank) by {}
        }
    }
}

/// Mirroring a chart and moving it in time keep its features: those that sum
/// it up are the same, and each row asks the same of the hands, which change
/// places.
pub proof fn law_mirror_and_offset_keep_features(
    a: Seq<HitObject>,
    b: Seq<HitObject>,
    keys: u8,
    flip: bool,
    d: int,
    beat: Option<i128>,
    sv_changes: int,
)
    requires
        is_key_count(keys as int),
        a.len() > 0,
        movable(a, keys as int, d),
        images(a, b, keys as int, flip, d),
    ensures
        summary_of(timeline(b), keys, beat, sv_changes) == summary_of(
            timeline(a),
            keys,
            beat,
            sv_changes,
        ),
        strain(timeline(b), keys).len() == strain(timeline(a), keys).len(),
        forall|i: int|
            0 <= i < strain(timeline(a), keys).len() ==> twin_strain(
                #[trigger] strain(timeline(a), keys)[i],
                strain(timeline(b), keys)[i],
                keys as int,
                flip,
            ),
{
    let (r, s, k) = (timeline(a), timeline(b), keys as int);
    lemma_image_timeline(a, b, k, flip, d);
    lemma_timeline(a);
    let n = r.len();
    assert(twin_row(r[0], s[0], k, flip, d));
    assert(twin_row(r[n - 1], s[n - 1], k, flip, d));
    lemma_totals(r, s, k, flip, d, n);
    lemma_amounts(r, s, k, flip, d, n);
    assert forall|i: int| 0 <= i < strain(r, keys).len() implies twin_strain(
        #[trigger] strain(r, keys)[i],
        strain(s, keys)[i],
        k,
        flip,
    ) by {
        lemma_strain_row(r, s, k, flip, d, i);
    }
}

proof fn lemma_clocked_image(o: HitObject, keys: int, flip: bool, d: int, m: ManiaGameMod)
    requires
        is_key_count(keys),
        well_placed(o, keys),
        well_placed(image(o, keys, flip, d), keys),
        image(o, keys, flip, d).start == o.start + d,
        image(o, keys, flip, d).end == o.end + d,
    ensures
        clocked_object(image(o, keys, flip, d), m) == image(
            clocked_object(o, m),
            keys,
            flip,
            d * m.stretch(),
        ),
        timed(clocked_object(o, m)),
        -4 * LIMIT <= clocked_object(o, m).start + d * m.stretch(),
        clocked_object(o, m).end + d * m.stretch() <= 4 * LIMIT,
{
    let f = m.stretch();
    let (x, y) = (o.start as int, o.end as int);
    assert((x + d) * f == x * f + d * f) by (nonlinear_arith);
    assert((y + d) * f == y * f + d * f) by (nonlinear_arith);
    assert(-4 * LIMIT <= x * f <= y * f <= 4 * LIMIT) by (nonlinear_arith)
        requires
            -LIMIT <= x <= y <= LIMIT,
            2 <= f <= 4,
    ;
    assert(-4 * LIMIT <= (x + d) * f && (y + d) * f <= 4 * LIMIT) by (nonlinear_arith)
        requires
            -LIMIT <= x + d,
            y + d <= LIMIT,
            2 <= f <= 4,
    ;
}

proof fn fetch_image(
    a: Seq<HitObject>,
    b: Seq<HitObject>,
    keys: int,
    flip: bool,
    d: int,
    i: int,
) -> (j: int)
    requires
        images(a, b, keys, flip, d),
        0 <= i < a.len(),
    ensures
        0 <= j < b.len(),
        b[j] == image(a[i], keys, flip, d),
{
    reveal(images);
    let p = image(a[i], keys, flip, d);
    assert(b.contains(p));
    choose|j: int| 0 <= j < b.len() && b[j] == p
}

proof fn fetch_source(
    a: Seq<HitObject>,
    b: Seq<HitObject>,
    keys: int,
    flip: bool,
    d: int,
    j: int,
) -> (i: int)
    requires
        images(a, b, keys, flip, d),
        0 <= j < b.len(),
    ensures
        0 <= i < a.len(),
        b[j] == image(a[i], keys, flip, d),
{
    reveal(images);
    assert(is_image(a, b[j], keys, flip, d));
    choose|i: int| 0 <= i < a.len() && b[j] == image(#[trigger] a[i], keys, flip, d)
}

pub(crate) proof fn lemma_images(a: Seq<HitObject>, b: Seq<HitObject>, keys: int, flip: bool, d: int)
    requires
        forall|i: int| 0 <= i < a.len() ==> b.contains(image(#[trigger] a[i], keys, flip, d)),
        forall|j: int| 0 <= j < b.len() ==> is_image(a, #[trigger] b[j], keys, flip, d),
    ensures
        images(a, b, keys, flip, d),
{
    reveal(images);
}

proof fn lemma_clocked_images(
    p: ParsedView,
    q: ParsedView,
    flip: bool,
    d: int,
    m: ManiaGameMod,
)
    requires
        p.valid(),
        images(p.objects, q.objects, p.key_count as int, flip, d),
        forall|i: int|
            0 <= i < p.objects.len() ==> -LIMIT <= (#[trigger] p.objects[i]).start + d
                && p.objects[i].end + d <= LIMIT,
    ensures
        images(
            clocked(p, m).objects,
            clocked(q, m).objects,
            p.key_count as int,
            flip,
            d * m.stretch(),
        ),
        movable(clocked(p, m).objects, p.key_count as int, d * m.stretch()),
{
    let k = p.key_count as int;
    let e = d * m.stretch();
    let (a, b) = (clocked(p, m).objects, clocked(q, m).objects);
    assert forall|i: int| 0 <= i < a.len() implies (#[trigger] a[i]).column < k && timed(a[i]) && -4
        * LIMIT <= a[i].start + e && a[i].end + e <= 4 * LIMIT by {
        let o = p.objects[i];
        assert(well_placed(o, k));
        lemma_clocked_image(o, k, flip, d, m);
    }
    assert forall|i: int| 0 <= i < a.len() implies b.contains(
        image(#[trigger] a[i], k, flip, e),
    ) by {
        let o = p.objects[i];
        assert(well_placed(o, k));
        lemma_clocked_image(o, k, flip, d, m);
        let j = fetch_image(p.objects, q.objects, k, flip, d, i);
        assert(b[j] == clocked_object(q.objects[j], m));
    }
    assert forall|j: int| 0 <= j < b.len() implies is_image(a, #[trigger] b[j], k, flip, e) by {
        let i = fetch_source(p.objects, q.objects, k, flip, d, j);
        let o = p.objects[i];
        assert(well_placed(o, k));
        lemma_clocked_image(o, k, flip, d, m);
        assert(a[i] == clocked_object(o, m));
    }
    lemma_images(a, b, k, flip, e);
}

/// A beatmap that is another one mirrored and moved in time has the same
/// features at every clock rate.
pub proof fn law_mirrored_beatmap_has_same_features(
    p: ParsedView,
    q: ParsedView,
    flip: bool,
    d: int,
    m: ManiaGameMod,
)
    requires
        p.valid(),
        q.valid(),
        q.key_count == p.key_count,
        q.beat == p.beat,
        q.sv_changes == p.sv_changes,
        images(p.objects, q.objects, p.key_count as int, flip, d),
        forall|i: int|
            0 <= i < p.objects.len() ==> -LIMIT <= (#[trigger] p.objects[i]).start + d
                && p.objects[i].end + d <= LIMIT,
    ensures
        analysis(q, m).0 == analysis(p, m).0,
        analysis(q, m).1.len() == analysis(p, m).1.len(),
        forall|i: int|
            0 <= i < analysis(p, m).1.len() ==> twin_strain(
                #[trigger] analysis(p, m).1[i],
                analysis(q, m).1[i],
                p.key_count as int,
                flip,
            ),
{
    let k = p.key_count as int;
    let e = d * m.stretch();
    let (a, b) = (clocked(p, m).objects, clocked(q, m).objects);
    lemma_clocked_images(p, q, flip, d, m);
    law_mirror_and_offset_keep_features(
        a,
        b,
        p.key_count,
        flip,
        e,
        clocked(p, m).beat,
        p.sv_changes as int,
    );
}

} // verus!
