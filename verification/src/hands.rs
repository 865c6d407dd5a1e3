//! What rows ask of the parts of the hands, told by their columns.

use crate::columns::{has, lemma_common, ones, weight};
use crate::counting::{how_many, lemma_counts_agree, sum_of};
use crate::features::{returned, rotated, summary_of, totals};
use crate::outline::is_share;
use crate::playing::{any, lemma_last_head, lemma_size, size, strikes_before};
use crate::strain::{
    jack_gaps, last_head, last_struck, steady, strain, window_masks, window_transitions, zone_beat,
    zone_beats, zones, ZoneBeat,
};
use crate::tally::{next_key, occurrences, sum, tally, tally_from};
use crate::timeline::TimelineRow;
use vstd::prelude::*;

verus! {

/// How many parts of the hands play so many keys: two, or three with the thumb.
pub open spec fn part_count(keys: u8) -> int {
    if keys == 7 {
        3
    } else {
        2
    }
}

/// Whether part `z` of the hands plays a column: on four and six keys each hand
/// plays half of them, on seven the thumb plays the one in the middle.
pub open spec fn plays(keys: u8, z: int, column: int) -> bool {
    if keys == 4 {
        (z == 0 && 0 <= column < 2) || (z == 1 && 2 <= column < 4)
    } else if keys == 6 {
        (z == 0 && 0 <= column < 3) || (z == 1 && 3 <= column < 6)
    } else {
        (z == 0 && 0 <= column < 3) || (z == 1 && column == 3) || (z == 2 && 4 <= column < 7)
    }
}

/// How many columns of a part a row strikes.
pub open spec fn part_size(keys: u8, z: int, mask: u8) -> nat {
    how_many(8, |column: int| plays(keys, z, column) && has(mask, column))
}

/// Whether row `j` is the last row before row `i` that strikes a column of a
/// part.
pub open spec fn part_before(rows: Seq<TimelineRow>, keys: u8, z: int, j: int, i: int) -> bool {
    &&& 0 <= j < i
    &&& part_size(keys, z, rows[j].head_mask) > 0
    &&& forall|k: int| j < k < i ==> part_size(keys, z, (#[trigger] rows[k]).head_mask) == 0
}

/// How many columns of a part two rows strike both.
pub open spec fn part_common(keys: u8, z: int, a: u8, b: u8) -> nat {
    how_many(8, |column: int| plays(keys, z, column) && has(a, column) && has(b, column))
}

proof fn lemma_zone_masks()
    ensures
        forall|c: int| 0 <= c < 8 ==> #[trigger] has(3u8, c) == (c < 2),
        forall|c: int| 0 <= c < 8 ==> #[trigger] has(12u8, c) == (2 <= c < 4),
        forall|c: int| 0 <= c < 8 ==> #[trigger] has(7u8, c) == (c < 3),
        forall|c: int| 0 <= c < 8 ==> #[trigger] has(56u8, c) == (3 <= c < 6),
        forall|c: int| 0 <= c < 8 ==> #[trigger] has(8u8, c) == (c == 3),
        forall|c: int| 0 <= c < 8 ==> #[trigger] has(112u8, c) == (4 <= c < 7),
{
    assert(3u8 & 1 == 1 && 3u8 & 2 == 2 && 3u8 & 4 == 0 && 3u8 & 8 == 0 && 3u8 & 16 == 0 && 3u8 & 32
        == 0 && 3u8 & 64 == 0 && 3u8 & 128 == 0) by (bit_vector);
    assert(12u8 & 1 == 0 && 12u8 & 2 == 0 && 12u8 & 4 == 4 && 12u8 & 8 == 8 && 12u8 & 16 == 0
        && 12u8 & 32 == 0 && 12u8 & 64 == 0 && 12u8 & 128 == 0) by (bit_vector);
    assert(7u8 & 1 == 1 && 7u8 & 2 == 2 && 7u8 & 4 == 4 && 7u8 & 8 == 0 && 7u8 & 16 == 0 && 7u8 & 32
        == 0 && 7u8 & 64 == 0 && 7u8 & 128 == 0) by (bit_vector);
    assert(56u8 & 1 == 0 && 56u8 & 2 == 0 && 56u8 & 4 == 0 && 56u8 & 8 == 8 && 56u8 & 16 == 16
        && 56u8 & 32 == 32 && 56u8 & 64 == 0 && 56u8 & 128 == 0) by (bit_vector);
    assert(8u8 & 1 == 0 && 8u8 & 2 == 0 && 8u8 & 4 == 0 && 8u8 & 8 == 8 && 8u8 & 16 == 0 && 8u8 & 32
        == 0 && 8u8 & 64 == 0 && 8u8 & 128 == 0) by (bit_vector);
    assert(112u8 & 1 == 0 && 112u8 & 2 == 0 && 112u8 & 4 == 0 && 112u8 & 8 == 0 && 112u8 & 16 == 16
        && 112u8 & 32 == 32 && 112u8 & 64 == 64 && 112u8 & 128 == 0) by (bit_vector);
}

proof fn lemma_part(keys: u8, z: int, mask: u8)
    requires
        keys == 4 || keys == 6 || keys == 7,
        0 <= z < part_count(keys),
    ensures
        zones(keys).len() == part_count(keys),
        part_size(keys, z, mask) == ones(mask & zones(keys)[z]),
        part_size(keys, z, mask) > 0 <==> mask & zones(keys)[z] != 0,
        part_size(keys, z, mask) <= 8,
{
    let zone = zones(keys)[z];
    lemma_zone_masks();
    lemma_common(mask, zone);
    lemma_size(mask & zone);
    lemma_counts_agree(
        8,
        |column: int| plays(keys, z, column) && has(mask, column),
        |column: int| has(mask & zone, column),
    );
}

proof fn lemma_part_common(keys: u8, z: int, a: u8, b: u8)
    requires
        keys == 4 || keys == 6 || keys == 7,
        0 <= z < part_count(keys),
    ensures
        part_common(keys, z, a, b) > 0 <==> (a & zones(keys)[z]) & (b & zones(keys)[z]) != 0,
{
    let zone = zones(keys)[z];
    lemma_zone_masks();
    lemma_common(a, zone);
    lemma_common(b, zone);
    lemma_common(a & zone, b & zone);
    lemma_size((a & zone) & (b & zone));
    lemma_counts_agree(
        8,
        |column: int| plays(keys, z, column) && has(a, column) && has(b, column),
        |column: int| has((a & zone) & (b & zone), column),
    );
}

proof fn lemma_part_before(rows: Seq<TimelineRow>, keys: u8, z: int, i: int)
    requires
        keys == 4 || keys == 6 || keys == 7,
        0 <= z < part_count(keys),
        0 <= i <= rows.len(),
    ensures
        match last_struck(rows, i, zones(keys)[z]) {
            Some(j) => part_before(rows, keys, z, j, i) && forall|k: int| #[trigger]
                part_before(rows, keys, z, k, i) ==> k == j,
            None => forall|k: int|
                0 <= k < i ==> part_size(keys, z, (#[trigger] rows[k]).head_mask) == 0,
        },
    decreases i,
{
    if i > 0 {
        lemma_part_before(rows, keys, z, i - 1);
        lemma_part(keys, z, rows[i - 1].head_mask);
        if rows[i - 1].head_mask & zones(keys)[z] != 0 {
            assert(part_before(rows, keys, z, i - 1, i));
            assert forall|k: int| #[trigger] part_before(rows, keys, z, k, i) implies k == i - 1 by {
                assert(part_size(keys, z, rows[i - 1].head_mask) > 0);
            }
        } else if let Some(j) = last_struck(rows, i - 1, zones(keys)[z]) {
            assert(part_before(rows, keys, z, j, i));
            assert forall|k: int| #[trigger] part_before(rows, keys, z, k, i) implies k == j by {
                assert(part_size(keys, z, rows[k].head_mask) > 0);
                assert(part_before(rows, keys, z, k, i - 1));
            }
        }
    }
}

/// Whether a beat tells what part `z` does in row `i`: how many columns it
/// strikes, how long ago it last struck, and whether on other columns alone or
/// on some of the same.
pub open spec fn tells_part(rows: Seq<TimelineRow>, keys: u8, z: int, i: int, b: ZoneBeat) -> bool {
    &&& b.zone == z
    &&& b.count == part_size(keys, z, rows[i].head_mask)
    &&& b.count > 0
    &&& b.gap is None <==> forall|k: int|
        0 <= k < i ==> part_size(keys, z, (#[trigger] rows[k]).head_mask) == 0
    &&& b.gap is None ==> !b.rotated && !b.overlap
    &&& forall|j: int| #[trigger]
        part_before(rows, keys, z, j, i) ==> {
            &&& b.gap == Some((rows[i].time - rows[j].time) as i128)
            &&& b.rotated == (part_common(keys, z, rows[j].head_mask, rows[i].head_mask) == 0)
            &&& b.overlap == (part_common(keys, z, rows[j].head_mask, rows[i].head_mask) > 0)
        }
}

proof fn lemma_zone_beat(rows: Seq<TimelineRow>, keys: u8, z: int, i: int)
    requires
        keys == 4 || keys == 6 || keys == 7,
        0 <= z < part_count(keys),
        0 <= i < rows.len(),
        rows[i].head_mask & zones(keys)[z] != 0,
    ensures
        tells_part(rows, keys, z, i, zone_beat(rows, i, z, zones(keys)[z])),
{
    let b = zone_beat(rows, i, z, zones(keys)[z]);
    lemma_part(keys, z, rows[i].head_mask);
    lemma_part_before(rows, keys, z, i);
    match last_struck(rows, i, zones(keys)[z]) {
        Some(j) => {
            lemma_part_common(keys, z, rows[j].head_mask, rows[i].head_mask);
            assert(part_before(rows, keys, z, j, i));
            assert(part_size(keys, z, rows[j].head_mask) > 0);
        },
        None => {
            assert forall|j: int| !#[trigger] part_before(rows, keys, z, j, i) by {
                if part_before(rows, keys, z, j, i) {
                    assert(part_size(keys, z, rows[j].head_mask) == 0);
                }
            }
        },
    }
}

proof fn lemma_zone_beats(rows: Seq<TimelineRow>, keys: u8, i: int, n: nat)
    requires
        keys == 4 || keys == 6 || keys == 7,
        n <= part_count(keys),
        0 <= i < rows.len(),
    ensures
        ({
            let beats = zone_beats(rows, i, zones(keys), n);
            &&& beats.len() == how_many(n, |z: int| part_size(keys, z, rows[i].head_mask) > 0)
            &&& forall|k: int|
                0 <= k < beats.len() ==> {
                    let b = #[trigger] beats[k];
                    b.zone < n && tells_part(rows, keys, b.zone as int, i, b)
                }
            &&& forall|k: int, l: int|
                0 <= k < l < beats.len() ==> (#[trigger] beats[k]).zone < (#[trigger] beats[l]).zone
        }),
    decreases n,
{
    if n > 0 {
        let m = (n - 1) as nat;
        let z = m as int;
        lemma_zone_beats(rows, keys, i, m);
        lemma_part(keys, z, rows[i].head_mask);
        let before = zone_beats(rows, i, zones(keys), m);
        let beats = zone_beats(rows, i, zones(keys), n);
        if rows[i].head_mask & zones(keys)[z] != 0 {
            lemma_zone_beat(rows, keys, z, i);
        }
        assert forall|k: int| 0 <= k < beats.len() implies {
            let b = #[trigger] beats[k];
            b.zone < n && tells_part(rows, keys, b.zone as int, i, b)
        } by {
            if k < before.len() {
                assert(beats[k] == before[k]);
            }
        }
        assert forall|k: int, l: int| 0 <= k < l < beats.len() implies (#[trigger] beats[k]).zone < (
        #[trigger] beats[l]).zone by {
            assert(beats[k] == before[k]);
            if l < before.len() {
                assert(beats[l] == before[l]);
            }
        }
    }
}

/// A row that strikes tells of each part of the hands that strikes, in order:
/// how many columns, how long ago it last struck, and whether on other columns
/// alone or on some of the same.
pub proof fn law_strikes_tell_of_the_hands(rows: Seq<TimelineRow>, keys: u8, i: int)
    requires
        keys == 4 || keys == 6 || keys == 7,
        0 <= i < rows.len(),
    ensures
        strain(rows, keys)[i].head matches Some(h) ==> {
            &&& h.zones.len() == how_many(
                part_count(keys) as nat,
                |z: int| part_size(keys, z, rows[i].head_mask) > 0,
            )
            &&& forall|k: int|
                0 <= k < h.zones.len() ==> {
                    let b = #[trigger] h.zones[k];
                    b.zone < part_count(keys) && tells_part(rows, keys, b.zone as int, i, b)
                }
            &&& forall|k: int, l: int|
                0 <= k < l < h.zones.len() ==> (#[trigger] h.zones[k]).zone < (
                #[trigger] h.zones[l]).zone
        },
{
    lemma_part(keys, 0, 0);
    lemma_zone_beats(rows, keys, i, part_count(keys) as nat);
}

/// The gap of the strike before a row is told too; a second where that was the
/// first of all.
pub proof fn law_strikes_tell_the_rhythm(rows: Seq<TimelineRow>, keys: u8, i: int, j: int)
    requires
        steady(rows),
        0 <= i < rows.len(),
        any(rows[i].head_mask),
        strikes_before(rows, j, i),
    ensures
        strain(rows, keys)[i].head matches Some(h) && {
            &&& forall|k: int| #[trigger]
                strikes_before(rows, k, j) ==> h.rhythm == Some(
                    (rows[j].time - rows[k].time) as i128,
                )
            &&& (forall|k: int| 0 <= k < j ==> !any((#[trigger] rows[k]).head_mask)) ==> h.rhythm
                == Some(3_000_000_000_000_000i128)
        },
{
    lemma_size(rows[i].head_mask);
    lemma_last_head(rows, i);
    lemma_last_head(rows, j);
    if let Some(k) = last_head(rows, j) {
        assert(any(rows[k].head_mask));
    } else {
        assert forall|k: int| !#[trigger] strikes_before(rows, k, j) by {
            if strikes_before(rows, k, j) {
                assert(!any(rows[k].head_mask));
            }
        }
    }
}

/// Whether row `j` is the last row before row `i` that strikes a column.
pub open spec fn column_before(rows: Seq<TimelineRow>, column: int, j: int, i: int) -> bool {
    &&& 0 <= j < i
    &&& has(rows[j].head_mask, column)
    &&& forall|k: int| j < k < i ==> !(has((#[trigger] rows[k]).head_mask, column))
}

proof fn lemma_column_before(rows: Seq<TimelineRow>, column: int, i: int)
    requires
        0 <= i <= rows.len(),
    ensures
        match last_struck(rows, i, weight(column)) {
            Some(j) => column_before(rows, column, j, i) && forall|k: int| #[trigger]
                column_before(rows, column, k, i) ==> k == j,
            None => forall|k: int| !#[trigger] column_before(rows, column, k, i),
        },
    decreases i,
{
    if i > 0 {
        lemma_column_before(rows, column, i - 1);
        if has(rows[i - 1].head_mask, column) {
            assert(column_before(rows, column, i - 1, i));
            assert forall|k: int| #[trigger] column_before(rows, column, k, i) implies k == i - 1 by {
                assert(has(rows[i - 1].head_mask, column));
            }
        } else {
            assert forall|k: int| #[trigger] column_before(rows, column, k, i) implies column_before(
                rows,
                column,
                k,
                i - 1,
            ) by {
                assert(has(rows[k].head_mask, column));
            }
            if let Some(j) = last_struck(rows, i - 1, weight(column)) {
                assert(column_before(rows, column, j, i));
            }
        }
    }
}

/// Whether a column of row `i` was struck before.
pub open spec fn comes_back(rows: Seq<TimelineRow>, column: int, i: int) -> bool {
    has(rows[i].head_mask, column) && exists|j: int| #[trigger] column_before(rows, column, j, i)
}

proof fn lemma_jack_gaps(rows: Seq<TimelineRow>, i: int, n: nat)
    requires
        0 <= i < rows.len(),
    ensures
        ({
            let gaps = jack_gaps(rows, i, n);
            &&& gaps.len() == how_many(n, |column: int| comes_back(rows, column, i))
            &&& forall|column: int, j: int|
                0 <= column < n && has(rows[i].head_mask, column) && #[trigger] column_before(
                    rows,
                    column,
                    j,
                    i,
                ) ==> gaps.contains((rows[i].time - rows[j].time) as i128)
        }),
    decreases n,
{
    if n > 0 {
        let m = (n - 1) as nat;
        lemma_jack_gaps(rows, i, m);
        lemma_column_before(rows, m as int, i);
        let before = jack_gaps(rows, i, m);
        let gaps = jack_gaps(rows, i, n);
        if let Some(j) = last_struck(rows, i, weight(m as int)) {
            assert(column_before(rows, m as int, j, i));
        }
        assert forall|column: int, j: int|
            0 <= column < n && has(rows[i].head_mask, column) && #[trigger] column_before(
                rows,
                column,
                j,
                i,
            ) implies gaps.contains((rows[i].time - rows[j].time) as i128) by {
            let g = (rows[i].time - rows[j].time) as i128;
            if column < m {
                assert(before.contains(g));
                let k = choose|k: int| 0 <= k < before.len() && before[k] == g;
                assert(gaps[k] == g);
            } else {
                assert(gaps[before.len() as int] == g);
            }
        }
    }
}

/// A row that strikes tells for each of its columns that was struck before how
/// long ago that was.
pub proof fn law_strikes_tell_when_columns_return(
    rows: Seq<TimelineRow>,
    keys: u8,
    i: int,
)
    requires
        0 <= i < rows.len(),
    ensures
        strain(rows, keys)[i].head matches Some(h) ==> {
            &&& h.jack_gaps.len() == how_many(
                keys as nat,
                |column: int| comes_back(rows, column, i),
            )
            &&& forall|column: int, j: int|
                0 <= column < keys && has(rows[i].head_mask, column) && #[trigger] column_before(
                    rows,
                    column,
                    j,
                    i,
                ) ==> h.jack_gaps.contains((rows[i].time - rows[j].time) as i128)
        },
{
    lemma_jack_gaps(rows, i, keys as nat);
}

/// Whether row `j` strikes at most three quarters of a second before row `i`.
pub open spec fn recent(rows: Seq<TimelineRow>, j: int, i: int) -> bool {
    any(rows[j].head_mask) && rows[i].time - rows[j].time <= 2_250_000_000_000_000
}

proof fn lemma_window_masks(rows: Seq<TimelineRow>, i: int, n: nat, mask: u8)
    requires
        0 <= i < rows.len(),
        n <= rows.len(),
        mask != 0,
    ensures
        window_masks(rows, i, n).len() == how_many(n, |j: int| recent(rows, j, i)),
        occurrences(window_masks(rows, i, n), mask as int) == how_many(
            n,
            |j: int| recent(rows, j, i) && rows[j].head_mask == mask,
        ),
    decreases n,
{
    if n > 0 {
        let m = (n - 1) as nat;
        lemma_window_masks(rows, i, m, mask);
        lemma_size(rows[m as int].head_mask);
        let before = window_masks(rows, i, m);
        let all = window_masks(rows, i, n);
        if recent(rows, m as int, i) {
            assert(all.drop_last() =~= before);
        }
    }
}

proof fn lemma_window_transitions(rows: Seq<TimelineRow>, i: int, n: nat)
    requires
        0 <= i < rows.len(),
        n <= rows.len(),
    ensures
        window_transitions(rows, i, n).len() == how_many(
            n,
            |j: int| recent(rows, j, i) && exists|k: int| #[trigger] strikes_before(rows, k, j),
        ),
    decreases n,
{
    if n > 0 {
        let m = n - 1;
        lemma_window_transitions(rows, i, (n - 1) as nat);
        lemma_size(rows[m].head_mask);
        lemma_last_head(rows, m);
        match last_head(rows, m) {
            Some(k) => {
                assert(strikes_before(rows, k, m));
                lemma_size(rows[k].head_mask);
                assert(any(rows[k].head_mask));
            },
            None => {
                assert forall|k: int| !#[trigger] strikes_before(rows, k, m) by {
                    if strikes_before(rows, k, m) {
                        assert(!any(rows[k].head_mask));
                    }
                }
            },
        }
    }
}

proof fn lemma_next_reaches(keys: Seq<u32>, after: int, key: int)
    requires
        occurrences(keys, key) > 0,
        key > after,
    ensures
        next_key(keys, after) matches Some(k) && k <= key,
    decreases keys.len(),
{
    if keys.len() > 0 && occurrences(keys.drop_last(), key) > 0 {
        lemma_next_reaches(keys.drop_last(), after, key);
    }
}

proof fn lemma_tally_holds(keys: Seq<u32>, after: int, key: int)
    requires
        occurrences(keys, key) > 0,
        key > after,
    ensures
        tally_from(keys, after).contains(occurrences(keys, key)),
    decreases crate::tally::above(keys, after),
{
    lemma_next_reaches(keys, after, key);
    crate::tally::lemma_next_key(keys, after);
    let k = next_key(keys, after)->0;
    let all = tally_from(keys, after);
    if k == key {
        assert(all[0] == occurrences(keys, key));
    } else {
        lemma_tally_holds(keys, k, key);
        let rest = tally_from(keys, k);
        let i = choose|i: int| 0 <= i < rest.len() && rest[i] == occurrences(keys, key);
        assert(all[i + 1] == rest[i]);
    }
}

/// A row that strikes tells how often each set of columns was struck within
/// three quarters of a second, itself included: each such strike is counted
/// once, and the counts hold that of every set of columns struck there. Changes
/// from one strike to the next are counted likewise.
pub proof fn law_strikes_tell_what_was_recent(rows: Seq<TimelineRow>, keys: u8, i: int)
    requires
        0 <= i < rows.len(),
    ensures
        strain(rows, keys)[i].head matches Some(h) ==> {
            let n = (i + 1) as nat;
            &&& sum(h.mask_counts) == how_many(n, |j: int| recent(rows, j, i))
            &&& forall|k: int|
                0 <= k < n && #[trigger] recent(rows, k, i) ==> h.mask_counts.contains(
                    how_many(n, |j: int| recent(rows, j, i) && rows[j].head_mask == rows[k].head_mask),
                )
            &&& sum(h.transition_counts) == how_many(
                n,
                |j: int| recent(rows, j, i) && exists|k: int| #[trigger] strikes_before(rows, k, j),
            )
        },
{
    let n = (i + 1) as nat;
    let masks = window_masks(rows, i, n);
    lemma_window_masks(rows, i, n, 1);
    lemma_window_transitions(rows, i, n);
    crate::tally::law_tally_counts_each_once(masks);
    crate::tally::law_tally_counts_each_once(window_transitions(rows, i, n));
    assert forall|k: int| 0 <= k < n && #[trigger] recent(rows, k, i) implies tally(masks).contains(
        how_many(n, |j: int| recent(rows, j, i) && rows[j].head_mask == rows[k].head_mask),
    ) by {
        let mask = rows[k].head_mask;
        lemma_size(mask);
        lemma_window_masks(rows, i, n, mask);
        let p = |j: int| recent(rows, j, i) && rows[j].head_mask == mask;
        crate::counting::lemma_count(n, p);
        assert(p(k));
        lemma_tally_holds(masks, -1, mask as int);
    }
}

/// How many parts of the hands strike again in row `i`, and how many of those
/// on other columns alone.
pub open spec fn parts_returning(rows: Seq<TimelineRow>, keys: u8, i: int) -> nat {
    how_many(
        part_count(keys) as nat,
        |z: int|
            part_size(keys, z, rows[i].head_mask) > 0 && exists|j: int| #[trigger]
                part_before(rows, keys, z, j, i),
    )
}

/// How many parts of the hands strike again in row `i` on other columns alone.
pub open spec fn parts_rotating(rows: Seq<TimelineRow>, keys: u8, i: int) -> nat {
    how_many(
        part_count(keys) as nat,
        |z: int|
            part_size(keys, z, rows[i].head_mask) > 0 && exists|j: int| #[trigger]
                part_before(rows, keys, z, j, i) && part_common(
                    keys,
                    z,
                    rows[j].head_mask,
                    rows[i].head_mask,
                ) == 0,
    )
}

proof fn lemma_front(a: Seq<ZoneBeat>, b: ZoneBeat, n: nat)
    requires
        n <= a.len(),
    ensures
        rotated(a.push(b), n) == rotated(a, n),
        returned(a.push(b), n) == returned(a, n),
    decreases n,
{
    if n > 0 {
        lemma_front(a, b, (n - 1) as nat);
    }
}

proof fn lemma_parts(rows: Seq<TimelineRow>, keys: u8, i: int, n: nat)
    requires
        keys == 4 || keys == 6 || keys == 7,
        n <= part_count(keys),
        0 <= i < rows.len(),
    ensures
        ({
            let beats = zone_beats(rows, i, zones(keys), n);
            &&& rotated(beats, beats.len()) == how_many(
                n,
                |z: int|
                    part_size(keys, z, rows[i].head_mask) > 0 && exists|j: int| #[trigger]
                        part_before(rows, keys, z, j, i) && part_common(
                            keys,
                            z,
                            rows[j].head_mask,
                            rows[i].head_mask,
                        ) == 0,
            )
            &&& returned(beats, beats.len()) == how_many(
                n,
                |z: int|
                    part_size(keys, z, rows[i].head_mask) > 0 && exists|j: int| #[trigger]
                        part_before(rows, keys, z, j, i),
            )
        }),
    decreases n,
{
    if n > 0 {
        let m = (n - 1) as nat;
        let z = m as int;
        lemma_parts(rows, keys, i, m);
        lemma_part(keys, z, rows[i].head_mask);
        let before = zone_beats(rows, i, zones(keys), m);
        if rows[i].head_mask & zones(keys)[z] != 0 {
            let b = zone_beat(rows, i, z, zones(keys)[z]);
            lemma_zone_beat(rows, keys, z, i);
            lemma_front(before, b, before.len());
            lemma_part_before(rows, keys, z, i);
            if let Some(j) = last_struck(rows, i, zones(keys)[z]) {
                assert(part_before(rows, keys, z, j, i));
            } else {
                assert forall|j: int| !#[trigger] part_before(rows, keys, z, j, i) by {
                    if part_before(rows, keys, z, j, i) {
                        assert(part_size(keys, z, rows[j].head_mask) == 0);
                    }
                }
            }
        }
    }
}

proof fn lemma_rotations(rows: Seq<TimelineRow>, keys: u8, n: nat)
    requires
        keys == 4 || keys == 6 || keys == 7,
        n <= rows.len(),
    ensures
        totals(rows, keys, n).rotations == sum_of(n, |i: int| parts_rotating(rows, keys, i) as int),
        totals(rows, keys, n).zone_transitions == sum_of(
            n,
            |i: int| parts_returning(rows, keys, i) as int,
        ),
    decreases n,
{
    if n > 0 {
        let i = n - 1;
        lemma_rotations(rows, keys, (n - 1) as nat);
        lemma_parts(rows, keys, i, part_count(keys) as nat);
        lemma_part(keys, 0, 0);
        if rows[i].head_mask == 0 {
            lemma_part(keys, 0, rows[i].head_mask);
            lemma_part(keys, 1, rows[i].head_mask);
            if keys == 7 {
                lemma_part(keys, 2, rows[i].head_mask);
            }
            let (a, b, c) = (zones(keys)[0], zones(keys)[1], zones(keys)[2]);
            assert(0u8 & a == 0) by (bit_vector);
            assert(0u8 & b == 0) by (bit_vector);
            assert(0u8 & c == 0) by (bit_vector);
            reveal_with_fuel(how_many, 4);
        }
    }
}

/// The rate of rotation is the share of strikes of a part of the hands that
/// follow an earlier one on other columns alone.
pub proof fn law_rotations_are_counted(
    rows: Seq<TimelineRow>,
    keys: u8,
    beat: Option<i128>,
    sv_changes: int,
)
    requires
        steady(rows),
        keys == 4 || keys == 6 || keys == 7,
        rows.len() <= u64::MAX,
    ensures
        is_share(
            summary_of(rows, keys, beat, sv_changes).style.rotation_rate,
            sum_of(rows.len(), |i: int| parts_rotating(rows, keys, i) as int),
            sum_of(rows.len(), |i: int| parts_returning(rows, keys, i) as int),
        ),
{
    lemma_rotations(rows, keys, rows.len());
    crate::features::law_totals_are_bounded(rows, keys, rows.len());
}

/// A row tells how far it lies behind the first and behind the one before it,
/// and how many columns it holds, lets go and starts long notes on.
pub proof fn law_rows_tell_times_and_holds(rows: Seq<TimelineRow>, keys: u8, i: int)
    requires
        0 <= i < rows.len(),
    ensures
        ({
            let s = strain(rows, keys)[i];
            &&& s.since == rows[i].time - rows[0].time
            &&& i == 0 ==> s.gap == 0
            &&& i > 0 ==> s.gap == rows[i].time - rows[i - 1].time
            &&& s.held == size(rows[i].active_hold_mask)
            &&& s.released == size(rows[i].release_mask)
            &&& s.ln_heads == size(rows[i].ln_head_mask)
            &&& s.hybrid == (any(rows[i].ln_head_mask) && any(rows[i].normal_mask))
        }),
{
    lemma_size(rows[i].active_hold_mask);
    lemma_size(rows[i].release_mask);
    lemma_size(rows[i].ln_head_mask);
    lemma_size(rows[i].normal_mask);
}

} // verus!
