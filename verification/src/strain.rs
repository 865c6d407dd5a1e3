//! What each row of a timeline asks of the hands: gaps, repeats, windows.

use crate::columns::{count, has, holds, ones, weight};
use crate::number::LIMIT;
use crate::tally::{count_keys, counts, tally};
use crate::timeline::TimelineRow;
use crate::types::ManiaPattern;
use vstd::prelude::*;

verus! {

/// A second, in parts. The first note counts as this far behind the last.
pub const SECOND: i128 = 3_000_000_000_000_000;

/// Four seconds, in parts.
pub const FOUR_SECONDS: i128 = 12_000_000_000_000_000;

/// How far back masks and transitions are counted, in parts.
pub const ENTROPY_WINDOW: i128 = 2_250_000_000_000_000;

/// A column struck again within this gap anchors the row, in parts.
pub const ANCHOR_GAP: i128 = 660_000_000_000_000;

/// Whether times rise and stay within range.
pub open spec fn steady(rows: Seq<TimelineRow>) -> bool {
    &&& forall|i: int, j: int|
        0 <= i < j < rows.len() ==> (#[trigger] rows[i]).time < (#[trigger] rows[j]).time
    &&& forall|i: int|
        0 <= i < rows.len() ==> -4 * LIMIT <= (#[trigger] rows[i]).time <= 4 * LIMIT
}

/// The columns that each part of the hands plays.
pub open spec fn zones(keys: u8) -> Seq<u8> {
    if keys == 4 {
        seq![3u8, 12u8]
    } else if keys == 6 {
        seq![7u8, 56u8]
    } else {
        seq![7u8, 8u8, 112u8]
    }
}

/// The columns that each part of the hands plays.
pub fn zones_for(keys: u8) -> (r: Vec<u8>)
    requires
        keys == 4 || keys == 6 || keys == 7,
    ensures
        r@ == zones(keys),
{
    let r: Vec<u8> = if keys == 4 {
        vec![3u8, 12u8]
    } else if keys == 6 {
        vec![7u8, 56u8]
    } else {
        vec![7u8, 8u8, 112u8]
    };
    assert(r@ =~= zones(keys));
    r
}

/// The last row before row `i` that strikes a column of a mask.
pub open spec fn last_struck(rows: Seq<TimelineRow>, i: int, mask: u8) -> Option<int>
    decreases i,
{
    if i <= 0 {
        None
    } else if rows[i - 1].head_mask & mask != 0 {
        Some(i - 1)
    } else {
        last_struck(rows, i - 1, mask)
    }
}

/// The last row before row `i` that strikes at all.
pub open spec fn last_head(rows: Seq<TimelineRow>, i: int) -> Option<int>
    decreases i,
{
    if i <= 0 {
        None
    } else if rows[i - 1].head_mask != 0 {
        Some(i - 1)
    } else {
        last_head(rows, i - 1)
    }
}

/// How far row `i` lies behind another row.
pub open spec fn gap_since(rows: Seq<TimelineRow>, i: int, j: Option<int>) -> Option<i128> {
    match j {
        Some(j) => Some((rows[i].time - rows[j].time) as i128),
        None => None,
    }
}

/// A gap, or a second where there is none.
pub open spec fn or_second(gap: Option<i128>) -> i128 {
    match gap {
        Some(g) => g,
        None => SECOND,
    }
}

/// The columns of the last row before row `i` that strikes.
pub open spec fn last_mask(rows: Seq<TimelineRow>, i: int) -> u8 {
    match last_head(rows, i) {
        Some(j) => rows[j].head_mask,
        None => 0,
    }
}

/// What one part of the hands does in a row.
#[derive(Clone, Copy, Debug)]
pub struct ZoneBeat {
    /// The place of the part among [`zones`].
    pub zone: u8,
    /// How many of its columns are struck.
    pub count: u8,
    /// How long ago it last struck.
    pub gap: Option<i128>,
    /// Whether it struck before, on other columns alone.
    pub rotated: bool,
    /// Whether it struck one of the same columns.
    pub overlap: bool,
}

/// What the part with mask `zone` does in row `i`.
pub open spec fn zone_beat(rows: Seq<TimelineRow>, i: int, place: int, zone: u8) -> ZoneBeat {
    let active = rows[i].head_mask & zone;
    let last = last_struck(rows, i, zone);
    let shared = match last {
        Some(j) => (rows[j].head_mask & zone) & active,
        None => 0,
    };
    ZoneBeat {
        zone: place as u8,
        count: ones(active) as u8,
        gap: gap_since(rows, i, last),
        rotated: last is Some && shared == 0,
        overlap: shared != 0,
    }
}

/// What the first `n` parts of the hands do in row `i`, as far as they strike.
pub open spec fn zone_beats(rows: Seq<TimelineRow>, i: int, parts: Seq<u8>, n: nat) -> Seq<ZoneBeat>
    decreases n,
{
    if n == 0 {
        Seq::empty()
    } else {
        let before = zone_beats(rows, i, parts, (n - 1) as nat);
        if rows[i].head_mask & parts[n - 1] != 0 {
            before.push(zone_beat(rows, i, n - 1, parts[n - 1]))
        } else {
            before
        }
    }
}

/// How long ago the columns of row `i` were last struck, of the first `n`
/// columns, as far as they were.
pub open spec fn jack_gaps(rows: Seq<TimelineRow>, i: int, n: nat) -> Seq<i128>
    decreases n,
{
    if n == 0 {
        Seq::empty()
    } else {
        let before = jack_gaps(rows, i, (n - 1) as nat);
        match last_struck(rows, i, weight(n - 1)) {
            Some(j) if has(rows[i].head_mask, n - 1) => before.push(
                (rows[i].time - rows[j].time) as i128,
            ),
            _ => before,
        }
    }
}

/// Whether any of the gaps is short enough for an anchor.
pub open spec fn anchored(gaps: Seq<i128>) -> bool {
    exists|n: int| 0 <= n < gaps.len() && #[trigger] gaps[n] <= ANCHOR_GAP
}

/// Whether row `j` lies at most `span` before row `i`.
pub open spec fn within(rows: Seq<TimelineRow>, i: int, j: int, span: int) -> bool {
    rows[i].time - rows[j].time <= span
}

/// How many notes the first `n` rows strike within `span` before row `i`.
pub open spec fn notes_within(rows: Seq<TimelineRow>, i: int, n: nat, span: int) -> nat
    decreases n,
{
    if n == 0 {
        0
    } else {
        notes_within(rows, i, (n - 1) as nat, span) + (if within(rows, i, n - 1, span) {
            ones(rows[n - 1].head_mask)
        } else {
            0
        })
    }
}

/// The masks that the first `n` rows strike within the window before row `i`.
pub open spec fn window_masks(rows: Seq<TimelineRow>, i: int, n: nat) -> Seq<u32>
    decreases n,
{
    if n == 0 {
        Seq::empty()
    } else {
        let before = window_masks(rows, i, (n - 1) as nat);
        if rows[n - 1].head_mask != 0 && within(rows, i, n - 1, ENTROPY_WINDOW as int) {
            before.push(rows[n - 1].head_mask as u32)
        } else {
            before
        }
    }
}

/// The transitions that the first `n` rows make within the window before row
/// `i`: the mask before and the mask itself, as one number.
pub open spec fn window_transitions(rows: Seq<TimelineRow>, i: int, n: nat) -> Seq<u32>
    decreases n,
{
    if n == 0 {
        Seq::empty()
    } else {
        let before = window_transitions(rows, i, (n - 1) as nat);
        let from = last_mask(rows, n - 1);
        if rows[n - 1].head_mask != 0 && from != 0 && within(
            rows,
            i,
            n - 1,
            ENTROPY_WINDOW as int,
        ) {
            before.push((from * 256 + rows[n - 1].head_mask) as u32)
        } else {
            before
        }
    }
}

/// What a row that strikes asks of the hands.
#[derive(Clone, Debug)]
pub struct HeadFacts {
    /// How many columns are struck.
    pub count: u8,
    /// How long ago the last strike was.
    pub gap: Option<i128>,
    /// The gap of the last strike itself; a second for the first of all.
    pub rhythm: Option<i128>,
    /// What each part of the hands does, as far as it strikes.
    pub zones: Vec<ZoneBeat>,
    /// How long ago the columns were last struck, as far as they were.
    pub jack_gaps: Vec<i128>,
    /// Whether a column is struck again within [`ANCHOR_GAP`].
    pub anchor: bool,
    /// Whether the last strike was on other columns.
    pub changed: bool,
    /// How often each mask was struck within the window.
    pub mask_counts: Vec<usize>,
    /// How often each transition was made within the window.
    pub transition_counts: Vec<usize>,
    /// How many notes were struck within a second.
    pub count_1s: i128,
    /// How many notes were struck within four seconds.
    pub count_4s: i128,
}

/// [`HeadFacts`] as a value.
#[verifier::ext_equal]
pub struct HeadView {
    pub count: int,
    pub gap: Option<i128>,
    pub rhythm: Option<i128>,
    pub zones: Seq<ZoneBeat>,
    pub jack_gaps: Seq<i128>,
    pub anchor: bool,
    pub changed: bool,
    pub mask_counts: Seq<nat>,
    pub transition_counts: Seq<nat>,
    pub count_1s: int,
    pub count_4s: int,
}

impl View for HeadFacts {
    type V = HeadView;

    open spec fn view(&self) -> HeadView {
        HeadView {
            count: self.count as int,
            gap: self.gap,
            rhythm: self.rhythm,
            zones: self.zones@,
            jack_gaps: self.jack_gaps@,
            anchor: self.anchor,
            changed: self.changed,
            mask_counts: counts(self.mask_counts@),
            transition_counts: counts(self.transition_counts@),
            count_1s: self.count_1s as int,
            count_4s: self.count_4s as int,
        }
    }
}

/// What row `i`, which strikes, asks of the hands.
pub open spec fn head_facts(rows: Seq<TimelineRow>, keys: u8, i: int) -> HeadView {
    let last = last_head(rows, i);
    let gaps = jack_gaps(rows, i, keys as nat);
    HeadView {
        count: ones(rows[i].head_mask) as int,
        gap: gap_since(rows, i, last),
        rhythm: match last {
            Some(j) => Some(or_second(gap_since(rows, j, last_head(rows, j)))),
            None => None,
        },
        zones: zone_beats(rows, i, zones(keys), zones(keys).len()),
        jack_gaps: gaps,
        anchor: anchored(gaps),
        changed: last is Some && last_mask(rows, i) != rows[i].head_mask,
        mask_counts: tally(window_masks(rows, i, (i + 1) as nat)),
        transition_counts: tally(window_transitions(rows, i, (i + 1) as nat)),
        count_1s: notes_within(rows, i, (i + 1) as nat, SECOND as int) as int,
        count_4s: notes_within(rows, i, (i + 1) as nat, FOUR_SECONDS as int) as int,
    }
}

/// Whether a row strikes long notes and others.
pub open spec fn is_hybrid(row: TimelineRow) -> bool {
    row.ln_head_mask != 0 && row.normal_mask != 0
}

/// The pattern that a row shows, given the columns struck before it and
/// whether one of its columns is an anchor.
pub open spec fn pattern_of(row: TimelineRow, previous: u8, anchor: bool) -> ManiaPattern {
    if is_hybrid(row) || row.release_mask & row.head_mask != 0 {
        ManiaPattern::Coordination
    } else if row.ln_head_mask != 0 && (ones(row.head_mask) >= 2 || ones(row.active_hold_mask)
        >= 2) {
        ManiaPattern::Density
    } else if row.ln_head_mask != 0 || row.release_mask != 0 || row.active_hold_mask != 0 {
        ManiaPattern::Wildcard
    } else if anchor || previous & row.head_mask != 0 {
        ManiaPattern::Jacks
    } else if ones(row.head_mask) >= 2 {
        ManiaPattern::Chordstream
    } else if row.head_mask != 0 {
        ManiaPattern::Stream
    } else {
        ManiaPattern::Wildcard
    }
}

/// The pattern that a row shows.
pub fn classify_pattern(row: &TimelineRow, previous: u8, anchor: bool) -> (r: ManiaPattern)
    ensures
        r == pattern_of(*row, previous, anchor),
{
    if (row.ln_head_mask != 0 && row.normal_mask != 0) || row.release_mask & row.head_mask != 0 {
        ManiaPattern::Coordination
    } else if row.ln_head_mask != 0 && (count(row.head_mask) >= 2 || count(row.active_hold_mask)
        >= 2) {
        ManiaPattern::Density
    } else if row.ln_head_mask != 0 || row.release_mask != 0 || row.active_hold_mask != 0 {
        ManiaPattern::Wildcard
    } else if anchor || previous & row.head_mask != 0 {
        ManiaPattern::Jacks
    } else if count(row.head_mask) >= 2 {
        ManiaPattern::Chordstream
    } else if row.head_mask != 0 {
        ManiaPattern::Stream
    } else {
        ManiaPattern::Wildcard
    }
}

/// What a row asks of the hands.
#[derive(Clone, Debug)]
pub struct StrainRow {
    /// How far the row lies behind the first.
    pub since: i128,
    /// How far the row lies behind the one before it; zero for the first.
    pub gap: i128,
    /// How many columns are held.
    pub held: u8,
    /// How many columns are let go.
    pub released: u8,
    /// How many long notes start.
    pub ln_heads: u8,
    /// Whether long notes and others are struck at once.
    pub hybrid: bool,
    pub pattern: ManiaPattern,
    /// What a strike asks, where the row strikes.
    pub head: Option<HeadFacts>,
}

/// A [`StrainRow`] as a value.
#[verifier::ext_equal]
pub struct StrainView {
    pub since: int,
    pub gap: int,
    pub held: int,
    pub released: int,
    pub ln_heads: int,
    pub hybrid: bool,
    pub pattern: ManiaPattern,
    pub head: Option<HeadView>,
}

impl View for StrainRow {
    type V = StrainView;

    open spec fn view(&self) -> StrainView {
        StrainView {
            since: self.since as int,
            gap: self.gap as int,
            held: self.held as int,
            released: self.released as int,
            ln_heads: self.ln_heads as int,
            hybrid: self.hybrid,
            pattern: self.pattern,
            head: match self.head {
                Some(h) => Some(h@),
                None => None,
            },
        }
    }
}

/// What row `i` asks of the hands.
pub open spec fn strain_row(rows: Seq<TimelineRow>, keys: u8, i: int) -> StrainView {
    let row = rows[i];
    let struck = row.head_mask != 0;
    StrainView {
        since: row.time - rows[0].time,
        gap: if i == 0 {
            0
        } else {
            row.time - rows[i - 1].time
        },
        held: ones(row.active_hold_mask) as int,
        released: ones(row.release_mask) as int,
        ln_heads: ones(row.ln_head_mask) as int,
        hybrid: is_hybrid(row),
        pattern: pattern_of(
            row,
            last_mask(rows, i),
            struck && anchored(jack_gaps(rows, i, keys as nat)),
        ),
        head: if struck {
            Some(head_facts(rows, keys, i))
        } else {
            None
        },
    }
}

/// What the rows of a timeline ask of the hands.
pub open spec fn strain(rows: Seq<TimelineRow>, keys: u8) -> Seq<StrainView> {
    Seq::new(rows.len(), |i: int| strain_row(rows, keys, i))
}

/// The first row that lies at most `span` before row `i`.
fn window_start(rows: &[TimelineRow], i: usize, span: i128) -> (r: usize)
    requires
        steady(rows@),
        i < rows@.len(),
        span >= 0,
    ensures
        r <= i,
        forall|j: int| r <= j <= i ==> within(rows@, i as int, j, span as int),
        forall|j: int| 0 <= j < r ==> !within(rows@, i as int, j, span as int),
{
    let mut r: usize = i;
    while r > 0 && rows[i].time - rows[r - 1].time <= span
        invariant
            steady(rows@),
            r <= i < rows@.len(),
            span >= 0,
            forall|j: int| r <= j <= i ==> within(rows@, i as int, j, span as int),
        decreases r,
    {
        r = r - 1;
    }
    assert forall|j: int| 0 <= j < r implies !within(rows@, i as int, j, span as int) by {
        if j < r - 1 {
            assert(rows@[j].time < rows@[r - 1].time);
        }
    }
    r
}

proof fn lemma_before_window(rows: Seq<TimelineRow>, i: int, n: nat, span: int)
    requires
        forall|j: int| 0 <= j < n ==> !within(rows, i, j, span),
    ensures
        notes_within(rows, i, n, span) == 0,
        span == ENTROPY_WINDOW ==> window_masks(rows, i, n) == Seq::<u32>::empty()
            && window_transitions(rows, i, n) == Seq::<u32>::empty(),
    decreases n,
{
    if n > 0 {
        lemma_before_window(rows, i, (n - 1) as nat, span);
        assert(!within(rows, i, n - 1, span));
    }
}

/// How many notes are struck within `span` before row `i`, and in it.
fn notes_in(rows: &[TimelineRow], i: usize, span: i128) -> (r: i128)
    requires
        steady(rows@),
        i < rows@.len(),
        span >= 0,
    ensures
        r == notes_within(rows@, i as int, (i + 1) as nat, span as int),
        0 <= r <= 8 * (i + 1),
{
    let mut n: usize = window_start(rows, i, span);
    proof {
        lemma_before_window(rows@, i as int, n as nat, span as int);
    }
    let mut sum: i128 = 0;
    while n <= i
        invariant
            n <= i + 1,
            i < rows@.len(),
            sum == notes_within(rows@, i as int, n as nat, span as int),
            0 <= sum <= 8 * n,
            forall|j: int| n <= j <= i ==> within(rows@, i as int, j, span as int),
        decreases i + 1 - n,
    {
        assert(within(rows@, i as int, n as int, span as int));
        sum = sum + count(rows[n].head_mask) as i128;
        n = n + 1;
    }
    sum
}

/// The masks struck, and the transitions made, within the window before row
/// `i`, and in it.
fn window_keys(rows: &[TimelineRow], i: usize, masks: &[u8]) -> (r: (Vec<u32>, Vec<u32>))
    requires
        steady(rows@),
        i < rows@.len(),
        masks@.len() == i + 1,
        forall|j: int| 0 <= j <= i ==> #[trigger] masks@[j] == last_mask(rows@, j),
    ensures
        r.0@ == window_masks(rows@, i as int, (i + 1) as nat),
        r.1@ == window_transitions(rows@, i as int, (i + 1) as nat),
{
    let mut n: usize = window_start(rows, i, ENTROPY_WINDOW);
    proof {
        lemma_before_window(rows@, i as int, n as nat, ENTROPY_WINDOW as int);
    }
    let mut struck: Vec<u32> = Vec::new();
    let mut moves: Vec<u32> = Vec::new();
    while n <= i
        invariant
            n <= i + 1,
            i < rows@.len(),
            masks@.len() == i + 1,
            forall|j: int| 0 <= j <= i ==> #[trigger] masks@[j] == last_mask(rows@, j),
            struck@ == window_masks(rows@, i as int, n as nat),
            moves@ == window_transitions(rows@, i as int, n as nat),
            forall|j: int| n <= j <= i ==> within(rows@, i as int, j, ENTROPY_WINDOW as int),
        decreases i + 1 - n,
    {
        let mask = rows[n].head_mask;
        let from = masks[n];
        assert(within(rows@, i as int, n as int, ENTROPY_WINDOW as int));
        if mask != 0 {
            struck.push(mask as u32);
            if from != 0 {
                moves.push((from as u32) * 256 + mask as u32);
            }
        }
        n = n + 1;
    }
    (struck, moves)
}

/// A place in the timeline as an integer.
spec fn place(j: Option<usize>) -> Option<int> {
    match j {
        Some(j) => Some(j as int),
        None => None,
    }
}

proof fn lemma_last_is_earlier(rows: Seq<TimelineRow>, i: int)
    ensures
        last_head(rows, i) matches Some(j) ==> 0 <= j < i && rows[j].head_mask != 0,
        forall|mask: u8| #[trigger]
            last_struck(rows, i, mask) matches Some(j) ==> 0 <= j < i && rows[j].head_mask & mask
                != 0,
    decreases i,
{
    if i > 0 {
        lemma_last_is_earlier(rows, i - 1);
        assert forall|mask: u8| (#[trigger] last_struck(rows, i, mask)) is Some implies 0
            <= last_struck(rows, i, mask)->0 < i && rows[last_struck(rows, i, mask)->0].head_mask
            & mask != 0 by {
            assert(last_struck(rows, i - 1, mask) matches Some(j) ==> 0 <= j < i);
        }
    }
}

/// What is remembered of the rows already seen.
struct Trace {
    head: Option<usize>,
    rhythm: Option<i128>,
    zones: Vec<Option<usize>>,
    columns: Vec<Option<usize>>,
    /// The columns struck before each row.
    masks: Vec<u8>,
}

impl Trace {
    /// Whether this is what rows before row `i` left behind.
    spec fn after(self, rows: Seq<TimelineRow>, parts: Seq<u8>, i: int) -> bool {
        &&& place(self.head) == last_head(rows, i)
        &&& self.rhythm == (match last_head(rows, i) {
            Some(j) => Some(or_second(gap_since(rows, j, last_head(rows, j)))),
            None => None,
        })
        &&& self.zones@.len() == parts.len()
        &&& forall|z: int|
            0 <= z < parts.len() ==> place(#[trigger] self.zones@[z]) == last_struck(
                rows,
                i,
                parts[z],
            )
        &&& self.columns@.len() == 8
        &&& forall|c: int|
            0 <= c < 8 ==> place(#[trigger] self.columns@[c]) == last_struck(rows, i, weight(c))
        &&& self.masks@.len() == i + 1
        &&& forall|j: int| 0 <= j <= i ==> #[trigger] self.masks@[j] == last_mask(rows, j)
    }

    fn new(parts: &[u8], rows: &[TimelineRow]) -> (r: Trace)
        ensures
            r.after(rows@, parts@, 0),
    {
        let mut zones: Vec<Option<usize>> = Vec::new();
        let mut z: usize = 0;
        while z < parts.len()
            invariant
                z <= parts@.len(),
                zones@.len() == z,
                forall|n: int| 0 <= n < z ==> (#[trigger] zones@[n]) is None,
            decreases parts@.len() - z,
        {
            zones.push(None);
            z = z + 1;
        }
        Trace {
            head: None,
            rhythm: None,
            zones,
            columns: vec![None, None, None, None, None, None, None, None],
            masks: vec![0],
        }
    }

    /// Takes row `i` into account.
    fn step(&mut self, rows: &[TimelineRow], parts: &[u8], i: usize)
        requires
            steady(rows@),
            i < rows@.len(),
            old(self).after(rows@, parts@, i as int),
        ensures
            final(self).after(rows@, parts@, i + 1),
    {
        let mask = rows[i].head_mask;
        let ghost before = *self;
        proof {
            lemma_last_is_earlier(rows@, i as int);
        }
        if mask != 0 {
            let gap = gap_of(rows, i, self.head);
            self.rhythm = Some(
                match gap {
                    Some(g) => g,
                    None => SECOND,
                },
            );
            self.head = Some(i);
            self.masks.push(mask);
        } else {
            let last = self.masks[i];
            self.masks.push(last);
        }
        let mut z: usize = 0;
        while z < parts.len()
            invariant
                z <= parts@.len(),
                i < rows@.len(),
                mask == rows@[i as int].head_mask,
                before.after(rows@, parts@, i as int),
                self.head == (if mask != 0 {
                    Some(i)
                } else {
                    before.head
                }),
                self.rhythm == (if mask != 0 {
                    Some(or_second(gap_since(rows@, i as int, last_head(rows@, i as int))))
                } else {
                    before.rhythm
                }),
                self.masks@ == before.masks@.push(
                    if mask != 0 {
                        mask
                    } else {
                        last_mask(rows@, i as int)
                    },
                ),
                self.columns@ == before.columns@,
                self.zones@.len() == parts@.len(),
                forall|n: int|
                    0 <= n < z ==> place(#[trigger] self.zones@[n]) == last_struck(
                        rows@,
                        i + 1,
                        parts@[n],
                    ),
                forall|n: int|
                    z <= n < parts@.len() ==> #[trigger] self.zones@[n] == before.zones@[n],
            decreases parts@.len() - z,
        {
            assert(place(before.zones@[z as int]) == last_struck(rows@, i as int, parts@[z as int]));
            if mask & parts[z] != 0 {
                self.zones.set(z, Some(i));
            }
            z = z + 1;
        }
        let mut c: u8 = 0;
        while c < 8
            invariant
                c <= 8,
                i < rows@.len(),
                mask == rows@[i as int].head_mask,
                before.after(rows@, parts@, i as int),
                self.head == (if mask != 0 {
                    Some(i)
                } else {
                    before.head
                }),
                self.rhythm == (if mask != 0 {
                    Some(or_second(gap_since(rows@, i as int, last_head(rows@, i as int))))
                } else {
                    before.rhythm
                }),
                self.masks@ == before.masks@.push(
                    if mask != 0 {
                        mask
                    } else {
                        last_mask(rows@, i as int)
                    },
                ),
                self.zones@.len() == parts@.len(),
                forall|n: int|
                    0 <= n < parts@.len() ==> place(#[trigger] self.zones@[n]) == last_struck(
                        rows@,
                        i + 1,
                        parts@[n],
                    ),
                self.columns@.len() == 8,
                forall|n: int|
                    0 <= n < c ==> place(#[trigger] self.columns@[n]) == last_struck(
                        rows@,
                        i + 1,
                        weight(n),
                    ),
                forall|n: int| c <= n < 8 ==> #[trigger] self.columns@[n] == before.columns@[n],
            decreases 8 - c,
        {
            assert(place(before.columns@[c as int]) == last_struck(
                rows@,
                i as int,
                weight(c as int),
            ));
            if holds(mask, c) {
                self.columns.set(c as usize, Some(i));
            }
            c = c + 1;
        }
        assert forall|j: int| 0 <= j <= i + 1 implies #[trigger] self.masks@[j] == last_mask(
            rows@,
            j,
        ) by {
            if j <= i {
                assert(self.masks@[j] == before.masks@[j]);
            }
        }
    }
}

/// How far row `i` lies behind another row.
fn gap_of(rows: &[TimelineRow], i: usize, j: Option<usize>) -> (r: Option<i128>)
    requires
        steady(rows@),
        i < rows@.len(),
        j matches Some(j) ==> j < i,
    ensures
        r == gap_since(rows@, i as int, place(j)),
{
    match j {
        Some(j) => Some(rows[i].time - rows[j].time),
        None => None,
    }
}

/// What the parts of the hands do in row `i`, as far as they strike.
fn beats_of(rows: &[TimelineRow], parts: &[u8], i: usize, trace: &Trace) -> (r: Vec<ZoneBeat>)
    requires
        steady(rows@),
        i < rows@.len(),
        trace.after(rows@, parts@, i as int),
        parts@.len() <= 3,
    ensures
        r@ == zone_beats(rows@, i as int, parts@, parts@.len()),
{
    let mut out: Vec<ZoneBeat> = Vec::new();
    let mut z: usize = 0;
    proof {
        lemma_last_is_earlier(rows@, i as int);
    }
    while z < parts.len()
        invariant
            z <= parts@.len() <= 3,
            steady(rows@),
            i < rows@.len(),
            trace.after(rows@, parts@, i as int),
            forall|mask: u8| #[trigger]
                last_struck(rows@, i as int, mask) matches Some(j) ==> 0 <= j < i
                    && rows@[j].head_mask & mask != 0,
            out@ == zone_beats(rows@, i as int, parts@, z as nat),
        decreases parts@.len() - z,
    {
        let active = rows[i].head_mask & parts[z];
        if active != 0 {
            let last = trace.zones[z];
            assert(place(trace.zones@[z as int]) == last_struck(
                rows@,
                i as int,
                parts@[z as int],
            ));
            let shared: u8 = match last {
                Some(j) => (rows[j].head_mask & parts[z]) & active,
                None => 0,
            };
            out.push(
                ZoneBeat {
                    zone: z as u8,
                    count: count(active),
                    gap: gap_of(rows, i, last),
                    rotated: last.is_some() && shared == 0,
                    overlap: shared != 0,
                },
            );
        }
        z = z + 1;
    }
    out
}

/// How long ago the columns of row `i` were last struck, and whether one of
/// them is an anchor.
fn jacks_of(rows: &[TimelineRow], keys: u8, parts: &[u8], i: usize, trace: &Trace) -> (r: (
    Vec<i128>,
    bool,
))
    requires
        steady(rows@),
        i < rows@.len(),
        keys <= 8,
        trace.after(rows@, parts@, i as int),
    ensures
        r.0@ == jack_gaps(rows@, i as int, keys as nat),
        r.1 == anchored(r.0@),
{
    let mut out: Vec<i128> = Vec::new();
    let mut anchor = false;
    let mut c: u8 = 0;
    proof {
        lemma_last_is_earlier(rows@, i as int);
    }
    while c < keys
        invariant
            c <= keys <= 8,
            steady(rows@),
            i < rows@.len(),
            trace.after(rows@, parts@, i as int),
            forall|mask: u8| #[trigger]
                last_struck(rows@, i as int, mask) matches Some(j) ==> 0 <= j < i
                    && rows@[j].head_mask & mask != 0,
            out@ == jack_gaps(rows@, i as int, c as nat),
            anchor == anchored(out@),
        decreases keys - c,
    {
        assert(place(trace.columns@[c as int]) == last_struck(rows@, i as int, weight(c as int)));
        if holds(rows[i].head_mask, c) {
            if let Some(g) = gap_of(rows, i, trace.columns[c as usize]) {
                let ghost before = out@;
                out.push(g);
                proof {
                    if anchored(before) {
                        let n = choose|n: int|
                            0 <= n < before.len() && #[trigger] before[n] <= ANCHOR_GAP;
                        assert(out@[n] == before[n]);
                    }
                    if g <= ANCHOR_GAP {
                        assert(out@[before.len() as int] <= ANCHOR_GAP);
                    }
                    if anchored(out@) && g > ANCHOR_GAP {
                        let n = choose|n: int|
                            0 <= n < out@.len() && #[trigger] out@[n] <= ANCHOR_GAP;
                        assert(before[n] == out@[n]);
                    }
                }
                if g <= ANCHOR_GAP {
                    anchor = true;
                }
            }
        }
        c = c + 1;
    }
    (out, anchor)
}

/// What row `i`, which strikes, asks of the hands.
fn head_of(rows: &[TimelineRow], keys: u8, parts: &[u8], i: usize, trace: &Trace) -> (r: HeadFacts)
    requires
        steady(rows@),
        i < rows@.len(),
        keys <= 8,
        parts@ == zones(keys),
        trace.after(rows@, parts@, i as int),
    ensures
        r@ == head_facts(rows@, keys, i as int),
{
    proof {
        lemma_last_is_earlier(rows@, i as int);
    }
    let (gaps, anchor) = jacks_of(rows, keys, parts, i, trace);
    let (masks, moves) = window_keys(rows, i, trace.masks.as_slice());
    let r = HeadFacts {
        count: count(rows[i].head_mask),
        gap: gap_of(rows, i, trace.head),
        rhythm: trace.rhythm,
        zones: beats_of(rows, parts, i, trace),
        jack_gaps: gaps,
        anchor,
        changed: trace.head.is_some() && trace.masks[i] != rows[i].head_mask,
        mask_counts: count_keys(masks.as_slice()),
        transition_counts: count_keys(moves.as_slice()),
        count_1s: notes_in(rows, i, SECOND),
        count_4s: notes_in(rows, i, FOUR_SECONDS),
    };
    assert(r@ =~= head_facts(rows@, keys, i as int));
    r
}

/// A list of strain rows as values.
pub open spec fn strain_views(v: Seq<StrainRow>) -> Seq<StrainView> {
    v.map_values(|s: StrainRow| s@)
}

/// What the rows of a timeline ask of the hands.
pub fn strain_rows(rows: &[TimelineRow], keys: u8) -> (r: Vec<StrainRow>)
    requires
        keys == 4 || keys == 6 || keys == 7,
        steady(rows@),
    ensures
        strain_views(r@) == strain(rows@, keys),
{
    let parts = zones_for(keys);
    let mut trace = Trace::new(parts.as_slice(), rows);
    let mut out: Vec<StrainRow> = Vec::new();
    let mut i: usize = 0;
    while i < rows.len()
        invariant
            i <= rows@.len(),
            keys == 4 || keys == 6 || keys == 7,
            steady(rows@),
            parts@ == zones(keys),
            trace.after(rows@, parts@, i as int),
            out@.len() == i,
            forall|j: int| 0 <= j < i ==> (#[trigger] out@[j])@ == strain_row(rows@, keys, j),
        decreases rows@.len() - i,
    {
        let row = rows[i];
        let struck = row.head_mask != 0;
        let head = if struck {
            Some(head_of(rows, keys, parts.as_slice(), i, &trace))
        } else {
            None
        };
        let anchor = match &head {
            Some(h) => h.anchor,
            None => false,
        };
        let gap: i128 = if i == 0 {
            0
        } else {
            row.time - rows[i - 1].time
        };
        let next = StrainRow {
            since: row.time - rows[0].time,
            gap,
            held: count(row.active_hold_mask),
            released: count(row.release_mask),
            ln_heads: count(row.ln_head_mask),
            hybrid: row.ln_head_mask != 0 && row.normal_mask != 0,
            pattern: classify_pattern(&row, trace.masks[i], anchor),
            head,
        };
        assert(next@ =~= strain_row(rows@, keys, i as int));
        out.push(next);
        trace.step(rows, parts.as_slice(), i);
        i = i + 1;
    }
    assert(strain_views(out@) =~= strain(rows@, keys));
    out
}

} // verus!
