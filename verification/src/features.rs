//! The features of a timeline: counts, shares and rates.

use crate::columns::{count, one, ones};
use crate::strain::{
    anchored, gap_since, head_facts, is_hybrid, jack_gaps, last_head, notes_within, steady, strain,
    strain_row, strain_views, zone_beats, zones, StrainRow, ZoneBeat, SECOND,
};
use crate::timeline::{TimelineRow, MS};
use crate::types::{ManiaModeFamily, ManiaPattern, Ratio};
use vstd::prelude::*;

verus! {

/// What is counted over the rows of a timeline.
pub struct Totals {
    /// Notes struck.
    pub notes: int,
    /// Rows that strike.
    pub rows: int,
    /// Long notes struck.
    pub ln_notes: int,
    /// Rows that strike two notes or more.
    pub chords: int,
    /// Rows that strike half of the columns or more.
    pub large_chords: int,
    /// Rows with an anchor.
    pub anchors: int,
    /// Rows that strike long notes and others.
    pub hybrids: int,
    /// How often a part of the hands moved to other columns.
    pub rotations: int,
    /// How often a part of the hands struck again.
    pub zone_transitions: int,
    /// Time beyond a second between strikes.
    pub inactive: int,
    /// How often strikes were more than a second apart.
    pub breaks: int,
    /// Time that columns were held, added up.
    pub held: int,
    /// The most notes within a second.
    pub peak: int,
}

/// How many of the first `n` beats moved to other columns.
pub open spec fn rotated(beats: Seq<ZoneBeat>, n: nat) -> nat
    decreases n,
{
    if n == 0 {
        0
    } else {
        rotated(beats, (n - 1) as nat) + one(beats[n - 1].rotated)
    }
}

/// How many of the first `n` beats followed another of the same part.
pub open spec fn returned(beats: Seq<ZoneBeat>, n: nat) -> nat
    decreases n,
{
    if n == 0 {
        0
    } else {
        returned(beats, (n - 1) as nat) + one(beats[n - 1].gap is Some)
    }
}

/// The time beyond a second that a gap takes.
pub open spec fn idle(gap: Option<i128>) -> int {
    match gap {
        Some(g) if g > SECOND => g - SECOND,
        _ => 0,
    }
}

/// The larger of two numbers.
pub open spec fn larger(a: int, b: int) -> int {
    if a >= b {
        a
    } else {
        b
    }
}

/// The time that columns are held between row `i` and the one before it.
pub open spec fn held_before(rows: Seq<TimelineRow>, i: int) -> int {
    if i == 0 {
        0
    } else {
        (rows[i].time - rows[i - 1].time) * ones(rows[i - 1].active_hold_mask)
    }
}

/// The totals with row `i` added.
pub open spec fn add_row(t: Totals, rows: Seq<TimelineRow>, keys: u8, i: int) -> Totals {
    let row = rows[i];
    let n = ones(row.head_mask);
    if row.head_mask == 0 {
        Totals { held: t.held + held_before(rows, i), ..t }
    } else {
        let beats = zone_beats(rows, i, zones(keys), zones(keys).len());
        let gap = gap_since(rows, i, last_head(rows, i));
        Totals {
            notes: t.notes + n,
            rows: t.rows + 1,
            ln_notes: t.ln_notes + ones(row.ln_head_mask),
            chords: t.chords + one(n >= 2),
            large_chords: t.large_chords + one(2 * n >= keys),
            anchors: t.anchors + one(anchored(jack_gaps(rows, i, keys as nat))),
            hybrids: t.hybrids + one(is_hybrid(row)),
            rotations: t.rotations + rotated(beats, beats.len()),
            zone_transitions: t.zone_transitions + returned(beats, beats.len()),
            inactive: t.inactive + idle(gap),
            breaks: t.breaks + one(idle(gap) > 0),
            held: t.held + held_before(rows, i),
            peak: larger(
                t.peak,
                notes_within(rows, i, (i + 1) as nat, SECOND as int) as int,
            ),
        }
    }
}

/// The totals of the first `n` rows.
pub open spec fn totals(rows: Seq<TimelineRow>, keys: u8, n: nat) -> Totals
    decreases n,
{
    if n == 0 {
        Totals {
            notes: 0,
            rows: 0,
            ln_notes: 0,
            chords: 0,
            large_chords: 0,
            anchors: 0,
            hybrids: 0,
            rotations: 0,
            zone_transitions: 0,
            inactive: 0,
            breaks: 0,
            held: 0,
            peak: 0,
        }
    } else {
        add_row(totals(rows, keys, (n - 1) as nat), rows, keys, n - 1)
    }
}

/// How long row `i` lasts: until the next row, and at least a millisecond and
/// at most a second.
pub open spec fn lasting(rows: Seq<TimelineRow>, i: int) -> int {
    let gap = if i + 1 < rows.len() {
        rows[i + 1].time - rows[i].time
    } else {
        MS as int
    };
    if gap < MS {
        MS as int
    } else if gap > SECOND {
        SECOND as int
    } else {
        gap
    }
}

/// The pattern that row `i` shows.
pub open spec fn row_pattern(rows: Seq<TimelineRow>, keys: u8, i: int) -> ManiaPattern {
    strain_row(rows, keys, i).pattern
}

/// How long the first `n` rows show the pattern of a rank.
pub open spec fn pattern_amount(rows: Seq<TimelineRow>, keys: u8, n: nat, rank: int) -> int
    decreases n,
{
    if n == 0 {
        0
    } else {
        pattern_amount(rows, keys, (n - 1) as nat, rank) + (if row_pattern(
            rows,
            keys,
            n - 1,
        ).rank() == rank {
            lasting(rows, n - 1)
        } else {
            0
        })
    }
}

/// How long the first `n` rows show each pattern.
pub open spec fn pattern_amounts(rows: Seq<TimelineRow>, keys: u8, n: nat) -> Seq<int> {
    Seq::new(6, |rank: int| pattern_amount(rows, keys, n, rank))
}

/// How long the first `n` rows last.
pub open spec fn lasting_sum(rows: Seq<TimelineRow>, n: nat) -> int
    decreases n,
{
    if n == 0 {
        0
    } else {
        lasting_sum(rows, (n - 1) as nat) + lasting(rows, n - 1)
    }
}

/// The rank of the largest of the first `n` amounts; the last of equal ones.
pub open spec fn best_rank(amounts: Seq<int>, n: nat) -> int
    decreases n,
{
    if n <= 1 {
        0
    } else {
        let best = best_rank(amounts, (n - 1) as nat);
        if amounts[n - 1] >= amounts[best] {
            n - 1
        } else {
            best
        }
    }
}

/// No amount exceeds the one of the best rank, and none behind it equals it.
pub proof fn law_best_rank_is_last_largest(amounts: Seq<int>, n: nat)
    requires
        0 < n <= amounts.len(),
    ensures
        0 <= best_rank(amounts, n) < n,
        forall|i: int| 0 <= i < n ==> #[trigger] amounts[i] <= amounts[best_rank(amounts, n)],
        forall|i: int|
            best_rank(amounts, n) < i < n ==> #[trigger] amounts[i] < amounts[best_rank(
                amounts,
                n,
            )],
    decreases n,
{
    if n > 1 {
        law_best_rank_is_last_largest(amounts, (n - 1) as nat);
    }
}

/// The family of a chart: few long notes, nearly all long notes, or in between
/// with or without rows that mix them.
pub open spec fn family(t: Totals) -> ManiaModeFamily {
    if 20 * t.ln_notes <= 3 * t.notes {
        ManiaModeFamily::Rc
    } else if 10 * t.ln_notes >= 9 * t.notes {
        ManiaModeFamily::Ln
    } else if 10 * t.hybrids >= t.rows {
        ManiaModeFamily::Hb
    } else {
        ManiaModeFamily::Mix
    }
}

/// Shares and rates that say how a chart plays.
#[derive(Clone, Copy, Debug)]
pub struct ManiaStyleVector {
    pub stream: Ratio,
    pub chordstream: Ratio,
    pub jacks: Ratio,
    pub coordination: Ratio,
    pub density: Ratio,
    pub wildcard: Ratio,
    pub chord_rate: Ratio,
    pub large_chord_rate: Ratio,
    pub rotation_rate: Ratio,
    pub anchor_rate: Ratio,
    pub ln_note_ratio: Ratio,
    pub hold_occupancy: Ratio,
    pub hybrid_row_ratio: Ratio,
}

/// Plain facts of a chart.
#[derive(Clone, Copy, Debug)]
pub struct ManiaBaseFeatures {
    pub bpm: Ratio,
    pub length_seconds: Ratio,
    pub active_length_seconds: Ratio,
    pub note_count: i128,
    pub row_count: i128,
    pub avg_nps: Ratio,
    pub peak_nps: i128,
    pub break_density: Ratio,
    pub sv_change_rate: Ratio,
}

/// From the first row to the last, and at least a millisecond.
pub open spec fn duration(rows: Seq<TimelineRow>) -> int {
    larger(rows.last().time - rows[0].time, MS as int)
}

/// The duration without idle time, and at least a millisecond.
pub open spec fn active_time(rows: Seq<TimelineRow>, t: Totals) -> int {
    larger(duration(rows) - t.inactive, MS as int)
}

/// `n` per minute of `time`; times below a minute count as one.
pub open spec fn per_minute(n: int, time: int) -> Ratio {
    if time >= 60 * SECOND {
        Ratio::spec_or_zero(n * (60 * SECOND), time)
    } else {
        Ratio::spec_or_zero(n, 1)
    }
}

/// Beats per minute for a beat length in parts; zero without one.
pub open spec fn bpm_of(beat: Option<i128>) -> Ratio {
    match beat {
        Some(b) => Ratio::spec_or_zero(60 * SECOND, b as int),
        None => Ratio { num: 0, den: 1 },
    }
}

/// The style of a timeline.
pub open spec fn style_of(rows: Seq<TimelineRow>, keys: u8) -> ManiaStyleVector {
    let t = totals(rows, keys, rows.len());
    let amounts = pattern_amounts(rows, keys, rows.len());
    let sum = lasting_sum(rows, rows.len());
    ManiaStyleVector {
        stream: Ratio::spec_or_zero(amounts[0], sum),
        chordstream: Ratio::spec_or_zero(amounts[1], sum),
        jacks: Ratio::spec_or_zero(amounts[2], sum),
        coordination: Ratio::spec_or_zero(amounts[3], sum),
        density: Ratio::spec_or_zero(amounts[4], sum),
        wildcard: Ratio::spec_or_zero(amounts[5], sum),
        chord_rate: Ratio::spec_or_zero(t.chords, t.rows),
        large_chord_rate: Ratio::spec_or_zero(t.large_chords, t.rows),
        rotation_rate: Ratio::spec_or_zero(t.rotations, t.zone_transitions),
        anchor_rate: Ratio::spec_or_zero(t.anchors, t.rows),
        ln_note_ratio: Ratio::spec_or_zero(t.ln_notes, t.notes),
        hold_occupancy: Ratio::spec_or_zero(
            crate::number::least(t.held, duration(rows) * keys),
            duration(rows) * keys,
        ),
        hybrid_row_ratio: Ratio::spec_or_zero(t.hybrids, t.rows),
    }
}

/// The plain facts of a timeline.
pub open spec fn base_of(
    rows: Seq<TimelineRow>,
    keys: u8,
    beat: Option<i128>,
    sv_changes: int,
) -> ManiaBaseFeatures {
    let t = totals(rows, keys, rows.len());
    let active = active_time(rows, t);
    ManiaBaseFeatures {
        bpm: bpm_of(beat),
        length_seconds: Ratio::spec_or_zero(duration(rows), SECOND as int),
        active_length_seconds: Ratio::spec_or_zero(active, SECOND as int),
        note_count: t.notes as i128,
        row_count: t.rows as i128,
        avg_nps: Ratio::spec_or_zero(t.notes * SECOND, active),
        peak_nps: t.peak as i128,
        break_density: per_minute(t.breaks, active),
        sv_change_rate: per_minute(sv_changes, duration(rows)),
    }
}

/// The pattern that lasts longest; the last of equal ones.
pub open spec fn dominant_of(rows: Seq<TimelineRow>, keys: u8) -> ManiaPattern {
    ManiaPattern::at(best_rank(pattern_amounts(rows, keys, rows.len()), 6))
}

proof fn lemma_notes_within(rows: Seq<TimelineRow>, i: int, n: nat, span: int)
    ensures
        notes_within(rows, i, n, span) <= 8 * n,
    decreases n,
{
    if n > 0 {
        lemma_notes_within(rows, i, (n - 1) as nat, span);
    }
}

proof fn lemma_beats(rows: Seq<TimelineRow>, i: int, parts: Seq<u8>, n: nat)
    ensures
        zone_beats(rows, i, parts, n).len() <= n,
        forall|j: int|
            0 <= j < zone_beats(rows, i, parts, n).len() ==> (#[trigger] zone_beats(
                rows,
                i,
                parts,
                n,
            )[j].rotated ==> zone_beats(rows, i, parts, n)[j].gap is Some),
    decreases n,
{
    if n > 0 {
        lemma_beats(rows, i, parts, (n - 1) as nat);
        let before = zone_beats(rows, i, parts, (n - 1) as nat);
        let all = zone_beats(rows, i, parts, n);
        assert forall|j: int| 0 <= j < all.len() implies (#[trigger] all[j].rotated ==> all[j].gap
            is Some) by {
            if j < before.len() {
                assert(all[j] == before[j]);
            }
        }
    }
}

proof fn lemma_rotated(beats: Seq<ZoneBeat>, n: nat)
    requires
        n <= beats.len(),
        forall|j: int| 0 <= j < beats.len() ==> (#[trigger] beats[j].rotated ==> beats[j].gap is Some),
    ensures
        rotated(beats, n) <= returned(beats, n) <= n,
    decreases n,
{
    if n > 0 {
        lemma_rotated(beats, (n - 1) as nat);
        let b = beats[n - 1];
        assert(b.rotated ==> b.gap is Some);
    }
}

/// The time from the first row to the last strike before row `i`.
pub open spec fn struck_span(rows: Seq<TimelineRow>, i: int) -> int {
    match last_head(rows, i) {
        Some(j) => rows[j].time - rows[0].time,
        None => 0,
    }
}

proof fn lemma_last_head(rows: Seq<TimelineRow>, i: int)
    ensures
        last_head(rows, i) matches Some(j) ==> 0 <= j < i,
    decreases i,
{
    if i > 0 {
        lemma_last_head(rows, i - 1);
    }
}

/// No total exceeds what its rows can give: chords are rows, rotations follow
/// another strike, idle time lies between strikes.
pub proof fn law_totals_are_bounded(rows: Seq<TimelineRow>, keys: u8, n: nat)
    requires
        steady(rows),
        n <= rows.len(),
    ensures
        ({
            let t = totals(rows, keys, n);
            &&& 0 <= t.rows <= n
            &&& 0 <= t.notes <= 8 * n
            &&& 0 <= t.ln_notes <= 8 * n
            &&& 0 <= t.chords <= t.rows
            &&& 0 <= t.large_chords <= t.rows
            &&& 0 <= t.anchors <= t.rows
            &&& 0 <= t.hybrids <= t.rows
            &&& 0 <= t.breaks <= t.rows
            &&& 0 <= t.rotations <= t.zone_transitions <= 3 * n
            &&& 0 <= t.inactive <= struck_span(rows, n as int)
            &&& 0 <= t.peak <= 8 * n
            &&& 0 <= t.held
            &&& n > 0 ==> t.held <= 8 * (rows[n - 1].time - rows[0].time)
            &&& n == 0 ==> t.held == 0
        }),
    decreases n,
{
    if n > 0 {
        let m = (n - 1) as nat;
        law_totals_are_bounded(rows, keys, m);
        lemma_last_head(rows, m as int);
        let beats = zone_beats(rows, m as int, zones(keys), zones(keys).len());
        lemma_beats(rows, m as int, zones(keys), zones(keys).len());
        lemma_rotated(beats, beats.len());
        lemma_notes_within(rows, m as int, n, SECOND as int);
        if m > 0 {
            let g = rows[m as int].time - rows[m - 1].time;
            let h = ones(rows[m - 1].active_hold_mask);
            assert(0 <= g * h <= 8 * g) by (nonlinear_arith)
                requires
                    g >= 0,
                    0 <= h <= 8,
            ;
        }
        if let Some(j) = last_head(rows, m as int) {
            assert(rows[j].time < rows[m as int].time);
            if j > 0 {
                assert(rows[0].time < rows[j].time);
            }
        } else {
            if m > 0 {
                assert(rows[0].time < rows[m as int].time);
            }
        }
    }
}

struct Counter {
    notes: i128,
    rows: i128,
    ln_notes: i128,
    chords: i128,
    large_chords: i128,
    anchors: i128,
    hybrids: i128,
    rotations: i128,
    zone_transitions: i128,
    inactive: i128,
    breaks: i128,
    held: i128,
    peak: i128,
}

impl View for Counter {
    type V = Totals;

    closed spec fn view(&self) -> Totals {
        Totals {
            notes: self.notes as int,
            rows: self.rows as int,
            ln_notes: self.ln_notes as int,
            chords: self.chords as int,
            large_chords: self.large_chords as int,
            anchors: self.anchors as int,
            hybrids: self.hybrids as int,
            rotations: self.rotations as int,
            zone_transitions: self.zone_transitions as int,
            inactive: self.inactive as int,
            breaks: self.breaks as int,
            held: self.held as int,
            peak: self.peak as int,
        }
    }
}

fn unit(b: bool) -> (r: i128)
    ensures
        r == one(b),
{
    if b {
        1
    } else {
        0
    }
}

fn count_beats(beats: &[ZoneBeat]) -> (r: (i128, i128))
    ensures
        r.0 == rotated(beats@, beats@.len()),
        r.1 == returned(beats@, beats@.len()),
{
    let mut turned: i128 = 0;
    let mut back: i128 = 0;
    let mut n: usize = 0;
    while n < beats.len()
        invariant
            n <= beats@.len(),
            turned == rotated(beats@, n as nat),
            back == returned(beats@, n as nat),
            0 <= turned <= n,
            0 <= back <= n,
        decreases beats@.len() - n,
    {
        turned = turned + unit(beats[n].rotated);
        back = back + unit(beats[n].gap.is_some());
        n = n + 1;
    }
    (turned, back)
}

fn idle_time(gap: Option<i128>) -> (r: i128)
    ensures
        r == idle(gap),
{
    match gap {
        Some(g) => {
            if g > SECOND {
                g - SECOND
            } else {
                0
            }
        },
        None => 0,
    }
}

impl Counter {
    fn new() -> (r: Counter)
        ensures
            r@ == totals(Seq::empty(), 0, 0),
    {
        Counter {
            notes: 0,
            rows: 0,
            ln_notes: 0,
            chords: 0,
            large_chords: 0,
            anchors: 0,
            hybrids: 0,
            rotations: 0,
            zone_transitions: 0,
            inactive: 0,
            breaks: 0,
            held: 0,
            peak: 0,
        }
    }

    /// Adds row `i`, which asks `facts` of the hands.
    fn add(&mut self, rows: &[TimelineRow], keys: u8, i: usize, facts: &StrainRow)
        requires
            steady(rows@),
            keys <= 8,
            i < rows@.len(),
            facts@ == strain_row(rows@, keys, i as int),
            old(self)@ == totals(rows@, keys, i as nat),
        ensures
            final(self)@ == totals(rows@, keys, (i + 1) as nat),
    {
        proof {
            law_totals_are_bounded(rows@, keys, i as nat);
            law_totals_are_bounded(rows@, keys, (i + 1) as nat);
            lemma_last_head(rows@, i as int);
        }
        if i > 0 {
            let held = count(rows[i - 1].active_hold_mask);
            proof {
                let g = facts.gap as int;
                assert(0 <= g * held <= 8 * g) by (nonlinear_arith)
                    requires
                        g >= 0,
                        0 <= held <= 8,
                ;
            }
            self.held = self.held + facts.gap * (held as i128);
        }
        if let Some(h) = &facts.head {
            assert(h@ == head_facts(rows@, keys, i as int));
            let (turned, back) = count_beats(h.zones.as_slice());
            let lost = idle_time(h.gap);
            proof {
                lemma_beats(rows@, i as int, zones(keys), zones(keys).len());
                lemma_rotated(h.zones@, h.zones@.len());
            }
            self.notes = self.notes + h.count as i128;
            self.rows = self.rows + 1;
            self.ln_notes = self.ln_notes + facts.ln_heads as i128;
            self.chords = self.chords + unit(h.count >= 2);
            self.large_chords = self.large_chords + unit(2 * h.count >= keys);
            self.anchors = self.anchors + unit(h.anchor);
            self.hybrids = self.hybrids + unit(facts.hybrid);
            self.rotations = self.rotations + turned;
            self.zone_transitions = self.zone_transitions + back;
            self.inactive = self.inactive + lost;
            self.breaks = self.breaks + unit(lost > 0);
            if h.count_1s > self.peak {
                self.peak = h.count_1s;
            }
        }
    }
}

fn count_rows(rows: &[TimelineRow], keys: u8, facts: &[StrainRow]) -> (r: Counter)
    requires
        steady(rows@),
        keys <= 8,
        strain_views(facts@) == strain(rows@, keys),
    ensures
        r@ == totals(rows@, keys, rows@.len()),
{
    let mut r = Counter::new();
    let mut i: usize = 0;
    while i < rows.len()
        invariant
            i <= rows@.len(),
            steady(rows@),
            keys <= 8,
            strain_views(facts@) == strain(rows@, keys),
            r@ == totals(rows@, keys, i as nat),
        decreases rows@.len() - i,
    {
        assert(strain_views(facts@).len() == facts@.len());
        assert(strain_views(facts@)[i as int] == facts@[i as int]@);
        r.add(rows, keys, i, &facts[i]);
        i = i + 1;
    }
    r
}

/// The times that rows show each pattern add up to the time that rows last:
/// pattern shares add up to one.
pub proof fn law_pattern_amounts_add_up(rows: Seq<TimelineRow>, keys: u8, n: nat)
    ensures
        ({
            let a = pattern_amounts(rows, keys, n);
            &&& a[0] + a[1] + a[2] + a[3] + a[4] + a[5] == lasting_sum(rows, n)
            &&& forall|rank: int| 0 <= rank < 6 ==> 0 <= #[trigger] a[rank] <= lasting_sum(rows, n)
            &&& MS * n <= lasting_sum(rows, n) <= SECOND * n
        }),
    decreases n,
{
    if n > 0 {
        law_pattern_amounts_add_up(rows, keys, (n - 1) as nat);
        let b = pattern_amounts(rows, keys, (n - 1) as nat);
        let a = pattern_amounts(rows, keys, n);
        let p = row_pattern(rows, keys, n - 1).rank();
        assert(0 <= p < 6);
        assert(b[0] >= 0 && b[1] >= 0 && b[2] >= 0 && b[3] >= 0 && b[4] >= 0 && b[5] >= 0);
        assert forall|rank: int| 0 <= rank < 6 implies 0 <= #[trigger] a[rank] <= lasting_sum(
            rows,
            n,
        ) by {
            assert(0 <= b[rank] <= lasting_sum(rows, (n - 1) as nat));
        }
    }
}

/// How long the rows show each pattern, and how long they last.
fn measure_patterns(rows: &[TimelineRow], keys: u8, facts: &[StrainRow]) -> (r: (Vec<i128>, i128))
    requires
        steady(rows@),
        strain_views(facts@) == strain(rows@, keys),
    ensures
        r.0@.len() == 6,
        forall|k: int|
            0 <= k < 6 ==> #[trigger] r.0@[k] == pattern_amounts(rows@, keys, rows@.len())[k],
        r.1 == lasting_sum(rows@, rows@.len()),
{
    let mut amounts: Vec<i128> = vec![0, 0, 0, 0, 0, 0];
    let mut sum: i128 = 0;
    let mut i: usize = 0;
    while i < rows.len()
        invariant
            i <= rows@.len(),
            steady(rows@),
            strain_views(facts@) == strain(rows@, keys),
            amounts@.len() == 6,
            forall|k: int|
                0 <= k < 6 ==> #[trigger] amounts@[k] == pattern_amounts(rows@, keys, i as nat)[k],
            sum == lasting_sum(rows@, i as nat),
        decreases rows@.len() - i,
    {
        proof {
            assert(strain_views(facts@).len() == facts@.len());
            assert(strain_views(facts@)[i as int] == facts@[i as int]@);
            law_pattern_amounts_add_up(rows@, keys, i as nat);
        }
        let gap: i128 = if i + 1 < rows.len() {
            rows[i + 1].time - rows[i].time
        } else {
            MS
        };
        let amount: i128 = if gap < MS {
            MS
        } else if gap > SECOND {
            SECOND
        } else {
            gap
        };
        assert(amount == lasting(rows@, i as int));
        let k: usize = facts[i].pattern.index();
        let ghost before = amounts@;
        assert(0 <= before[k as int] <= sum);
        amounts.set(k, amounts[k] + amount);
        sum = sum + amount;
        i = i + 1;
    }
    (amounts, sum)
}

fn leading_pattern(amounts: &[i128], Ghost(spec_amounts): Ghost<Seq<int>>) -> (r: ManiaPattern)
    requires
        amounts@.len() == 6,
        spec_amounts.len() == 6,
        forall|k: int| 0 <= k < 6 ==> #[trigger] amounts@[k] == spec_amounts[k],
    ensures
        r == ManiaPattern::at(best_rank(spec_amounts, 6)),
{
    let mut best: usize = 0;
    let mut n: usize = 1;
    while n < 6
        invariant
            1 <= n <= 6,
            best < n,
            best == best_rank(spec_amounts, n as nat),
            amounts@.len() == 6,
            spec_amounts.len() == 6,
            forall|k: int| 0 <= k < 6 ==> #[trigger] amounts@[k] == spec_amounts[k],
        decreases 6 - n,
    {
        if amounts[n] >= amounts[best] {
            best = n;
        }
        n = n + 1;
    }
    ManiaPattern::from_index(best)
}

/// `n` per minute of `time`; times below a minute count as one.
fn minute_rate(n: i128, time: i128) -> (r: Ratio)
    requires
        0 <= n <= u64::MAX,
        time > 0,
    ensures
        r == per_minute(n as int, time as int),
{
    if time >= 60 * SECOND {
        Ratio::or_zero(n * (60 * SECOND), time)
    } else {
        Ratio::or_zero(n, 1)
    }
}

/// What the rows of a timeline say of a chart.
#[derive(Clone, Debug)]
pub struct Summary {
    pub style: ManiaStyleVector,
    pub base: ManiaBaseFeatures,
    pub mode_family: ManiaModeFamily,
    pub dominant_pattern: ManiaPattern,
}

/// What the rows of a timeline say of a chart.
pub open spec fn summary_of(
    rows: Seq<TimelineRow>,
    keys: u8,
    beat: Option<i128>,
    sv_changes: int,
) -> Summary {
    Summary {
        style: style_of(rows, keys),
        base: base_of(rows, keys, beat, sv_changes),
        mode_family: family(totals(rows, keys, rows.len())),
        dominant_pattern: dominant_of(rows, keys),
    }
}

/// Sums a timeline up; `facts` is what its rows ask of the hands, `beat` the
/// length of a beat in parts.
pub fn summarize(
    rows: &[TimelineRow],
    keys: u8,
    facts: &[StrainRow],
    beat: Option<i128>,
    sv_changes: usize,
) -> (r: Summary)
    requires
        steady(rows@),
        rows@.len() > 0,
        keys == 4 || keys == 6 || keys == 7,
        strain_views(facts@) == strain(rows@, keys),
    ensures
        r == summary_of(rows@, keys, beat, sv_changes as int),
{
    let t = count_rows(rows, keys, facts);
    let (amounts, sum) = measure_patterns(rows, keys, facts);
    proof {
        law_totals_are_bounded(rows@, keys, rows@.len());
        law_pattern_amounts_add_up(rows@, keys, rows@.len());
        lemma_last_head(rows@, rows@.len() as int);
    }
    let ghost exact = pattern_amounts(rows@, keys, rows@.len());
    let span: i128 = rows[rows.len() - 1].time - rows[0].time;
    let length: i128 = if span >= MS {
        span
    } else {
        MS
    };
    let active: i128 = if length - t.inactive >= MS {
        length - t.inactive
    } else {
        MS
    };
    let lanes: i128 = length * (keys as i128);
    let held: i128 = if t.held <= lanes {
        t.held
    } else {
        lanes
    };
    let style = ManiaStyleVector {
        stream: Ratio::or_zero(amounts[0], sum),
        chordstream: Ratio::or_zero(amounts[1], sum),
        jacks: Ratio::or_zero(amounts[2], sum),
        coordination: Ratio::or_zero(amounts[3], sum),
        density: Ratio::or_zero(amounts[4], sum),
        wildcard: Ratio::or_zero(amounts[5], sum),
        chord_rate: Ratio::or_zero(t.chords, t.rows),
        large_chord_rate: Ratio::or_zero(t.large_chords, t.rows),
        rotation_rate: Ratio::or_zero(t.rotations, t.zone_transitions),
        anchor_rate: Ratio::or_zero(t.anchors, t.rows),
        ln_note_ratio: Ratio::or_zero(t.ln_notes, t.notes),
        hold_occupancy: Ratio::or_zero(held, lanes),
        hybrid_row_ratio: Ratio::or_zero(t.hybrids, t.rows),
    };
    let bpm = match beat {
        Some(b) => Ratio::or_zero(60 * SECOND, b),
        None => Ratio { num: 0, den: 1 },
    };
    let base = ManiaBaseFeatures {
        bpm,
        length_seconds: Ratio::or_zero(length, SECOND),
        active_length_seconds: Ratio::or_zero(active, SECOND),
        note_count: t.notes,
        row_count: t.rows,
        avg_nps: Ratio::or_zero(t.notes * SECOND, active),
        peak_nps: t.peak,
        break_density: minute_rate(t.breaks, active),
        sv_change_rate: minute_rate(sv_changes as i128, length),
    };
    let mode_family = if 20 * t.ln_notes <= 3 * t.notes {
        ManiaModeFamily::Rc
    } else if 10 * t.ln_notes >= 9 * t.notes {
        ManiaModeFamily::Ln
    } else if 10 * t.hybrids >= t.rows {
        ManiaModeFamily::Hb
    } else {
        ManiaModeFamily::Mix
    };
    let dominant_pattern = leading_pattern(amounts.as_slice(), Ghost(exact));
    Summary { style, base, mode_family, dominant_pattern }
}

} // verus!
