//! Keeping a store of features: what is counted, what is sound, and what is
//! looked up.

use crate::counting::{how_many, lemma_counts_agree};
use crate::downloads::{BatchView, PackEventView};
use crate::mma::MANIA_MMA_ALGORITHM_VERSION;
use crate::reanalysis::{
    first_odd_keys, health_fault, outcomes_like, rates_of, rows_in_band, rows_in_family,
    rows_with_keys, HealthRow, ManiaReanalysisOutcome, PatternOutcome, PatternTally, ScanCounts,
    ScanTally,
};
use crate::record::{first_share, record_fault, text_below, ManiaMmaRecord};
use crate::storage::{
    first_misplaced, normalized_sound, raw_fault, ManiaFeatureRecord, StoredRawRecord,
};
use crate::text::trimmed;
use crate::types::{ManiaBeatmapMetadata, ManiaGameMod};
use crate::binary32::Binary32;
use vstd::prelude::*;

verus! {

/// Whether a part of a list names a clock rate.
pub open spec fn names_rate(part: Seq<char>, m: ManiaGameMod) -> bool {
    trimmed(part).len() > 0 && ManiaGameMod::of_code(trimmed(part)) == Some(m)
}

/// A list selects the clock rates that its parts name; it is refused just where
/// a part that is not empty names none.
pub proof fn law_named_rates_are_selected(parts: Seq<Seq<char>>)
    ensures
        rates_of(parts) is Err <==> exists|i: int|
            0 <= i < parts.len() && trimmed(#[trigger] parts[i]).len() > 0 && ManiaGameMod::of_code(
                trimmed(parts[i]),
            ) is None,
        rates_of(parts) matches Ok(rates) ==> forall|m: ManiaGameMod| #[trigger]
            rates.contains(m) <==> exists|i: int|
                0 <= i < parts.len() && names_rate(#[trigger] parts[i], m),
        rates_of(parts) matches Err(code) ==> code.len() > 0 && ManiaGameMod::of_code(code) is None,
    decreases parts.len(),
{
    if parts.len() > 0 {
        let front = parts.drop_last();
        let n = front.len() as int;
        law_named_rates_are_selected(front);
        if rates_of(front) is Err {
            let i = choose|i: int|
                0 <= i < front.len() && trimmed(#[trigger] front[i]).len() > 0
                    && ManiaGameMod::of_code(trimmed(front[i])) is None;
            assert(parts[i] == front[i]);
        } else {
            let before = rates_of(front)->Ok_0;
            if rates_of(parts) is Err {
                assert(parts[n] == parts.last());
            } else {
                assert forall|i: int| 0 <= i < parts.len() implies !(trimmed(
                    #[trigger] parts[i],
                ).len() > 0 && ManiaGameMod::of_code(trimmed(parts[i])) is None) by {
                    if i < n {
                        assert(parts[i] == front[i]);
                    }
                }
                let rates = rates_of(parts)->Ok_0;
                assert forall|m: ManiaGameMod| #[trigger] rates.contains(m) <==> exists|i: int|
                    0 <= i < parts.len() && names_rate(#[trigger] parts[i], m) by {
                    if before.contains(m) {
                        let k = choose|k: int| 0 <= k < before.len() && before[k] == m;
                        assert(rates[k] == m);
                        let i = choose|i: int|
                            0 <= i < front.len() && names_rate(#[trigger] front[i], m);
                        assert(parts[i] == front[i]);
                    }
                    if rates.contains(m) && !before.contains(m) {
                        let k = choose|k: int| 0 <= k < rates.len() && rates[k] == m;
                        assert(k >= before.len() || before[k] == m);
                        assert(names_rate(parts[n], m));
                    }
                    if exists|i: int| 0 <= i < parts.len() && names_rate(#[trigger] parts[i], m) {
                        let i = choose|i: int|
                            0 <= i < parts.len() && names_rate(#[trigger] parts[i], m);
                        if i < n {
                            assert(front[i] == parts[i]);
                            assert(before.contains(m));
                        } else if !before.contains(m) {
                            assert(rates[before.len() as int] == m);
                        }
                    }
                }
            }
        }
    }
}

/// Outcomes are counted by sort.
pub proof fn law_outcomes_are_counted(v: Seq<ManiaReanalysisOutcome>, sort: ManiaReanalysisOutcome)
    ensures
        outcomes_like(v, sort) == how_many(v.len(), |i: int| v[i] == sort),
    decreases v.len(),
{
    if v.len() > 0 {
        let front = v.drop_last();
        law_outcomes_are_counted(front, sort);
        lemma_counts_agree(front.len(), |i: int| v[i] == sort, |i: int| front[i] == sort);
    }
}

/// One more file counts once: as inserted where it was stored, as skipped where
/// it was analyzed or stored before, as unsupported or failed where it was.
pub proof fn law_files_count_once(t: ScanTally, outcome: ManiaReanalysisOutcome)
    requires
        t.files() < usize::MAX,
    ensures
        ({
            let u = t.with(outcome);
            &&& u.files() == t.files() + 1
            &&& u.inserted > t.inserted <==> outcome == ManiaReanalysisOutcome::Stored
            &&& u.skipped > t.skipped <==> outcome == ManiaReanalysisOutcome::Unchanged || outcome
                == ManiaReanalysisOutcome::Skipped
            &&& u.unsupported > t.unsupported <==> outcome == ManiaReanalysisOutcome::Unsupported
            &&& u.failed > t.failed <==> outcome == ManiaReanalysisOutcome::Failed
            &&& u.inserted >= t.inserted && u.skipped >= t.skipped && u.unsupported
                >= t.unsupported && u.failed >= t.failed
        }),
{
}

/// One more record counts once, by what became of it.
pub proof fn law_pattern_records_count_once(t: PatternTally, outcome: PatternOutcome)
    requires
        t.total() < usize::MAX,
    ensures
        ({
            let u = t.with(outcome);
            &&& u.total() == t.total() + 1
            &&& u.inserted > t.inserted <==> outcome == PatternOutcome::Inserted
            &&& u.skipped > t.skipped <==> outcome == PatternOutcome::Skipped
            &&& u.missing_raw > t.missing_raw <==> outcome == PatternOutcome::MissingRaw
            &&& u.failed > t.failed <==> outcome == PatternOutcome::Failed
            &&& u.inserted >= t.inserted && u.skipped >= t.skipped && u.missing_raw
                >= t.missing_raw && u.failed >= t.failed
        }),
{
}

/// Rows are counted by their keys, their band and their family.
pub proof fn law_health_rows_are_counted(v: Seq<HealthRow>, keys: u8, band: int, family: int)
    ensures
        rows_with_keys(v, keys) == how_many(v.len(), |i: int| v[i].key_count == keys),
        rows_in_band(v, band) == how_many(v.len(), |i: int| v[i].difficulty_band == band),
        rows_in_family(v, family) == how_many(
            v.len(),
            |i: int| v[i].mode_family.number() == family,
        ),
    decreases v.len(),
{
    if v.len() > 0 {
        let front = v.drop_last();
        law_health_rows_are_counted(front, keys, band, family);
        lemma_counts_agree(
            front.len(),
            |i: int| v[i].key_count == keys,
            |i: int| front[i].key_count == keys,
        );
        lemma_counts_agree(
            front.len(),
            |i: int| v[i].difficulty_band == band,
            |i: int| front[i].difficulty_band == band,
        );
        lemma_counts_agree(
            front.len(),
            |i: int| v[i].mode_family.number() == family,
            |i: int| front[i].mode_family.number() == family,
        );
    }
}

proof fn lemma_odd_keys(v: Seq<HealthRow>)
    ensures
        first_odd_keys(v) is None <==> forall|i: int|
            0 <= i < v.len() ==> (#[trigger] v[i]).key_count == 4 || v[i].key_count == 6
                || v[i].key_count == 7,
    decreases v.len(),
{
    if v.len() > 0 {
        let rest = v.skip(1);
        lemma_odd_keys(rest);
        let k = v[0].key_count;
        if k == 4 || k == 6 || k == 7 {
            if first_odd_keys(v) is None {
                assert forall|i: int| 0 <= i < v.len() implies (#[trigger] v[i]).key_count == 4
                    || v[i].key_count == 6 || v[i].key_count == 7 by {
                    if i > 0 {
                        assert(rest[i - 1] == v[i]);
                    }
                }
            } else {
                let i = choose|i: int|
                    0 <= i < rest.len() && !((#[trigger] rest[i]).key_count == 4
                        || rest[i].key_count == 6 || rest[i].key_count == 7);
                assert(v[i + 1] == rest[i]);
            }
        }
    }
}

/// A store is healthy just where it was normalized under its version, holds a
/// row for each eligible file, had no failures, holds charts of four, six and
/// seven keys only, and has no more than three pattern records to a row.
pub proof fn law_what_is_healthy(
    version: u32,
    normalizer: u32,
    rows: Seq<HealthRow>,
    counts: ScanCounts,
    records: Seq<usize>,
)
    requires
        records.len() == 3,
    ensures
        health_fault(version, normalizer, rows, counts, records) is None <==> {
            &&& normalizer == version
            &&& counts.eligible == rows.len()
            &&& counts.failed == 0
            &&& forall|i: int|
                0 <= i < rows.len() ==> (#[trigger] rows[i]).key_count == 4 || rows[i].key_count
                    == 6 || rows[i].key_count == 7
            &&& records[0] + records[1] + records[2] <= 3 * rows.len()
        },
{
    lemma_odd_keys(rows);
}

/// Whether a number is finite and lies between zero and one.
pub open spec fn is_unit(x: Binary32) -> bool {
    x.finite() && 0 <= x.scaled() <= vstd::arithmetic::power2::pow2(149)
}

/// Features can be stored just where they agree with their metadata, are of this
/// version, have a supported number of keys, and their numbers are in range.
pub proof fn law_what_can_be_stored(m: ManiaBeatmapMetadata, r: StoredRawRecord)
    ensures
        raw_fault(m, r) is None <==> {
            &&& m.beatmap_id == r.beatmap_id && m.beatmapset_id == r.beatmapset_id
            &&& m.key_count == r.key_count && m.mode_family == r.mode_family
            &&& m.dominant_pattern == r.dominant_pattern
            &&& r.analyzer_version == crate::analyzer::MANIA_ANALYZER_VERSION
            &&& r.key_count == 4 || r.key_count == 6 || r.key_count == 7
            &&& forall|i: int|
                0 <= i < r.difficulty@.len() ==> (#[trigger] r.difficulty@[i]).finite()
                    && r.difficulty@[i].scaled() >= 0
            &&& forall|i: int|
                0 <= i < r.base@.len() ==> (#[trigger] r.base@[i]).finite() && r.base@[i].scaled()
                    >= 0
            &&& forall|i: int| 0 <= i < r.style@.len() ==> is_unit(#[trigger] r.style@[i])
        },
{
    if raw_fault(m, r) is None {
        assert forall|i: int| 0 <= i < r.difficulty@.len() implies (#[trigger] r.difficulty@[i]).finite()
            && r.difficulty@[i].scaled() >= 0 by {
            assert(r.difficulty@[i].non_negative());
        }
        assert forall|i: int| 0 <= i < r.base@.len() implies (#[trigger] r.base@[i]).finite()
            && r.base@[i].scaled() >= 0 by {
            assert(r.base@[i].non_negative());
        }
        assert forall|i: int| 0 <= i < r.style@.len() implies is_unit(#[trigger] r.style@[i]) by {
            assert(r.style@[i].in_unit());
        }
    }
}

/// A normalized record is sound just where it is of both versions, has a
/// supported number of keys, one of ten bands, and numbers between zero and one.
pub proof fn law_what_is_normalized(r: ManiaFeatureRecord, version: u32)
    ensures
        normalized_sound(r, version) <==> {
            &&& r.analyzer_version == crate::analyzer::MANIA_ANALYZER_VERSION
            &&& r.normalization_version == version
            &&& r.key_count == 4 || r.key_count == 6 || r.key_count == 7
            &&& r.difficulty_band < 10
            &&& is_unit(r.difficulty_percentile)
            &&& forall|i: int|
                0 <= i < r.searchable@.len() ==> is_unit(#[trigger] r.searchable@[i])
        },
{
    if normalized_sound(r, version) {
        assert forall|i: int| 0 <= i < r.searchable@.len() implies is_unit(
            #[trigger] r.searchable@[i],
        ) by {
            assert(r.searchable@[i].in_unit());
        }
    }
}

/// The first misplaced record is the first that differs from the one that was
/// looked for; there is none where all agree.
pub proof fn law_first_misplaced_is_first(expected: Seq<u64>, found: Seq<u64>, n: int)
    requires
        0 <= n,
    ensures
        match first_misplaced(expected, found, n) {
            Some(i) => {
                &&& n <= i < expected.len() && i < found.len()
                &&& expected[i] != found[i]
                &&& forall|k: int| n <= k < i ==> #[trigger] expected[k] == found[k]
            },
            None => forall|k: int|
                n <= k < expected.len() && k < found.len() ==> #[trigger] expected[k] == found[k],
        },
    decreases expected.len() - n,
{
    if n < expected.len() && n < found.len() && expected[n] == found[n] {
        law_first_misplaced_is_first(expected, found, n + 1);
    }
}

/// The share of a label is that of its first occurrence; none where it does not
/// occur.
pub proof fn law_first_share_is_first(v: Seq<(String, Binary32)>, label: Seq<char>)
    ensures
        match first_share(v, label) {
            Some(x) => exists|i: int|
                0 <= i < v.len() && (#[trigger] v[i]).0@ == label && v[i].1 == x && forall|k: int|
                    0 <= k < i ==> (#[trigger] v[k]).0@ != label,
            None => forall|i: int| 0 <= i < v.len() ==> (#[trigger] v[i]).0@ != label,
        },
    decreases v.len(),
{
    if v.len() > 0 && v[0].0@ != label {
        let rest = v.skip(1);
        law_first_share_is_first(rest, label);
        match first_share(rest, label) {
            Some(x) => {
                let i = choose|i: int|
                    0 <= i < rest.len() && (#[trigger] rest[i]).0@ == label && rest[i].1 == x
                        && forall|k: int| 0 <= k < i ==> (#[trigger] rest[k]).0@ != label;
                assert(v[i + 1] == rest[i]);
                assert forall|k: int| 0 <= k < i + 1 implies (#[trigger] v[k]).0@ != label by {
                    if k > 0 {
                        assert(rest[k - 1] == v[k]);
                    }
                }
            },
            None => {
                assert forall|i: int| 0 <= i < v.len() implies (#[trigger] v[i]).0@ != label by {
                    if i > 0 {
                        assert(rest[i - 1] == v[i]);
                    }
                }
            },
        }
    }
}

/// A text comes before another just where it is a beginning of it, or has the
/// smaller character where they first differ.
pub proof fn law_texts_are_ordered(a: Seq<char>, b: Seq<char>)
    ensures
        text_below(a, b) <==> exists|k: int|
            #![trigger a.take(k)]
            0 <= k <= a.len() && k < b.len() && a.take(k) == b.take(k) && (k == a.len() || a[k]
                < b[k]),
    decreases a.len(),
{
    if b.len() > 0 && a.len() > 0 && a[0] == b[0] {
        let (x, y) = (a.skip(1), b.skip(1));
        law_texts_are_ordered(x, y);
        if text_below(a, b) {
            let k = choose|k: int|
                #![trigger x.take(k)]
                0 <= k <= x.len() && k < y.len() && x.take(k) == y.take(k) && (k == x.len() || x[k]
                    < y[k]);
            assert(a.take(k + 1) =~= seq![a[0]] + x.take(k));
            assert(b.take(k + 1) =~= seq![b[0]] + y.take(k));
        }
        if exists|k: int|
            #![trigger a.take(k)]
            0 <= k <= a.len() && k < b.len() && a.take(k) == b.take(k) && (k == a.len() || a[k]
                < b[k]) {
            let k = choose|k: int|
                #![trigger a.take(k)]
                0 <= k <= a.len() && k < b.len() && a.take(k) == b.take(k) && (k == a.len() || a[k]
                    < b[k]);
            assert(k > 0);
            assert(x.take(k - 1) =~= a.take(k).skip(1));
            assert(y.take(k - 1) =~= b.take(k).skip(1));
        }
    } else if b.len() > 0 {
        assert(a.take(0) =~= b.take(0));
        if exists|k: int|
            #![trigger a.take(k)]
            0 <= k <= a.len() && k < b.len() && a.take(k) == b.take(k) && (k == a.len() || a[k]
                < b[k]) {
            let k = choose|k: int|
                #![trigger a.take(k)]
                0 <= k <= a.len() && k < b.len() && a.take(k) == b.take(k) && (k == a.len() || a[k]
                    < b[k]);
            if k > 0 {
                assert(a.take(k)[0] == a[0] && b.take(k)[0] == b[0]);
            }
        }
    }
}

/// A pack that starts or goes on is active, and its bytes are those last told;
/// one that finishes is active no longer, and its bytes count as completed. No
/// other pack is touched.
pub proof fn law_events_touch_one_pack(
    batch: BatchView,
    id: Seq<char>,
    bytes: u64,
    other: Seq<char>,
)
    requires
        other != id,
    ensures
        ({
            let started = batch.after(PackEventView::Started(id));
            let going = batch.after(PackEventView::Progress(id, bytes));
            let done = batch.after(PackEventView::Finished(id));
            &&& started.active.contains(id) && going.active.contains(id) && !done.active.contains(id)
            &&& started.bytes_of(id) == batch.bytes_of(id)
            &&& going.bytes_of(id) == bytes
            &&& done.bytes_of(id) == 0
            &&& started.completed == batch.completed && going.completed == batch.completed
            &&& done.completed == batch.completed + 1
            &&& started.completed_bytes == batch.completed_bytes
            &&& going.completed_bytes == batch.completed_bytes
            &&& done.completed_bytes == batch.completed_bytes + batch.bytes_of(id)
            &&& started.active.contains(other) == batch.active.contains(other)
            &&& going.active.contains(other) == batch.active.contains(other)
            &&& done.active.contains(other) == batch.active.contains(other)
            &&& started.bytes_of(other) == batch.bytes_of(other)
            &&& going.bytes_of(other) == batch.bytes_of(other)
            &&& done.bytes_of(other) == batch.bytes_of(other)
            &&& started.total == batch.total && going.total == batch.total && done.total
                == batch.total
        }),
{
}

/// A record is sound just where it is of this version, of a supported number of
/// keys and a known tag, has a category, and all of its numbers are in range.
pub proof fn law_what_record_is_sound(r: ManiaMmaRecord)
    ensures
        record_fault(r) is None <==> {
            &&& r.algorithm_version == MANIA_MMA_ALGORITHM_VERSION
            &&& r.key_count == 4 || r.key_count == 6 || r.key_count == 7
            &&& r.mode_tag@ == "RC"@ || r.mode_tag@ == "HB"@ || r.mode_tag@ == "Mix"@ || r.mode_tag@
                == "LN"@
            &&& r.category@.len() > 0
            &&& forall|i: int| 0 <= i < r.coverage@.len() ==> is_unit(#[trigger] r.coverage@[i])
            &&& is_unit(r.ln_note_ratio) && is_unit(r.hb_row_ratio)
            &&& r.sv_amount.finite() && r.sv_amount.scaled() >= 0
            &&& r.duration_seconds.finite() && r.duration_seconds.scaled() > 0
            &&& forall|i: int|
                0 <= i < r.intensity@.len() ==> (#[trigger] r.intensity@[i]).finite()
            &&& forall|i: int| 0 <= i < r.temporal@.len() ==> (#[trigger] r.temporal@[i]).finite()
            &&& forall|i: int|
                0 <= i < r.variation@.len() ==> (#[trigger] r.variation@[i]).finite()
            &&& r.avg_nps.finite() && r.peak_nps.finite() && r.chord_rate.finite()
            &&& r.large_chord_rate.finite() && r.unclassified.finite()
            &&& forall|i: int| 0 <= i < r.subtypes@.len() ==> is_unit((#[trigger] r.subtypes@[i]).1)
            &&& forall|b: int, i: int|
                0 <= b < r.bars@.len() && 0 <= i < r.bars@[b].specific_types@.len() ==> is_unit(
                    (#[trigger] r.bars@[b].specific_types@[i]).1,
                )
            &&& forall|i: int|
                0 <= i < r.clusters@.len() ==> crate::record::cluster_sound(
                    #[trigger] r.clusters@[i],
                )
        },
{
    if record_fault(r) is None {
        assert forall|i: int| 0 <= i < r.coverage@.len() implies is_unit(
            #[trigger] r.coverage@[i],
        ) by {
            assert(r.coverage@[i].in_unit());
        }
        assert forall|i: int| 0 <= i < r.subtypes@.len() implies is_unit(
            (#[trigger] r.subtypes@[i]).1,
        ) by {
            assert(r.subtypes@[i].1.in_unit());
        }
        assert forall|b: int, i: int|
            0 <= b < r.bars@.len() && 0 <= i < r.bars@[b].specific_types@.len() implies is_unit(
            (#[trigger] r.bars@[b].specific_types@[i]).1,
        ) by {
            assert(crate::record::shares_all(r.bars@[b].specific_types@));
            assert(r.bars@[b].specific_types@[i].1.in_unit());
        }
    }
    if crate::record::shares_all(r.subtypes@) && !crate::record::bars_sound(r.bars@) {
        let b = choose|b: int|
            0 <= b < r.bars@.len() && !crate::record::shares_all(
                (#[trigger] r.bars@[b]).specific_types@,
            );
        let i = choose|i: int|
            0 <= i < r.bars@[b].specific_types@.len() && !(
            #[trigger] r.bars@[b].specific_types@[i]).1.in_unit();
        assert(!is_unit(r.bars@[b].specific_types@[i].1));
    }
    if !crate::record::shares_all(r.subtypes@) {
        let i = choose|i: int| 0 <= i < r.subtypes@.len() && !(#[trigger] r.subtypes@[i]).1.in_unit();
        assert(!is_unit(r.subtypes@[i].1));
    }
    if !crate::record::units_all(r.coverage@) {
        let i = choose|i: int| 0 <= i < r.coverage@.len() && !(#[trigger] r.coverage@[i]).in_unit();
        assert(!is_unit(r.coverage@[i]));
    }
}

} // verus!
