//! The decisions of a run over all beatmap files, and of the health check.

use crate::analyzer::analyzed;
use crate::beatmap::ManiaAnalyzeError;
use crate::codec::{
    digest, hex_string, hex_text, law_hex_text_is_one_to_one, lossy_text, sha256,
};
use crate::number::{parse_unsigned, unsigned_up_to};
use crate::storage::{checksum_in, current_matches, is_current};
use crate::text::{same, split, split_on, string_of, texts, to_chars, trim, trimmed};
use crate::types::{ManiaGameMod, ManiaModeFamily};
use vstd::prelude::*;

verus! {

/// The clock rates of a list, each once, in the order in which they first
/// occur; the part that names none where there is one. Empty parts are passed
/// over.
pub open spec fn rates_of(parts: Seq<Seq<char>>) -> Result<Seq<ManiaGameMod>, Seq<char>>
    decreases parts.len(),
{
    if parts.len() == 0 {
        Ok(Seq::empty())
    } else {
        match rates_of(parts.drop_last()) {
            Err(x) => Err(x),
            Ok(before) => {
                let code = trimmed(parts.last());
                if code.len() == 0 {
                    Ok(before)
                } else {
                    match ManiaGameMod::of_code(code) {
                        None => Err(code),
                        Some(m) => if before.contains(m) {
                            Ok(before)
                        } else {
                            Ok(before.push(m))
                        },
                    }
                }
            },
        }
    }
}

/// Why a list of clock rates is refused.
#[derive(Clone, Debug)]
pub enum RatesError {
    /// A part of the list names no clock rate.
    Unsupported(String),
    /// The list names none.
    Nothing,
}

fn has_rate(rates: &[ManiaGameMod], m: ManiaGameMod) -> (r: bool)
    ensures
        r == rates@.contains(m),
{
    let mut i: usize = 0;
    while i < rates.len()
        invariant
            i <= rates@.len(),
            forall|j: int| 0 <= j < i ==> rates@[j] != m,
        decreases rates@.len() - i,
    {
        if rates[i] == m {
            assert(rates@[i as int] == m);
            return true;
        }
        i = i + 1;
    }
    false
}

proof fn lemma_rates_prefix(parts: Seq<Seq<char>>, n: int)
    requires
        0 <= n <= parts.len(),
        rates_of(parts.take(n)) is Err,
    ensures
        rates_of(parts) == rates_of(parts.take(n)),
    decreases parts.len() - n,
{
    if n < parts.len() {
        assert(parts.take(n + 1).drop_last() =~= parts.take(n));
        lemma_rates_prefix(parts, n + 1);
    } else {
        assert(parts.take(n) =~= parts);
    }
}

/// Reads a list of clock rates, separated by commas.
pub fn parse_rates(mods: &str) -> (r: Result<Vec<ManiaGameMod>, RatesError>)
    ensures
        match r {
            Ok(rates) => rates_of(split(mods@, ',')) == Ok::<Seq<ManiaGameMod>, Seq<char>>(rates@)
                && rates@.len() > 0,
            Err(RatesError::Unsupported(code)) => rates_of(split(mods@, ',')) == Err::<
                Seq<ManiaGameMod>,
                Seq<char>,
            >(code@),
            Err(RatesError::Nothing) => rates_of(split(mods@, ',')) == Ok::<
                Seq<ManiaGameMod>,
                Seq<char>,
            >(Seq::empty()),
        },
{
    let chars = to_chars(mods);
    let parts = split_on(chars.as_slice(), ',');
    let ghost all = split(mods@, ',');
    let mut rates: Vec<ManiaGameMod> = Vec::new();
    let mut i: usize = 0;
    assert(all.take(0) =~= Seq::<Seq<char>>::empty());
    while i < parts.len()
        invariant
            i <= parts@.len(),
            all == texts(parts@),
            all == split(mods@, ','),
            rates_of(all.take(i as int)) == Ok::<Seq<ManiaGameMod>, Seq<char>>(rates@),
        decreases parts@.len() - i,
    {
        let code = trim(parts[i]);
        proof {
            assert(all.take(i + 1).drop_last() =~= all.take(i as int));
            assert(all.take(i + 1).last() == parts@[i as int]@);
        }
        if code.len() > 0 {
            match ManiaGameMod::from_chars(code) {
                None => {
                    proof {
                        lemma_rates_prefix(all, i + 1);
                    }
                    return Err(RatesError::Unsupported(string_of(code)));
                },
                Some(m) => {
                    if !has_rate(rates.as_slice(), m) {
                        rates.push(m);
                    }
                },
            }
        }
        i = i + 1;
    }
    assert(all.take(i as int) =~= all);
    if rates.len() == 0 {
        assert(rates@ =~= Seq::empty());
        return Err(RatesError::Nothing);
    }
    Ok(rates)
}

proof fn lemma_rates_distinct(parts: Seq<Seq<char>>)
    ensures
        rates_of(parts) matches Ok(rates) ==> rates.no_duplicates() && rates.len() <= 3,
    decreases parts.len(),
{
    if parts.len() > 0 {
        lemma_rates_distinct(parts.drop_last());
        if let Ok(rates) = rates_of(parts) {
            let before = rates_of(parts.drop_last())->Ok_0;
            assert(rates.no_duplicates()) by {
                if rates.len() > before.len() {
                    assert forall|i: int, j: int|
                        0 <= i < rates.len() && 0 <= j < rates.len() && i != j implies rates[i]
                        != rates[j] by {
                        if i < before.len() && j < before.len() {
                            assert(rates[i] == before[i]);
                            assert(rates[j] == before[j]);
                        } else if i < before.len() {
                            assert(before.contains(before[i]));
                        } else {
                            assert(before.contains(before[j]));
                        }
                    }
                }
            }
            if rates.len() > 3 {
                let (a, b, c, d) = (rates[0], rates[1], rates[2], rates[3]);
                assert(a != b && a != c && a != d && b != c && b != d && c != d);
                assert(false);
            }
        }
    }
}

/// No clock rate is selected twice.
pub proof fn law_rates_are_distinct(mods: Seq<char>)
    ensures
        rates_of(split(mods, ',')) matches Ok(rates) ==> rates.no_duplicates() && rates.len() <= 3,
{
    lemma_rates_distinct(split(mods, ','));
}

/// The most workers that are started.
pub const MOST_WORKERS: usize = 32;

/// How many workers to start: as many as asked for, or as the machine has
/// room for, but at least one and at most [`MOST_WORKERS`].
pub fn worker_count(requested: Option<usize>, available: usize) -> (r: usize)
    ensures
        ({
            let n = match requested {
                Some(n) => n,
                None => available,
            };
            r == if n < 1 {
                1usize
            } else if n > MOST_WORKERS {
                MOST_WORKERS
            } else {
                n
            }
        }),
{
    let n: usize = match requested {
        Some(n) => n,
        None => available,
    };
    if n < 1 {
        1
    } else if n > MOST_WORKERS {
        MOST_WORKERS
    } else {
        n
    }
}

/// The beatmap that a file name stands for, where it is a number.
pub fn source_id(stem: &str) -> (r: Option<u64>)
    ensures
        r == unsigned_up_to(stem@, u64::MAX),
{
    let chars = to_chars(stem);
    parse_unsigned(chars.as_slice(), u64::MAX)
}

/// The checksum of bytes: their SHA-256 digest, in hexadecimal.
pub open spec fn checksum_of(bytes: Seq<u8>) -> Seq<char> {
    hex_text(sha256(bytes))
}

/// Whether bytes have a checksum.
pub fn source_matches(bytes: &[u8], checksum: &str) -> (r: bool)
    ensures
        r == (checksum_of(bytes@) == checksum@),
{
    let sum = digest(bytes);
    let text = hex_string(sum.as_slice());
    let a = to_chars(text.as_str());
    let b = to_chars(checksum);
    same(a.as_slice(), b.as_slice())
}

/// Whether a file need not be analyzed again: whether the store has an
/// analysis under this version for a file with its bytes.
pub fn already_analyzed(bytes: &[u8], stored: Option<&str>) -> (r: bool)
    ensures
        r == is_current(checksum_in(stored), checksum_of(bytes@)),
{
    let sum = digest(bytes);
    let text = hex_string(sum.as_slice());
    current_matches(stored, text.as_str())
}

/// What became of a file.
#[derive(Clone, Copy, Debug, PartialEq, Eq, Structural)]
pub enum ManiaReanalysisOutcome {
    /// It was analyzed, and its features were stored.
    Stored,
    /// It was analyzed, and its features were stored already.
    Unchanged,
    /// It was analyzed before.
    Skipped,
    /// It has another number of keys.
    Unsupported,
    /// It could not be analyzed.
    Failed,
}

/// What an error of the analysis makes of a file.
pub fn outcome_of_error(error: &ManiaAnalyzeError) -> (r: ManiaReanalysisOutcome)
    ensures
        r == match *error {
            ManiaAnalyzeError::UnsupportedKeyCount(_) => ManiaReanalysisOutcome::Unsupported,
            _ => ManiaReanalysisOutcome::Failed,
        },
{
    match error {
        ManiaAnalyzeError::UnsupportedKeyCount(_) => ManiaReanalysisOutcome::Unsupported,
        _ => ManiaReanalysisOutcome::Failed,
    }
}

/// What became of the files of a run so far.
#[derive(Clone, Copy, Debug, PartialEq, Eq, Structural)]
pub struct ScanTally {
    pub inserted: usize,
    pub skipped: usize,
    pub unsupported: usize,
    pub failed: usize,
}

impl ScanTally {
    /// How many files there were.
    pub open spec fn files(self) -> int {
        self.inserted + self.skipped + self.unsupported + self.failed
    }

    /// The tally with one more file.
    pub open spec fn with(self, outcome: ManiaReanalysisOutcome) -> ScanTally {
        match outcome {
            ManiaReanalysisOutcome::Stored => ScanTally {
                inserted: (self.inserted + 1) as usize,
                ..self
            },
            ManiaReanalysisOutcome::Unchanged | ManiaReanalysisOutcome::Skipped => ScanTally {
                skipped: (self.skipped + 1) as usize,
                ..self
            },
            ManiaReanalysisOutcome::Unsupported => ScanTally {
                unsupported: (self.unsupported + 1) as usize,
                ..self
            },
            ManiaReanalysisOutcome::Failed => ScanTally {
                failed: (self.failed + 1) as usize,
                ..self
            },
        }
    }

    /// A tally of nothing.
    pub fn new() -> (r: ScanTally)
        ensures
            r == (ScanTally { inserted: 0, skipped: 0, unsupported: 0, failed: 0 }),
            r.files() == 0,
    {
        ScanTally { inserted: 0, skipped: 0, unsupported: 0, failed: 0 }
    }

    /// Counts one more file.
    pub fn count(&mut self, outcome: ManiaReanalysisOutcome)
        requires
            old(self).files() < usize::MAX,
        ensures
            *final(self) == old(self).with(outcome),
            final(self).files() == old(self).files() + 1,
    {
        match outcome {
            ManiaReanalysisOutcome::Stored => {
                self.inserted = self.inserted + 1;
            },
            ManiaReanalysisOutcome::Unchanged | ManiaReanalysisOutcome::Skipped => {
                self.skipped = self.skipped + 1;
            },
            ManiaReanalysisOutcome::Unsupported => {
                self.unsupported = self.unsupported + 1;
            },
            ManiaReanalysisOutcome::Failed => {
                self.failed = self.failed + 1;
            },
        }
    }

    /// How many files have features in the store.
    pub fn eligible(&self) -> (r: usize)
        requires
            self.files() <= usize::MAX,
        ensures
            r == self.inserted + self.skipped,
    {
        self.inserted + self.skipped
    }
}

/// How many of the outcomes are of a sort.
pub open spec fn outcomes_like(v: Seq<ManiaReanalysisOutcome>, sort: ManiaReanalysisOutcome) -> nat
    decreases v.len(),
{
    if v.len() == 0 {
        0
    } else {
        outcomes_like(v.drop_last(), sort) + (if v.last() == sort {
            1nat
        } else {
            0nat
        })
    }
}

/// The tally of all outcomes.
pub fn tally_outcomes(v: &[ManiaReanalysisOutcome]) -> (r: ScanTally)
    ensures
        r.inserted == outcomes_like(v@, ManiaReanalysisOutcome::Stored),
        r.skipped == outcomes_like(v@, ManiaReanalysisOutcome::Unchanged) + outcomes_like(
            v@,
            ManiaReanalysisOutcome::Skipped,
        ),
        r.unsupported == outcomes_like(v@, ManiaReanalysisOutcome::Unsupported),
        r.failed == outcomes_like(v@, ManiaReanalysisOutcome::Failed),
        r.files() == v@.len(),
{
    let mut t = ScanTally::new();
    let mut i: usize = 0;
    while i < v.len()
        invariant
            i <= v@.len(),
            t.files() == i,
            t.inserted == outcomes_like(v@.take(i as int), ManiaReanalysisOutcome::Stored),
            t.skipped == outcomes_like(v@.take(i as int), ManiaReanalysisOutcome::Unchanged)
                + outcomes_like(v@.take(i as int), ManiaReanalysisOutcome::Skipped),
            t.unsupported == outcomes_like(
                v@.take(i as int),
                ManiaReanalysisOutcome::Unsupported,
            ),
            t.failed == outcomes_like(v@.take(i as int), ManiaReanalysisOutcome::Failed),
        decreases v@.len() - i,
    {
        assert(v@.take(i + 1).drop_last() =~= v@.take(i as int));
        assert(v@.take(i + 1).last() == v@[i as int]);
        t.count(v[i]);
        i = i + 1;
    }
    assert(v@.take(i as int) =~= v@);
    t
}

/// Whether to tell of progress after so many of all files: every thousand, and
/// at the end.
pub fn progress_due(done: usize, total: usize) -> (r: bool)
    ensures
        r == (done == total || done as int % 1000 == 0),
{
    done == total || done % 1000 == 0
}

/// What a run over pattern records does with a beatmap.
#[derive(Clone, Copy, Debug, PartialEq, Eq, Structural)]
pub enum SourcePlan {
    /// Its features were not analyzed under this version yet.
    Missing,
    /// The file is not the one that was analyzed.
    Changed,
    /// Go through the clock rates.
    Analyze,
}

/// A beatmap without features is left out, one whose file changed is refused,
/// and another is analyzed.
pub open spec fn source_plan(stored: Option<Seq<char>>, bytes: Seq<u8>) -> SourcePlan {
    match stored {
        None => SourcePlan::Missing,
        Some(_) => if is_current(stored, checksum_of(bytes)) {
            SourcePlan::Analyze
        } else {
            SourcePlan::Changed
        },
    }
}

/// What to do with a beatmap, given the checksum that the store has for its
/// features under this version, and the bytes of its file.
pub fn plan_source(stored: Option<&str>, bytes: &[u8]) -> (r: SourcePlan)
    ensures
        r == source_plan(checksum_in(stored), bytes@),
{
    match stored {
        None => SourcePlan::Missing,
        Some(s) => if source_matches(bytes, s) {
            SourcePlan::Analyze
        } else {
            SourcePlan::Changed
        },
    }
}

/// What became of a beatmap, or of one of its clock rates.
#[derive(Clone, Copy, Debug, PartialEq, Eq, Structural)]
pub enum PatternOutcome {
    /// The record was stored.
    Inserted,
    /// The record was stored already.
    Skipped,
    /// The beatmap was not analyzed under this version yet.
    MissingRaw,
    /// The file or the record was refused.
    Failed,
}

/// What became of the beatmaps of a run over pattern records so far.
#[derive(Clone, Copy, Debug, PartialEq, Eq, Structural)]
pub struct PatternTally {
    pub inserted: usize,
    pub skipped: usize,
    pub missing_raw: usize,
    pub failed: usize,
}

impl PatternTally {
    /// How much was counted.
    pub open spec fn total(self) -> int {
        self.inserted + self.skipped + self.missing_raw + self.failed
    }

    /// The tally with one more outcome.
    pub open spec fn with(self, outcome: PatternOutcome) -> PatternTally {
        match outcome {
            PatternOutcome::Inserted => PatternTally {
                inserted: (self.inserted + 1) as usize,
                ..self
            },
            PatternOutcome::Skipped => PatternTally {
                skipped: (self.skipped + 1) as usize,
                ..self
            },
            PatternOutcome::MissingRaw => PatternTally {
                missing_raw: (self.missing_raw + 1) as usize,
                ..self
            },
            PatternOutcome::Failed => PatternTally { failed: (self.failed + 1) as usize, ..self },
        }
    }

    /// A tally of nothing.
    pub fn new() -> (r: PatternTally)
        ensures
            r == (PatternTally { inserted: 0, skipped: 0, missing_raw: 0, failed: 0 }),
            r.total() == 0,
    {
        PatternTally { inserted: 0, skipped: 0, missing_raw: 0, failed: 0 }
    }

    /// Counts one more outcome.
    pub fn count(&mut self, outcome: PatternOutcome)
        requires
            old(self).total() < usize::MAX,
        ensures
            *final(self) == old(self).with(outcome),
            final(self).total() == old(self).total() + 1,
    {
        match outcome {
            PatternOutcome::Inserted => {
                self.inserted = self.inserted + 1;
            },
            PatternOutcome::Skipped => {
                self.skipped = self.skipped + 1;
            },
            PatternOutcome::MissingRaw => {
                self.missing_raw = self.missing_raw + 1;
            },
            PatternOutcome::Failed => {
                self.failed = self.failed + 1;
            },
        }
    }

    /// Whether the run went well.
    pub fn succeeded(&self) -> (r: bool)
        ensures
            r == (self.failed == 0),
    {
        self.failed == 0
    }
}

/// What the export of other clock rates does with a beatmap.
#[derive(Clone, Copy, Debug, PartialEq, Eq, Structural)]
pub enum VariantPlan {
    /// Its file is gone: it has no variants.
    Absent,
    /// Its file is not the one that was analyzed: the export stops.
    Changed,
    /// Analyze it at the other clock rates.
    Analyze,
}

/// What to do with a beatmap, given the bytes of its file, where there is one,
/// and the checksum that the store has for it.
pub fn plan_variants(found: Option<&[u8]>, checksum: &str) -> (r: VariantPlan)
    ensures
        r == match found {
            None => VariantPlan::Absent,
            Some(bytes) => if checksum_of(bytes@) == checksum@ {
                VariantPlan::Analyze
            } else {
                VariantPlan::Changed
            },
        },
{
    match found {
        None => VariantPlan::Absent,
        Some(bytes) => if source_matches(bytes, checksum) {
            VariantPlan::Analyze
        } else {
            VariantPlan::Changed
        },
    }
}

/// The clock rates that are exported beside the usual one.
pub fn variant_rates() -> (r: [ManiaGameMod; 2])
    ensures
        r@ == seq![ManiaGameMod::Dt, ManiaGameMod::Ht],
{
    let r = [ManiaGameMod::Dt, ManiaGameMod::Ht];
    assert(r@ =~= seq![ManiaGameMod::Dt, ManiaGameMod::Ht]);
    r
}

/// The checksum that the store has for an analyzed file lets a later run pass
/// the file over, lets its patterns be analyzed, and lets its variants be
/// exported, as long as its digest is the same; and no longer.
pub proof fn law_runs_are_resumed(
    bytes: Seq<u8>,
    later: Seq<u8>,
    source: Option<u64>,
    m: ManiaGameMod,
)
    ensures
        analyzed(lossy_text(bytes), sha256(bytes), source, m) matches Ok((metadata, _)) ==> {
            let stored = Some(metadata.checksum);
            &&& is_current(stored, checksum_of(later)) <==> sha256(later) == sha256(bytes)
            &&& source_plan(stored, later) == (if sha256(later) == sha256(bytes) {
                SourcePlan::Analyze
            } else {
                SourcePlan::Changed
            })
            &&& checksum_of(later) == metadata.checksum <==> sha256(later) == sha256(bytes)
        },
{
    if hex_text(sha256(later)) == hex_text(sha256(bytes)) {
        law_hex_text_is_one_to_one(sha256(later), sha256(bytes));
    }
}

/// What the store knows of a run.
#[derive(Clone, Copy, Debug, PartialEq, Eq, Structural)]
pub struct ScanCounts {
    pub eligible: usize,
    pub unsupported: usize,
    pub failed: usize,
}

/// What the health check reads of a record.
#[derive(Clone, Copy, Debug, PartialEq, Eq, Structural)]
pub struct HealthRow {
    pub key_count: u8,
    pub difficulty_band: u8,
    pub mode_family: ManiaModeFamily,
}

/// Why a store is not healthy.
#[derive(Clone, Copy, Debug, PartialEq, Eq, Structural)]
pub enum HealthFault {
    NormalizerVersion,
    Eligible { eligible: usize, count: usize },
    Failed(usize),
    KeyCount(u8),
    /// There are more pattern records than beatmaps have clock rates.
    PatternRecords { total: u128, count: usize },
}

/// How many records there are of each sort.
#[derive(Clone, Copy, Debug)]
pub struct HealthReport {
    pub keys: [usize; 3],
    pub bands: [usize; 10],
    pub families: [usize; 4],
}

/// How many rows have a number of keys.
pub open spec fn rows_with_keys(v: Seq<HealthRow>, keys: u8) -> nat
    decreases v.len(),
{
    if v.len() == 0 {
        0
    } else {
        rows_with_keys(v.drop_last(), keys) + (if v.last().key_count == keys {
            1nat
        } else {
            0nat
        })
    }
}

/// How many rows lie in a band.
pub open spec fn rows_in_band(v: Seq<HealthRow>, band: int) -> nat
    decreases v.len(),
{
    if v.len() == 0 {
        0
    } else {
        rows_in_band(v.drop_last(), band) + (if v.last().difficulty_band == band {
            1nat
        } else {
            0nat
        })
    }
}

/// How many rows are of a family.
pub open spec fn rows_in_family(v: Seq<HealthRow>, family: int) -> nat
    decreases v.len(),
{
    if v.len() == 0 {
        0
    } else {
        rows_in_family(v.drop_last(), family) + (if v.last().mode_family.number() == family {
            1nat
        } else {
            0nat
        })
    }
}

/// The first number of keys that is not supported.
pub open spec fn first_odd_keys(v: Seq<HealthRow>) -> Option<u8>
    decreases v.len(),
{
    if v.len() == 0 {
        None
    } else {
        let k = v[0].key_count;
        if k != 4 && k != 6 && k != 7 {
            Some(k)
        } else {
            first_odd_keys(v.skip(1))
        }
    }
}

/// The first fault of a store, if it has one.
pub open spec fn health_fault(
    version: u32,
    normalizer: u32,
    rows: Seq<HealthRow>,
    counts: ScanCounts,
    records: Seq<usize>,
) -> Option<HealthFault> {
    if normalizer != version {
        Some(HealthFault::NormalizerVersion)
    } else if counts.eligible != rows.len() {
        Some(HealthFault::Eligible { eligible: counts.eligible, count: rows.len() as usize })
    } else if counts.failed != 0 {
        Some(HealthFault::Failed(counts.failed))
    } else {
        match first_odd_keys(rows) {
            Some(k) => Some(HealthFault::KeyCount(k)),
            None => {
                let total = records[0] + records[1] + records[2];
                if total > 3 * rows.len() {
                    Some(
                        HealthFault::PatternRecords {
                            total: total as u128,
                            count: rows.len() as usize,
                        },
                    )
                } else {
                    None
                }
            },
        }
    }
}

proof fn lemma_supported(v: Seq<HealthRow>, i: int)
    requires
        first_odd_keys(v) is None,
        0 <= i < v.len(),
    ensures
        v[i].key_count == 4 || v[i].key_count == 6 || v[i].key_count == 7,
    decreases v.len(),
{
    if i > 0 {
        lemma_supported(v.skip(1), i - 1);
        assert(v.skip(1)[i - 1] == v[i]);
    }
}

proof fn lemma_none_odd(v: Seq<HealthRow>)
    requires
        forall|i: int|
            0 <= i < v.len() ==> (#[trigger] v[i]).key_count == 4 || v[i].key_count == 6
                || v[i].key_count == 7,
    ensures
        rows_with_keys(v, 4) + rows_with_keys(v, 6) + rows_with_keys(v, 7) == v.len(),
    decreases v.len(),
{
    if v.len() > 0 {
        let w = v.drop_last();
        assert forall|i: int| 0 <= i < w.len() implies (#[trigger] w[i]).key_count == 4
            || w[i].key_count == 6 || w[i].key_count == 7 by {
            assert(w[i] == v[i]);
        }
        lemma_none_odd(w);
    }
}

/// The rows of the first bands.
pub open spec fn rows_in_bands(v: Seq<HealthRow>, n: nat) -> nat
    decreases n,
{
    if n == 0 {
        0
    } else {
        rows_in_bands(v, (n - 1) as nat) + rows_in_band(v, n - 1)
    }
}

/// The rows of the first families.
pub open spec fn rows_in_families(v: Seq<HealthRow>, n: nat) -> nat
    decreases n,
{
    if n == 0 {
        0
    } else {
        rows_in_families(v, (n - 1) as nat) + rows_in_family(v, n - 1)
    }
}

proof fn lemma_bands(v: Seq<HealthRow>, n: nat)
    requires
        v.len() > 0,
    ensures
        rows_in_bands(v, n) == rows_in_bands(v.drop_last(), n) + (if v.last().difficulty_band < n {
            1nat
        } else {
            0nat
        }),
    decreases n,
{
    if n > 0 {
        lemma_bands(v, (n - 1) as nat);
    }
}

proof fn lemma_families(v: Seq<HealthRow>, n: nat)
    requires
        v.len() > 0,
    ensures
        rows_in_families(v, n) == rows_in_families(v.drop_last(), n) + (if v.last().mode_family.number()
            < n {
            1nat
        } else {
            0nat
        }),
    decreases n,
{
    if n > 0 {
        lemma_families(v, (n - 1) as nat);
    }
}

proof fn lemma_empty(n: nat)
    ensures
        rows_in_bands(Seq::empty(), n) == 0,
        rows_in_families(Seq::empty(), n) == 0,
    decreases n,
{
    if n > 0 {
        lemma_empty((n - 1) as nat);
    }
}

proof fn lemma_all_counted(v: Seq<HealthRow>)
    requires
        forall|i: int| 0 <= i < v.len() ==> (#[trigger] v[i]).difficulty_band <= 9,
    ensures
        rows_in_bands(v, 10) == v.len(),
        rows_in_families(v, 4) == v.len(),
    decreases v.len(),
{
    if v.len() == 0 {
        assert(v =~= Seq::empty());
        lemma_empty(10);
        lemma_empty(4);
    } else {
        let w = v.drop_last();
        assert forall|i: int| 0 <= i < w.len() implies (#[trigger] w[i]).difficulty_band <= 9 by {
            assert(w[i] == v[i]);
        }
        assert(v[v.len() - 1].difficulty_band <= 9);
        lemma_all_counted(w);
        lemma_bands(v, 10);
        lemma_families(v, 4);
    }
}

/// Each record of a healthy store is counted once by its keys, once by its
/// band and once by its family, and there are as many as files were eligible.
pub proof fn law_health_counts_add_up(
    version: u32,
    normalizer: u32,
    rows: Seq<HealthRow>,
    counts: ScanCounts,
    records: Seq<usize>,
)
    requires
        forall|i: int| 0 <= i < rows.len() ==> (#[trigger] rows[i]).difficulty_band <= 9,
        health_fault(version, normalizer, rows, counts, records) is None,
    ensures
        rows_with_keys(rows, 4) + rows_with_keys(rows, 6) + rows_with_keys(rows, 7)
            == counts.eligible,
        rows_in_bands(rows, 10) == counts.eligible,
        rows_in_families(rows, 4) == counts.eligible,
{
    assert forall|i: int| 0 <= i < rows.len() implies (#[trigger] rows[i]).key_count == 4
        || rows[i].key_count == 6 || rows[i].key_count == 7 by {
        lemma_supported(rows, i);
    }
    lemma_none_odd(rows);
    lemma_all_counted(rows);
}

fn find_odd_keys(v: &[HealthRow]) -> (r: Option<u8>)
    ensures
        r == first_odd_keys(v@),
{
    let mut i: usize = 0;
    assert(v@.skip(0) =~= v@);
    while i < v.len()
        invariant
            i <= v@.len(),
            first_odd_keys(v@) == first_odd_keys(v@.skip(i as int)),
        decreases v@.len() - i,
    {
        assert(v@.skip(i as int)[0] == v@[i as int]);
        assert(v@.skip(i as int).skip(1) =~= v@.skip(i + 1));
        let k: u8 = v[i].key_count;
        if k != 4 && k != 6 && k != 7 {
            return Some(k);
        }
        i = i + 1;
    }
    None
}

fn count_rows(v: &[HealthRow]) -> (r: HealthReport)
    requires
        forall|i: int| 0 <= i < v@.len() ==> (#[trigger] v@[i]).difficulty_band <= 9,
    ensures
        r.keys@[0] == rows_with_keys(v@, 4),
        r.keys@[1] == rows_with_keys(v@, 6),
        r.keys@[2] == rows_with_keys(v@, 7),
        forall|b: int| 0 <= b < 10 ==> #[trigger] r.bands@[b] == rows_in_band(v@, b),
        forall|f: int| 0 <= f < 4 ==> #[trigger] r.families@[f] == rows_in_family(v@, f),
{
    let mut keys: [usize; 3] = [0, 0, 0];
    let mut bands: [usize; 10] = [0, 0, 0, 0, 0, 0, 0, 0, 0, 0];
    let mut families: [usize; 4] = [0, 0, 0, 0];
    let mut i: usize = 0;
    while i < v.len()
        invariant
            i <= v@.len(),
            forall|j: int| 0 <= j < v@.len() ==> (#[trigger] v@[j]).difficulty_band <= 9,
            keys@[0] == rows_with_keys(v@.take(i as int), 4),
            keys@[1] == rows_with_keys(v@.take(i as int), 6),
            keys@[2] == rows_with_keys(v@.take(i as int), 7),
            forall|k: int| 0 <= k < 3 ==> #[trigger] keys@[k] <= i,
            forall|b: int|
                0 <= b < 10 ==> #[trigger] bands@[b] == rows_in_band(v@.take(i as int), b)
                    && bands@[b] <= i,
            forall|f: int|
                0 <= f < 4 ==> #[trigger] families@[f] == rows_in_family(v@.take(i as int), f)
                    && families@[f] <= i,
        decreases v@.len() - i,
    {
        let row = v[i];
        assert(v@.take(i + 1).drop_last() =~= v@.take(i as int));
        assert(v@.take(i + 1).last() == row);
        assert(v@[i as int].difficulty_band <= 9);
        if row.key_count == 4 {
            keys[0] = keys[0] + 1;
        } else if row.key_count == 6 {
            keys[1] = keys[1] + 1;
        } else if row.key_count == 7 {
            keys[2] = keys[2] + 1;
        }
        let b: usize = row.difficulty_band as usize;
        bands[b] = bands[b] + 1;
        let f: usize = row.mode_family.to_i64() as usize;
        families[f] = families[f] + 1;
        i = i + 1;
    }
    assert(v@.take(i as int) =~= v@);
    HealthReport { keys, bands, families }
}

/// Whether a store is healthy, and how many records of each sort it has:
/// `normalizer` is the version of the normalizer, `records` counts pattern
/// records by clock rate.
pub fn check_health(
    version: u32,
    normalizer: u32,
    rows: &[HealthRow],
    counts: ScanCounts,
    records: [usize; 3],
) -> (r: Result<HealthReport, HealthFault>)
    requires
        forall|i: int| 0 <= i < rows@.len() ==> (#[trigger] rows@[i]).difficulty_band <= 9,
    ensures
        match r {
            Err(x) => health_fault(version, normalizer, rows@, counts, records@) == Some(x),
            Ok(report) => {
                &&& health_fault(version, normalizer, rows@, counts, records@) is None
                &&& report.keys@[0] == rows_with_keys(rows@, 4)
                &&& report.keys@[1] == rows_with_keys(rows@, 6)
                &&& report.keys@[2] == rows_with_keys(rows@, 7)
                &&& forall|b: int|
                    0 <= b < 10 ==> #[trigger] report.bands@[b] == rows_in_band(rows@, b)
                &&& forall|f: int|
                    0 <= f < 4 ==> #[trigger] report.families@[f] == rows_in_family(rows@, f)
            },
        },
{
    if normalizer != version {
        return Err(HealthFault::NormalizerVersion);
    }
    if counts.eligible != rows.len() {
        return Err(HealthFault::Eligible { eligible: counts.eligible, count: rows.len() });
    }
    if counts.failed != 0 {
        return Err(HealthFault::Failed(counts.failed));
    }
    if let Some(k) = find_odd_keys(rows) {
        return Err(HealthFault::KeyCount(k));
    }
    let total: u128 = records[0] as u128 + records[1] as u128 + records[2] as u128;
    if total > 3 * (rows.len() as u128) {
        return Err(HealthFault::PatternRecords { total, count: rows.len() });
    }
    Ok(count_rows(rows))
}

} // verus!
