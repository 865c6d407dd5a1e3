//! The decisions of the feature store: what may be stored, what is stored
//! already, and what the files on disk must look like.

use crate::analyzer::{
    analyzed, law_analyzed_charts_have_keys, ManiaRawFeatureRecord, MANIA_ANALYZER_VERSION,
};
use crate::binary32::Binary32;
use crate::number::{decimal_text, parse_unsigned, unsigned_up_to, write_decimal};
use crate::record::{all_in_unit, record_fault, units_all, validate_record, ManiaMmaRecord, RecordFault};
use crate::text::{begins_with, ends_in, ends_with, same, starts_with, string_of, to_chars};
use crate::types::{ManiaBeatmapMetadata, ManiaGameMod, ManiaModeFamily, ManiaPattern};
use vstd::prelude::*;

verus! {

/// The files that records are kept in.
#[derive(Clone, Copy, Debug, PartialEq, Eq, Structural)]
pub enum FeatureFile {
    Raw,
    Normalized,
    Pattern,
    Variant,
}

impl FeatureFile {
    /// The eight bytes that a file starts with.
    pub open spec fn magic(self) -> Seq<u8> {
        match self {
            FeatureFile::Raw => seq![79, 68, 76, 77, 65, 82, 49, 0],
            FeatureFile::Normalized => seq![79, 68, 76, 77, 65, 78, 49, 0],
            FeatureFile::Pattern => seq![79, 68, 76, 77, 77, 65, 49, 0],
            FeatureFile::Variant => seq![79, 68, 76, 77, 77, 86, 49, 0],
        }
    }

    /// The eight bytes that a file starts with.
    pub fn header(self) -> (r: [u8; 8])
        ensures
            r@ == self.magic(),
    {
        let r: [u8; 8] = match self {
            FeatureFile::Raw => [79, 68, 76, 77, 65, 82, 49, 0],
            FeatureFile::Normalized => [79, 68, 76, 77, 65, 78, 49, 0],
            FeatureFile::Pattern => [79, 68, 76, 77, 77, 65, 49, 0],
            FeatureFile::Variant => [79, 68, 76, 77, 77, 86, 49, 0],
        };
        assert(r@ =~= self.magic());
        r
    }

    /// Whether bytes are those that a file starts with.
    pub fn starts_as(self, actual: &[u8]) -> (r: bool)
        ensures
            r == (actual@ == self.magic()),
    {
        let header = self.header();
        if actual.len() != 8 {
            return false;
        }
        let mut i: usize = 0;
        while i < 8
            invariant
                i <= 8,
                actual@.len() == 8,
                header@ == self.magic(),
                header@.len() == 8,
                forall|j: int| 0 <= j < i ==> actual@[j] == header@[j],
            decreases 8 - i,
        {
            if actual[i] != header[i] {
                assert(actual@[i as int] != header@[i as int]);
                return false;
            }
            i = i + 1;
        }
        assert(actual@ =~= header@);
        true
    }

    /// Whether a record may be read at an offset of a file that starts with
    /// `actual`.
    pub fn holds_record_at(self, actual: &[u8], offset: u64) -> (r: bool)
        ensures
            r == (actual@ == self.magic() && offset >= self.magic().len()),
    {
        self.starts_as(actual) && offset >= 8
    }
}

/// The name of the file with the normalized records of a version.
pub open spec fn normalized_name(version: u32) -> Seq<char> {
    "mania-features-v"@ + decimal_text(version as nat) + ".bin"@
}

/// The name of the file with the normalized records of a version.
pub fn normalized_file(version: u32) -> (r: String)
    ensures
        r@ == normalized_name(version),
{
    let digits = write_decimal(version as u64);
    let mut out: String = "mania-features-v".to_owned();
    let number = string_of(digits.as_slice());
    out.append(number.as_str());
    out.append(".bin");
    out
}

/// Whether a file name is that of an index, or of the checksum of one.
pub open spec fn is_index_name(name: Seq<char>) -> bool {
    begins_with(name, "mania-v"@) && (ends_in(name, ".buckets"@) || ends_in(
        name,
        ".buckets.sha256"@,
    ))
}

/// Whether a file is an index, or the checksum of one, by its name.
pub fn is_index_file(name: &str) -> (r: bool)
    ensures
        r == is_index_name(name@),
{
    let chars = to_chars(name);
    let s = chars.as_slice();
    starts_with(s, "mania-v") && (ends_with(s, ".buckets") || ends_with(s, ".buckets.sha256"))
}

/// What marks the records of a version of an algorithm.
pub open spec fn snapshot_of(version: u32, algorithm: Seq<char>) -> Seq<char> {
    decimal_text(version as nat) + ":"@ + algorithm
}

/// What marks the records of a version of an algorithm.
pub fn snapshot(version: u32, algorithm: &str) -> (r: String)
    ensures
        r@ == snapshot_of(version, algorithm@),
{
    let digits = write_decimal(version as u64);
    let mut out: String = string_of(digits.as_slice());
    out.append(":");
    out.append(algorithm);
    out
}

/// What to do about the records of an earlier run.
#[derive(Clone, Copy, Debug, PartialEq, Eq, Structural)]
pub enum SnapshotPlan {
    /// They are of this version.
    Keep,
    /// There are none yet: mark the store and drop the indexes.
    Begin,
    /// They are of another version: mark the store, drop the indexes and say
    /// so.
    Replace,
}

/// What to do, given the mark of the store and that of this version.
pub fn prepare_reanalysis(previous: Option<&str>, current: &str) -> (r: SnapshotPlan)
    ensures
        r == match previous {
            None => SnapshotPlan::Begin,
            Some(p) => if p@ == current@ {
                SnapshotPlan::Keep
            } else {
                SnapshotPlan::Replace
            },
        },
{
    match previous {
        None => SnapshotPlan::Begin,
        Some(p) => {
            let a = to_chars(p);
            let b = to_chars(current);
            if same(a.as_slice(), b.as_slice()) {
                SnapshotPlan::Keep
            } else {
                SnapshotPlan::Replace
            }
        },
    }
}

/// A count as the store keeps it; zero where it cannot be read.
pub fn stored_count(value: Option<&str>) -> (r: usize)
    ensures
        r == match value {
            Some(v) => match unsigned_up_to(v@, usize::MAX as u64) {
                Some(n) => n as usize,
                None => 0usize,
            },
            None => 0usize,
        },
{
    match value {
        Some(v) => {
            let chars = to_chars(v);
            match parse_unsigned(chars.as_slice(), usize::MAX as u64) {
                Some(n) => n as usize,
                None => 0,
            }
        },
        None => 0,
    }
}

/// The features of a beatmap as they are stored.
#[derive(Clone, Debug)]
pub struct StoredRawRecord {
    pub beatmap_id: u64,
    pub beatmapset_id: u64,
    pub difficulty: Vec<Binary32>,
    pub style: Vec<Binary32>,
    pub base: Vec<Binary32>,
    pub key_count: u8,
    pub mode_family: ManiaModeFamily,
    pub dominant_pattern: ManiaPattern,
    pub analyzer_version: u32,
}

/// The features of a beatmap, relative to those of all beatmaps.
#[derive(Clone, Debug)]
pub struct ManiaFeatureRecord {
    pub beatmap_id: u64,
    pub beatmapset_id: u64,
    /// The features that are searched by.
    pub searchable: Vec<Binary32>,
    pub difficulty_percentile: Binary32,
    pub difficulty_band: u8,
    pub key_count: u8,
    pub mode_family: ManiaModeFamily,
    pub dominant_pattern: ManiaPattern,
    pub analyzer_version: u32,
    pub normalization_version: u32,
}

/// The features of a beatmap at another clock rate. The order of the fields is
/// that of the file.
#[derive(Clone, Debug)]
pub struct ManiaModFeatureRecord {
    pub beatmap_id: u64,
    pub game_mod: ManiaGameMod,
    pub record: ManiaFeatureRecord,
}

/// Why features are not stored.
#[derive(Clone, Copy, Debug, PartialEq, Eq, Structural)]
pub enum RawFault {
    Disagreement,
    AnalyzerVersion,
    KeyCount,
    OutOfRange,
}

impl RawFault {
    /// What a fault is told by.
    pub open spec fn text(self) -> Seq<char> {
        match self {
            RawFault::Disagreement => "mania metadata and feature record do not agree"@,
            RawFault::AnalyzerVersion => "mania raw feature has the wrong analyzer version"@,
            RawFault::KeyCount => "mania raw feature has an unsupported key count"@,
            RawFault::OutOfRange =>
                "mania raw feature is non-finite or outside its declared range"@,
        }
    }

    /// The fault in words.
    pub fn message(self) -> (r: &'static str)
        ensures
            r@ == self.text(),
    {
        match self {
            RawFault::Disagreement => "mania metadata and feature record do not agree",
            RawFault::AnalyzerVersion => "mania raw feature has the wrong analyzer version",
            RawFault::KeyCount => "mania raw feature has an unsupported key count",
            RawFault::OutOfRange => "mania raw feature is non-finite or outside its declared range",
        }
    }
}

/// Whether numbers are finite and not below zero.
pub open spec fn non_negative_all(v: Seq<Binary32>) -> bool {
    forall|i: int| 0 <= i < v.len() ==> (#[trigger] v[i]).non_negative()
}

/// Whether charts with so many keys are dealt with.
pub open spec fn is_key_count(keys: u8) -> bool {
    keys == 4 || keys == 6 || keys == 7
}

/// Whether metadata and features speak of the same chart.
pub open spec fn agree(m: ManiaBeatmapMetadata, r: StoredRawRecord) -> bool {
    &&& m.beatmap_id == r.beatmap_id
    &&& m.beatmapset_id == r.beatmapset_id
    &&& m.key_count == r.key_count
    &&& m.mode_family == r.mode_family
    &&& m.dominant_pattern == r.dominant_pattern
}

/// The first fault of features, if they have one.
pub open spec fn raw_fault(m: ManiaBeatmapMetadata, r: StoredRawRecord) -> Option<RawFault> {
    if !agree(m, r) {
        Some(RawFault::Disagreement)
    } else if r.analyzer_version != MANIA_ANALYZER_VERSION {
        Some(RawFault::AnalyzerVersion)
    } else if !is_key_count(r.key_count) {
        Some(RawFault::KeyCount)
    } else if !non_negative_all(r.difficulty@) || !units_all(r.style@) || !non_negative_all(
        r.base@,
    ) {
        Some(RawFault::OutOfRange)
    } else {
        None
    }
}

/// Whether a normalized record can be stored under a version.
pub open spec fn normalized_sound(r: ManiaFeatureRecord, version: u32) -> bool {
    &&& r.analyzer_version == MANIA_ANALYZER_VERSION
    &&& r.normalization_version == version
    &&& is_key_count(r.key_count)
    &&& r.difficulty_band <= 9
    &&& r.difficulty_percentile.in_unit()
    &&& units_all(r.searchable@)
}

fn all_non_negative(v: &[Binary32]) -> (r: bool)
    ensures
        r == non_negative_all(v@),
{
    let mut i: usize = 0;
    while i < v.len()
        invariant
            i <= v@.len(),
            forall|j: int| 0 <= j < i ==> (#[trigger] v@[j]).non_negative(),
        decreases v@.len() - i,
    {
        if !v[i].is_non_negative() {
            return false;
        }
        i = i + 1;
    }
    true
}

/// Whether features can be stored; the first fault where they cannot.
pub fn validate_raw(metadata: &ManiaBeatmapMetadata, record: &StoredRawRecord) -> (r: Result<
    (),
    RawFault,
>)
    ensures
        match r {
            Ok(_) => raw_fault(*metadata, *record) is None,
            Err(x) => raw_fault(*metadata, *record) == Some(x),
        },
{
    if metadata.beatmap_id != record.beatmap_id || metadata.beatmapset_id != record.beatmapset_id
        || metadata.key_count != record.key_count || metadata.mode_family != record.mode_family
        || metadata.dominant_pattern != record.dominant_pattern {
        return Err(RawFault::Disagreement);
    }
    if record.analyzer_version != MANIA_ANALYZER_VERSION {
        return Err(RawFault::AnalyzerVersion);
    }
    if record.key_count != 4 && record.key_count != 6 && record.key_count != 7 {
        return Err(RawFault::KeyCount);
    }
    if !all_non_negative(record.difficulty.as_slice()) || !all_in_unit(record.style.as_slice())
        || !all_non_negative(record.base.as_slice()) {
        return Err(RawFault::OutOfRange);
    }
    Ok(())
}

/// Whether a normalized record can be stored under a version.
pub fn validate_normalized(record: &ManiaFeatureRecord, version: u32) -> (r: bool)
    ensures
        r == normalized_sound(*record, version),
{
    record.analyzer_version == MANIA_ANALYZER_VERSION && record.normalization_version == version
        && (record.key_count == 4 || record.key_count == 6 || record.key_count == 7)
        && record.difficulty_band <= 9 && record.difficulty_percentile.is_in_unit()
        && all_in_unit(record.searchable.as_slice())
}

/// Why normalized records are not stored.
#[derive(Clone, Copy, Debug, PartialEq, Eq, Structural)]
pub enum NormalizedFault {
    /// Versions count from one.
    ZeroVersion,
    /// The record of this beatmap is not sound.
    Unsound(u64),
}

/// Whether normalized records can be stored under a version; the first fault
/// where they cannot.
pub fn check_normalized(records: &[ManiaFeatureRecord], version: u32) -> (r: Result<
    (),
    NormalizedFault,
>)
    ensures
        match r {
            Ok(_) => version > 0 && forall|i: int|
                0 <= i < records@.len() ==> normalized_sound(#[trigger] records@[i], version),
            Err(NormalizedFault::ZeroVersion) => version == 0,
            Err(NormalizedFault::Unsound(id)) => version > 0 && exists|i: int|
                {
                    &&& 0 <= i < records@.len()
                    &&& (#[trigger] records@[i]).beatmap_id == id
                    &&& !normalized_sound(records@[i], version)
                    &&& forall|j: int|
                        0 <= j < i ==> normalized_sound(#[trigger] records@[j], version)
                },
        },
{
    if version == 0 {
        return Err(NormalizedFault::ZeroVersion);
    }
    let mut i: usize = 0;
    while i < records.len()
        invariant
            i <= records@.len(),
            version > 0,
            forall|j: int| 0 <= j < i ==> normalized_sound(#[trigger] records@[j], version),
        decreases records@.len() - i,
    {
        if !validate_normalized(&records[i], version) {
            assert(!normalized_sound(records@[i as int], version));
            return Err(NormalizedFault::Unsound(records[i].beatmap_id));
        }
        i = i + 1;
    }
    Ok(())
}

/// The first place where a record is not the one that was looked for.
pub open spec fn first_misplaced(expected: Seq<u64>, found: Seq<u64>, n: int) -> Option<int>
    decreases expected.len() - n,
{
    if n >= expected.len() || n >= found.len() {
        None
    } else if expected[n] != found[n] {
        Some(n)
    } else {
        first_misplaced(expected, found, n + 1)
    }
}

/// Finds the first place where the record that was read is not the one that
/// was looked for, by their beatmaps.
pub fn find_misplaced(expected: &[u64], found: &[u64]) -> (r: Option<usize>)
    ensures
        match r {
            Some(i) => first_misplaced(expected@, found@, 0) == Some(i as int),
            None => first_misplaced(expected@, found@, 0) is None,
        },
{
    let mut i: usize = 0;
    while i < expected.len() && i < found.len()
        invariant
            i <= expected@.len(),
            i <= found@.len(),
            first_misplaced(expected@, found@, 0) == first_misplaced(
                expected@,
                found@,
                i as int,
            ),
        decreases expected@.len() - i,
    {
        if expected[i] != found[i] {
            return Some(i);
        }
        i = i + 1;
    }
    None
}

/// What to do with a record.
#[derive(Clone, Copy, Debug, PartialEq, Eq, Structural)]
pub enum AppendPlan {
    /// It is stored already.
    Skip,
    /// Append it, in place of an earlier one if there is one.
    Append,
}

/// Whether a record that is stored under `stored` is that of a file with a
/// checksum.
pub open spec fn is_current(stored: Option<Seq<char>>, checksum: Seq<char>) -> bool {
    stored == Some(checksum)
}

/// A checksum as a value, where there is one.
pub open spec fn checksum_in(stored: Option<&str>) -> Option<Seq<char>> {
    match stored {
        Some(s) => Some(s@),
        None => None,
    }
}

/// Whether the record that is stored is that of a file with a checksum.
pub fn current_matches(stored: Option<&str>, checksum: &str) -> (r: bool)
    ensures
        r == is_current(checksum_in(stored), checksum@),
{
    match stored {
        Some(s) => {
            let a = to_chars(s);
            let b = to_chars(checksum);
            same(a.as_slice(), b.as_slice())
        },
        None => false,
    }
}

/// A record is refused where it is not sound, skipped where it is stored
/// already, and appended otherwise.
pub open spec fn append_plan<F>(
    fault: Option<F>,
    stored: Option<Seq<char>>,
    checksum: Seq<char>,
) -> Result<AppendPlan, F> {
    match fault {
        Some(x) => Err(x),
        None => if is_current(stored, checksum) {
            Ok(AppendPlan::Skip)
        } else {
            Ok(AppendPlan::Append)
        },
    }
}

/// What to do with the features of a beatmap, given the checksum that the
/// store has for it under this version of the analysis.
pub fn plan_raw(
    metadata: &ManiaBeatmapMetadata,
    record: &StoredRawRecord,
    stored: Option<&str>,
) -> (r: Result<AppendPlan, RawFault>)
    ensures
        r == append_plan(
            raw_fault(*metadata, *record),
            checksum_in(stored),
            metadata.checksum@,
        ),
{
    match validate_raw(metadata, record) {
        Err(x) => Err(x),
        Ok(_) => if current_matches(stored, metadata.checksum.as_str()) {
            Ok(AppendPlan::Skip)
        } else {
            Ok(AppendPlan::Append)
        },
    }
}

/// What to do with a pattern record of a file with a checksum, given the
/// checksum that the store has for its beatmap and clock rate.
pub fn plan_mma(record: &ManiaMmaRecord, checksum: &str, stored: Option<&str>) -> (r: Result<
    AppendPlan,
    RecordFault,
>)
    ensures
        r == append_plan(record_fault(*record), checksum_in(stored), checksum@),
{
    match validate_record(record) {
        Err(x) => Err(x),
        Ok(_) => if current_matches(stored, checksum) {
            Ok(AppendPlan::Skip)
        } else {
            Ok(AppendPlan::Append)
        },
    }
}

/// Whether stored features are those of an analyzed chart, but for its numbers.
pub open spec fn stands_for(s: StoredRawRecord, r: ManiaRawFeatureRecord) -> bool {
    &&& s.beatmap_id == r.beatmap_id
    &&& s.beatmapset_id == r.beatmapset_id
    &&& s.key_count == r.key_count
    &&& s.mode_family == r.mode_family
    &&& s.dominant_pattern == r.dominant_pattern
    &&& s.analyzer_version == r.analyzer_version
}

/// What an analysis gives can be stored with its metadata, as soon as its
/// numbers are in range.
pub proof fn law_analyzed_charts_can_be_stored(
    text: Seq<char>,
    digest: Seq<u8>,
    source: Option<u64>,
    m: ManiaGameMod,
    metadata: ManiaBeatmapMetadata,
    record: ManiaRawFeatureRecord,
    stored: StoredRawRecord,
)
    requires
        analyzed(text, digest, source, m) == Ok::<_, crate::beatmap::Fault>((metadata@, record@)),
        stands_for(stored, record),
        non_negative_all(stored.difficulty@),
        units_all(stored.style@),
        non_negative_all(stored.base@),
    ensures
        raw_fault(metadata, stored) is None,
{
    law_analyzed_charts_have_keys(text, digest, source, m);
}

/// What is stored is not stored again, and the record of a file that changed
/// takes the place of the earlier one.
pub proof fn law_records_are_stored_once<F>(checksum: Seq<char>, changed: Seq<char>)
    requires
        changed != checksum,
    ensures
        append_plan(None::<F>, None, checksum) == Ok::<AppendPlan, F>(AppendPlan::Append),
        append_plan(None::<F>, Some(checksum), checksum) == Ok::<AppendPlan, F>(AppendPlan::Skip),
        append_plan(None::<F>, Some(checksum), changed) == Ok::<AppendPlan, F>(AppendPlan::Append),
{
}

/// A record that is not sound is never stored, whatever the store has.
pub proof fn law_faults_are_refused<F>(
    fault: F,
    stored: Option<Seq<char>>,
    checksum: Seq<char>,
)
    ensures
        append_plan(Some(fault), stored, checksum) == Err::<AppendPlan, F>(fault),
{
}

/// No two kinds of file start alike.
pub proof fn law_headers_differ(a: FeatureFile, b: FeatureFile)
    requires
        a.magic() == b.magic(),
    ensures
        a == b,
{
    assert(a.magic()[4] == b.magic()[4]);
    assert(a.magic()[5] == b.magic()[5]);
}

} // verus!
