use osu_difficulty_lab::analyzer::MANIA_ANALYZER_VERSION;
use osu_difficulty_lab::binary32::Binary32;
use osu_difficulty_lab::storage::{
    check_normalized, current_matches, find_misplaced, is_index_file, normalized_file, plan_raw,
    prepare_reanalysis, snapshot, stored_count, validate_normalized, validate_raw, AppendPlan,
    FeatureFile, ManiaFeatureRecord, ManiaModFeatureRecord, NormalizedFault, RawFault,
    SnapshotPlan, StoredRawRecord,
};
use osu_difficulty_lab::types::{
    ManiaBeatmapMetadata, ManiaGameMod, ManiaModeFamily, ManiaPattern,
};

fn number(value: f32) -> Binary32 {
    Binary32 { bits: value.to_bits() }
}

fn sample(id: u64) -> (ManiaBeatmapMetadata, StoredRawRecord) {
    let metadata = ManiaBeatmapMetadata {
        beatmap_id: id,
        beatmapset_id: id / 10,
        checksum: format!("checksum-{id}"),
        artist: "artist".into(),
        title: "title".into(),
        version: "version".into(),
        creator: "creator".into(),
        online_url: format!("https://osu.ppy.sh/b/{id}"),
        key_count: 4,
        mode_family: ManiaModeFamily::Rc,
        dominant_pattern: ManiaPattern::Stream,
    };
    let record = StoredRawRecord {
        beatmap_id: id,
        beatmapset_id: id / 10,
        difficulty: vec![number(id as f32); 8],
        style: vec![number(0.0); 16],
        base: vec![number(0.0); 9],
        key_count: 4,
        mode_family: ManiaModeFamily::Rc,
        dominant_pattern: ManiaPattern::Stream,
        analyzer_version: MANIA_ANALYZER_VERSION,
    };
    (metadata, record)
}

fn normalized(id: u64) -> ManiaFeatureRecord {
    ManiaFeatureRecord {
        beatmap_id: id,
        beatmapset_id: 1,
        searchable: vec![number(0.25), number(1.0), number(-0.0)],
        difficulty_percentile: number(0.5),
        difficulty_band: 9,
        key_count: 7,
        mode_family: ManiaModeFamily::Mix,
        dominant_pattern: ManiaPattern::Jacks,
        analyzer_version: MANIA_ANALYZER_VERSION,
        normalization_version: 3,
    }
}

#[test]
fn features_are_stored_once_until_the_checksum_changes() {
    let (mut metadata, mut record) = sample(10);
    assert_eq!(plan_raw(&metadata, &record, None), Ok(AppendPlan::Append));
    let stored = metadata.checksum.clone();
    assert_eq!(plan_raw(&metadata, &record, Some(&stored)), Ok(AppendPlan::Skip));
    metadata.checksum = "updated-checksum".into();
    record.difficulty[0] = number(99.0);
    assert_eq!(plan_raw(&metadata, &record, Some(&stored)), Ok(AppendPlan::Append));
    assert!(current_matches(Some("updated-checksum"), &metadata.checksum));
    assert!(!current_matches(None, &metadata.checksum));
}

#[test]
fn each_fault_of_features_is_found() {
    let (metadata, record) = sample(10);
    assert_eq!(validate_raw(&metadata, &record), Ok(()));

    let mut other = record.clone();
    other.beatmapset_id = 77;
    assert_eq!(validate_raw(&metadata, &other), Err(RawFault::Disagreement));

    let mut other = record.clone();
    other.analyzer_version += 1;
    assert_eq!(validate_raw(&metadata, &other), Err(RawFault::AnalyzerVersion));

    let (mut five, mut keys) = (metadata.clone(), record.clone());
    five.key_count = 5;
    keys.key_count = 5;
    assert_eq!(validate_raw(&five, &keys), Err(RawFault::KeyCount));

    for wrong in [-1.0, f32::NAN, f32::INFINITY] {
        let mut other = record.clone();
        other.difficulty[3] = number(wrong);
        assert_eq!(validate_raw(&metadata, &other), Err(RawFault::OutOfRange));
        let mut other = record.clone();
        other.style[3] = number(wrong);
        assert_eq!(validate_raw(&metadata, &other), Err(RawFault::OutOfRange));
        let mut other = record.clone();
        other.base[3] = number(wrong);
        assert_eq!(validate_raw(&metadata, &other), Err(RawFault::OutOfRange));
    }
    let mut other = record.clone();
    other.style[0] = number(1.0000001);
    assert_eq!(validate_raw(&metadata, &other), Err(RawFault::OutOfRange));
    assert_eq!(plan_raw(&metadata, &other, None), Err(RawFault::OutOfRange));
    assert_eq!(
        RawFault::KeyCount.message(),
        "mania raw feature has an unsupported key count"
    );
}

#[test]
fn normalized_records_are_checked_against_their_version() {
    let record = normalized(5);
    assert!(validate_normalized(&record, 3));
    assert!(!validate_normalized(&record, 2));
    let mut band = normalized(5);
    band.difficulty_band = 10;
    assert!(!validate_normalized(&band, 3));
    let mut share = normalized(6);
    share.searchable[1] = number(1.5);
    assert!(!validate_normalized(&share, 3));
    assert_eq!(check_normalized(&[normalized(5), share], 3), Err(NormalizedFault::Unsound(6)));
    assert_eq!(check_normalized(&[record], 3), Ok(()));
    assert_eq!(check_normalized(&[], 0), Err(NormalizedFault::ZeroVersion));
}

#[test]
fn files_are_told_apart_by_how_they_start() {
    assert_eq!(&FeatureFile::Raw.header(), b"ODLMAR1\0");
    assert_eq!(&FeatureFile::Normalized.header(), b"ODLMAN1\0");
    assert_eq!(&FeatureFile::Pattern.header(), b"ODLMMA1\0");
    assert_eq!(&FeatureFile::Variant.header(), b"ODLMMV1\0");
    assert!(FeatureFile::Raw.starts_as(b"ODLMAR1\0"));
    assert!(!FeatureFile::Raw.starts_as(b"ODLMAN1\0"));
    assert!(!FeatureFile::Raw.starts_as(b"ODLMAR1"));
    assert!(FeatureFile::Pattern.holds_record_at(b"ODLMMA1\0", 8));
    assert!(!FeatureFile::Pattern.holds_record_at(b"ODLMMA1\0", 7));
}

#[test]
fn names_of_files_and_marks_of_versions() {
    assert_eq!(normalized_file(12), "mania-features-v12.bin");
    assert!(is_index_file("mania-v1.buckets"));
    assert!(is_index_file("mania-v1.buckets.sha256"));
    assert!(!is_index_file("difficulty-main.hnsw"));
    assert!(!is_index_file("mania-v1.buckets.tmp"));
    let mark = snapshot(1, "mania-roxy-interlude-similarity-v1");
    assert_eq!(mark, "1:mania-roxy-interlude-similarity-v1");
    assert_eq!(prepare_reanalysis(None, &mark), SnapshotPlan::Begin);
    assert_eq!(prepare_reanalysis(Some(&mark), &mark), SnapshotPlan::Keep);
    assert_eq!(prepare_reanalysis(Some("0:older"), &mark), SnapshotPlan::Replace);
}

#[test]
fn counts_that_cannot_be_read_are_zero() {
    assert_eq!(stored_count(Some("147568")), 147568);
    assert_eq!(stored_count(Some("-1")), 0);
    assert_eq!(stored_count(Some("many")), 0);
    assert_eq!(stored_count(None), 0);
}

#[test]
fn misplaced_records_are_found() {
    assert_eq!(find_misplaced(&[1, 2, 3], &[1, 2, 3]), None);
    assert_eq!(find_misplaced(&[1, 2, 3], &[1, 5, 9]), Some(1));
}

#[test]
fn variants_hold_a_normalized_record() {
    let variant = ManiaModFeatureRecord {
        beatmap_id: 5,
        game_mod: ManiaGameMod::Dt,
        record: normalized(5),
    };
    assert_eq!(variant.beatmap_id, variant.record.beatmap_id);
    assert_eq!(variant.game_mod.as_str(), "DT");
}
