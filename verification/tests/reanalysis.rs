use osu_difficulty_lab::analyzer::ManiaAnalyzer;
use osu_difficulty_lab::beatmap::ManiaAnalyzeError;
use osu_difficulty_lab::downloads::{pack_status, DownloadBatch, PackEvent, PackStatus};
use osu_difficulty_lab::reanalysis::{
    already_analyzed, check_health, outcome_of_error, parse_rates, plan_source, plan_variants,
    progress_due, source_id, source_matches, tally_outcomes, variant_rates, worker_count,
    HealthFault, HealthRow, ManiaReanalysisOutcome, PatternOutcome, PatternTally, RatesError,
    ScanCounts, ScanTally, SourcePlan, VariantPlan,
};
use osu_difficulty_lab::types::{ManiaGameMod, ManiaModeFamily};

const EMPTY_SUM: &str = "e3b0c44298fc1c149afbf4c8996fb92427ae41e4649b934ca495991b7852b855";
const ABC_SUM: &str = "ba7816bf8f01cfea414140de5dae2223b00361a396177a9cb410ff61f20015ad";

#[test]
fn clock_rates_are_read_from_a_list() {
    let rates = parse_rates("NM,DT,HT").unwrap();
    assert_eq!(rates, [ManiaGameMod::Nm, ManiaGameMod::Dt, ManiaGameMod::Ht]);
    let rates = parse_rates(" ht ,, Dt,HT").unwrap();
    assert_eq!(rates, [ManiaGameMod::Ht, ManiaGameMod::Dt]);
    assert!(matches!(parse_rates("NM, XX"), Err(RatesError::Unsupported(code)) if code == "XX"));
    assert!(matches!(parse_rates(" , "), Err(RatesError::Nothing)));
}

#[test]
fn workers_are_at_least_one_and_at_most_thirty_two() {
    assert_eq!(worker_count(Some(0), 8), 1);
    assert_eq!(worker_count(Some(5), 8), 5);
    assert_eq!(worker_count(Some(100), 8), 32);
    assert_eq!(worker_count(None, 8), 8);
    assert_eq!(worker_count(None, 0), 1);
}

#[test]
fn sources_are_known_by_name_and_checksum() {
    assert_eq!(source_id("1234"), Some(1234));
    assert_eq!(source_id("18446744073709551615"), Some(u64::MAX));
    assert_eq!(source_id("18446744073709551616"), None);
    assert_eq!(source_id("map"), None);
    assert!(source_matches(b"", EMPTY_SUM));
    assert!(source_matches(b"abc", ABC_SUM));
    assert!(!source_matches(b"abd", ABC_SUM));
    assert!(already_analyzed(b"abc", Some(ABC_SUM)));
    assert!(!already_analyzed(b"abc", None));
    assert_eq!(plan_source(None, b"abc"), SourcePlan::Missing);
    assert_eq!(plan_source(Some(ABC_SUM), b"abc"), SourcePlan::Analyze);
    assert_eq!(plan_source(Some(EMPTY_SUM), b"abc"), SourcePlan::Changed);
    assert_eq!(plan_variants(None, ABC_SUM), VariantPlan::Absent);
    assert_eq!(plan_variants(Some(b"abc"), ABC_SUM), VariantPlan::Analyze);
    assert_eq!(plan_variants(Some(b"ab"), ABC_SUM), VariantPlan::Changed);
    assert_eq!(variant_rates(), [ManiaGameMod::Dt, ManiaGameMod::Ht]);
}

#[test]
fn an_analyzed_file_is_passed_over_until_it_changes() {
    let text = "[General]\nMode:3\n[Metadata]\nBeatmapID:7\n[Difficulty]\nCircleSize:4\n[HitObjects]\n64,192,0,1,0\n64,192,500,1,0\n";
    let stored = ManiaAnalyzer::new().analyze_bytes(text.as_bytes()).unwrap().0.checksum;
    let changed = text.replace("500", "600");
    assert!(already_analyzed(text.as_bytes(), Some(&stored)));
    assert!(!already_analyzed(changed.as_bytes(), Some(&stored)));
    assert_eq!(plan_source(Some(&stored), text.as_bytes()), SourcePlan::Analyze);
    assert_eq!(plan_source(Some(&stored), changed.as_bytes()), SourcePlan::Changed);
}

#[test]
fn outcomes_are_tallied() {
    let outcomes = [
        ManiaReanalysisOutcome::Stored,
        ManiaReanalysisOutcome::Skipped,
        ManiaReanalysisOutcome::Unchanged,
        outcome_of_error(&ManiaAnalyzeError::UnsupportedKeyCount(5)),
        outcome_of_error(&ManiaAnalyzeError::UnsupportedMode(0)),
        outcome_of_error(&ManiaAnalyzeError::Invalid("no".into())),
    ];
    let tally = tally_outcomes(&outcomes);
    let expected = ScanTally { inserted: 1, skipped: 2, unsupported: 1, failed: 2 };
    assert_eq!(tally, expected);
    assert_eq!(tally.eligible(), 3);

    let mut patterns = PatternTally::new();
    patterns.count(PatternOutcome::Inserted);
    patterns.count(PatternOutcome::Skipped);
    patterns.count(PatternOutcome::MissingRaw);
    assert!(patterns.succeeded());
    patterns.count(PatternOutcome::Failed);
    assert!(!patterns.succeeded());
    assert_eq!(patterns, PatternTally { inserted: 1, skipped: 1, missing_raw: 1, failed: 1 });
}

#[test]
fn progress_is_told_every_thousand_files_and_at_the_end() {
    assert!(progress_due(1000, 2500));
    assert!(progress_due(2500, 2500));
    assert!(!progress_due(1, 2500));
}

fn rows() -> Vec<HealthRow> {
    let row = |key_count, difficulty_band, mode_family| HealthRow {
        key_count,
        difficulty_band,
        mode_family,
    };
    vec![
        row(4, 0, ManiaModeFamily::Rc),
        row(4, 9, ManiaModeFamily::Ln),
        row(7, 9, ManiaModeFamily::Hb),
        row(6, 3, ManiaModeFamily::Rc),
    ]
}

#[test]
fn a_healthy_store_is_counted() {
    let counts = ScanCounts { eligible: 4, unsupported: 2, failed: 0 };
    let report = check_health(1, 1, &rows(), counts, [4, 4, 4]).unwrap();
    assert_eq!(report.keys, [2, 1, 1]);
    assert_eq!(report.bands, [1, 0, 0, 1, 0, 0, 0, 0, 0, 2]);
    assert_eq!(report.families, [2, 1, 0, 1]);
    assert_eq!(report.keys.iter().sum::<usize>(), counts.eligible);
    assert_eq!(report.bands.iter().sum::<usize>(), counts.eligible);
    assert_eq!(report.families.iter().sum::<usize>(), counts.eligible);
}

#[test]
fn each_fault_of_a_store_is_found() {
    let counts = ScanCounts { eligible: 4, unsupported: 2, failed: 0 };
    let fault = |version, rows: &[HealthRow], counts, records| {
        check_health(1, version, rows, counts, records).unwrap_err()
    };
    assert_eq!(fault(2, &rows(), counts, [0; 3]), HealthFault::NormalizerVersion);
    assert_eq!(
        fault(1, &rows(), ScanCounts { eligible: 5, ..counts }, [0; 3]),
        HealthFault::Eligible { eligible: 5, count: 4 }
    );
    assert_eq!(
        fault(1, &rows(), ScanCounts { failed: 1, ..counts }, [0; 3]),
        HealthFault::Failed(1)
    );
    let mut odd = rows();
    odd[1].key_count = 5;
    assert_eq!(fault(1, &odd, counts, [0; 3]), HealthFault::KeyCount(5));
    assert_eq!(
        fault(1, &rows(), counts, [5, 4, 4]),
        HealthFault::PatternRecords { total: 13, count: 4 }
    );
}

#[test]
fn downloads_are_followed() {
    let mut batch = DownloadBatch::new(3);
    batch.handle(PackEvent::Started { pack_id: "S1".into() });
    batch.handle(PackEvent::Progress { pack_id: "S2".into(), downloaded_bytes: 100 });
    batch.handle(PackEvent::Progress { pack_id: "S1".into(), downloaded_bytes: 10 });
    batch.handle(PackEvent::Progress { pack_id: "S2".into(), downloaded_bytes: 150 });
    assert_eq!((batch.active(), batch.finished(), batch.packs()), (2, 0, 3));
    assert_eq!(batch.staged_bytes(), 160);
    batch.handle(PackEvent::Finished { pack_id: "S2".into() });
    assert_eq!((batch.active(), batch.finished()), (1, 1));
    assert_eq!(batch.staged_bytes(), 160);
    batch.handle(PackEvent::Finished { pack_id: "S3".into() });
    assert_eq!((batch.active(), batch.finished()), (1, 2));
    batch.handle(PackEvent::Progress { pack_id: "S2".into(), downloaded_bytes: 5 });
    assert_eq!(batch.staged_bytes(), 165);
}

#[test]
fn reports_of_packs_are_read_by_their_first_mark() {
    assert_eq!(pack_status(true, true, true), PackStatus::Downloaded);
    assert_eq!(pack_status(false, true, true), PackStatus::AlreadyComplete);
    assert_eq!(pack_status(false, false, true), PackStatus::Skipped);
    assert_eq!(pack_status(false, false, false), PackStatus::Failed);
}
