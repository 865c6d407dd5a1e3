use osu_difficulty_lab::binary32::Binary32;
use osu_difficulty_lab::record::{
    categories_differ, display_category, is_sv, labels_of, share_of, validate_record, ManiaMmaBar,
    ManiaMmaCluster, ManiaMmaRecord, RecordFault,
};
use osu_difficulty_lab::storage::{plan_mma, AppendPlan};
use osu_difficulty_lab::types::ManiaGameMod;

fn number(value: f32) -> Binary32 {
    Binary32 { bits: value.to_bits() }
}

fn sample() -> ManiaMmaRecord {
    ManiaMmaRecord {
        beatmap_id: 1,
        beatmapset_id: 1,
        game_mod: ManiaGameMod::Nm,
        key_count: 4,
        mode_tag: "RC".into(),
        category: "Jumpstream".into(),
        dominant_pattern: "Chordstream".into(),
        ln_note_ratio: number(0.0),
        hb_row_ratio: number(0.0),
        sv_amount: number(0.0),
        duration_seconds: number(90.0),
        coverage: [number(0.5); 6],
        clusters: vec![ManiaMmaCluster {
            pattern: "Chordstream".into(),
            specific_types: vec![("Jumpstream".into(), number(0.5))],
            rating_multiplier: number(0.65),
            bpm: 180,
            mixed: false,
            amount: number(1000.0),
            importance: number(117.0),
        }],
        bars: vec![ManiaMmaBar {
            pattern: "Chordstream".into(),
            amount: number(1000.0),
            bpm: number(180.0),
            relative: number(1.0),
            specific_types: vec![("Jumpstream".into(), number(0.5))],
        }],
        subtypes: vec![("Jumpstream".into(), number(0.25))],
        intensity: [number(10.0); 4],
        temporal: [number(0.5); 3],
        variation: [number(0.1); 6],
        note_count: 900,
        row_count: 700,
        avg_nps: number(10.0),
        peak_nps: number(12.0),
        chord_rate: number(0.3),
        large_chord_rate: number(0.1),
        unclassified: number(0.2),
        algorithm_version: 2,
    }
}

#[test]
fn sound_records_are_accepted_once() {
    let record = sample();
    assert_eq!(validate_record(&record), Ok(()));
    assert_eq!(plan_mma(&record, "sum", None), Ok(AppendPlan::Append));
    assert_eq!(plan_mma(&record, "sum", Some("sum")), Ok(AppendPlan::Skip));
    assert_eq!(plan_mma(&record, "sum", Some("older")), Ok(AppendPlan::Append));
}

#[test]
fn each_fault_of_a_record_is_found() {
    let fault = |change: fn(&mut ManiaMmaRecord)| {
        let mut record = sample();
        change(&mut record);
        validate_record(&record).unwrap_err()
    };
    assert_eq!(fault(|r| r.algorithm_version = 1), RecordFault::AlgorithmVersion);
    assert_eq!(fault(|r| r.key_count = 5), RecordFault::KeyCount);
    assert_eq!(fault(|r| r.mode_tag = "rc".into()), RecordFault::ModeTag);
    assert_eq!(fault(|r| r.category = String::new()), RecordFault::EmptyCategory);
    assert_eq!(fault(|r| r.coverage[5] = number(1.01)), RecordFault::Coverage);
    assert_eq!(fault(|r| r.coverage[0] = number(f32::NAN)), RecordFault::Coverage);
    assert_eq!(fault(|r| r.ln_note_ratio = number(-0.5)), RecordFault::Summary);
    assert_eq!(fault(|r| r.hb_row_ratio = number(2.0)), RecordFault::Summary);
    assert_eq!(fault(|r| r.sv_amount = number(f32::INFINITY)), RecordFault::Summary);
    assert_eq!(fault(|r| r.sv_amount = number(-1.0)), RecordFault::Summary);
    assert_eq!(fault(|r| r.duration_seconds = number(0.0)), RecordFault::Summary);
    assert_eq!(fault(|r| r.intensity[3] = number(f32::NAN)), RecordFault::Derived);
    assert_eq!(fault(|r| r.unclassified = number(f32::NEG_INFINITY)), RecordFault::Derived);
    assert_eq!(fault(|r| r.subtypes[0].1 = number(1.5)), RecordFault::SubtypeRatio);
    assert_eq!(fault(|r| r.bars[0].specific_types[0].1 = number(-1.0)), RecordFault::SubtypeRatio);
    assert_eq!(fault(|r| r.clusters[0].pattern = "Jumps".into()), RecordFault::Cluster);
    assert_eq!(fault(|r| r.clusters[0].amount = number(f32::NAN)), RecordFault::Cluster);
    assert_eq!(
        RecordFault::Coverage.message(),
        "mania key-pattern coverage must stay within 0..=1"
    );
}

#[test]
fn charts_are_told_by_velocity_from_two_thousand_on() {
    let mut record = sample();
    assert!(!is_sv(&record));
    assert_eq!(display_category(&record), "Jumpstream");
    record.sv_amount = number(1999.9999);
    assert!(!is_sv(&record));
    record.sv_amount = number(2000.0);
    assert!(is_sv(&record));
    assert_eq!(display_category(&record), "SV");
    record.sv_amount = number(f32::NAN);
    assert!(!is_sv(&record));
    record.sv_amount = number(-3000.0);
    assert!(!is_sv(&record));
}

#[test]
fn labels_are_joined_in_order() {
    let shares = |names: &[&str]| -> Vec<(String, Binary32)> {
        names.iter().map(|n| (n.to_string(), number(0.5))).collect()
    };
    let labels = labels_of(
        &shares(&["Trills", "Rolls", "Trills"]),
        &shares(&["Jumpstream", "Rolls", "Trill"]),
    );
    let texts: Vec<String> = labels.iter().map(|l| l.iter().collect()).collect();
    assert_eq!(texts, ["Jumpstream", "Rolls", "Trill", "Trills"]);
    let list = vec![("a".to_string(), number(0.5)), ("a".to_string(), number(0.75))];
    assert_eq!(share_of(&list, &['a']), Some(number(0.5)));
    assert_eq!(share_of(&list, &['b']), None);
}

#[test]
fn categories_are_compared_as_they_are_stored() {
    let (a, mut b) = (sample(), sample());
    assert!(!categories_differ(&a, &b));
    b.category = "Jumpstream Tech".into();
    assert!(categories_differ(&a, &b));
}

#[test]
fn bits_of_numbers_are_read_as_the_machine_reads_them() {
    for value in [
        0.0_f32,
        -0.0,
        f32::MIN_POSITIVE / 2.0,
        0.5,
        0.99999994,
        1.0,
        1.0000001,
        1999.9999,
        2000.0,
        2000.0001,
        f32::MAX,
        f32::INFINITY,
        f32::NEG_INFINITY,
        f32::NAN,
        -0.25,
        -5000.0,
    ] {
        let n = number(value);
        assert_eq!(n.is_finite(), value.is_finite(), "{value}");
        assert_eq!(n.is_in_unit(), (0.0..=1.0).contains(&value), "{value}");
        assert_eq!(n.is_non_negative(), value.is_finite() && value >= 0.0, "{value}");
        assert_eq!(n.is_positive(), value.is_finite() && value > 0.0, "{value}");
        assert_eq!(n.reaches_two_thousand(), value >= 2000.0, "{value}");
    }
}
