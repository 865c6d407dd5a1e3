use osu_difficulty_lab::board::ChartError;
use osu_difficulty_lab::chart::NoteType;
use osu_difficulty_lab::clustering::{PatternCluster, SCALE};
use osu_difficulty_lab::finder::Subtype;
use osu_difficulty_lab::mma::{analyze, lightweight_metadata, ManiaMmaAnalysis, MmaError};
use osu_difficulty_lab::parser::{kv, parse_osu_mania, parse_sections, section};
use osu_difficulty_lab::rate::{line_starts_with_number, transform_rate, RateError};
use osu_difficulty_lab::summary::resolve_mode;
use osu_difficulty_lab::types::{ManiaGameMod, ManiaModeFamily, ManiaPattern, Ratio};
use osu_difficulty_lab::velocity::{sv_time, Speed, HUNDRED};
use osu_difficulty_lab::wide::Wide;

const MILLISECOND: i128 = 1_000_000_000_000;

fn value(r: Ratio) -> f64 {
    r.num as f64 / r.den as f64
}

fn importance(cluster: &PatternCluster) -> Ratio {
    let num = cluster.importance.digits.iter().rev().fold(0, |sum: i128, d| (sum << 32) + *d as i128);
    Ratio { num, den: SCALE }
}

fn near(r: Ratio, expected: f64) -> bool {
    (value(r) - expected).abs() < 1e-9
}

fn file(keys: &str, points: &str, objects: &str) -> String {
    format!("osu file format v14\n\n[General]\nMode: 3\n\n[Difficulty]\nCircleSize:{keys}\n\n[TimingPoints]\n{points}\n\n[HitObjects]\n{objects}\n")
}

fn rows(rows: &[&[usize]]) -> String {
    let mut lines = Vec::new();
    for (n, columns) in rows.iter().enumerate() {
        for c in *columns {
            lines.push(format!("{},192,{},1,0,0:0:0:0:", c * 128 + 64, 1000 + 100 * n));
        }
    }
    file("4", "0,400,4,1,0,100,1,0", &lines.join("\n"))
}

fn singles(columns: &[usize], count: usize) -> String {
    let all: Vec<Vec<usize>> = (0..count).map(|n| vec![columns[n % columns.len()]]).collect();
    let slices: Vec<&[usize]> = all.iter().map(|v| v.as_slice()).collect();
    rows(&slices)
}

fn told(text: &str) -> ManiaMmaAnalysis {
    analyze(text, ManiaGameMod::Nm).unwrap()
}

#[test]
fn a_stream_is_told_by_its_core_pattern() {
    let analysis = told(&singles(&[0, 1, 2], 21));
    let report = &analysis.report;
    assert_eq!(analysis.key_count, 4);
    assert_eq!(report.category, "Stream");
    assert_eq!(report.mode, ManiaModeFamily::Rc);
    assert_eq!(report.duration, Some(2000));
    assert_eq!(report.sv_amount, Some(Wide::zero()));
    assert_eq!(value(report.ln_percent), 0.0);
    assert_eq!(value(report.hb_row_ratio), 0.0);
    assert_eq!(report.patterns.len(), 16);
    assert!(report.patterns.iter().all(|p| p.pattern == ManiaPattern::Stream
        && p.specific_type.is_none()
        && !p.mixed
        && p.ms_per_beat == 24_000));
    assert_eq!(report.clusters.len(), 1);
    let cluster = &report.clusters[0];
    assert_eq!((cluster.bpm, cluster.mixed, cluster.amount), (150, false, 1900));
    assert!(near(cluster.rating_multiplier, 1.0 / 3.0));
    assert!(near(importance(cluster), 95_000.0));
    assert!(cluster.specific_types.is_empty());
    assert_eq!(cluster.format(Ratio { num: 1, den: 1 }), "150BPM Stream");
    assert_eq!(cluster.format(Ratio { num: 3, den: 2 }), "225BPM Stream");
    assert_eq!(cluster.format(Ratio { num: -3, den: 2 }), "-225BPM Stream");
    assert_eq!(cluster.format(Ratio { num: -1, den: 1000 }), "0BPM Stream");
    assert_eq!(report.important_clusters().len(), 1);
    let features = &analysis.features;
    assert!(near(features.coverage[0], 0.95));
    assert!(features.coverage[1..].iter().all(|c| value(*c) == 0.0));
    assert_eq!((features.note_count, features.row_count), (21, 21));
    assert!(near(features.avg_nps, 10.5));
    assert!(near(features.unclassified, 0.05));
    assert_eq!(value(features.chord_rate), 0.0);
    assert_eq!(features.bars.len(), 1);
    assert_eq!((features.bars[0].amount, features.bars[0].bpm), (1900, 150));
    assert!(near(features.bars[0].relative, 1.0));
}

#[test]
fn minitrills_are_counted_among_the_stretches() {
    let analysis = told(&singles(&[0, 1, 2, 3, 2, 1], 25));
    assert_eq!(analysis.report.category, "Minitrills");
    let cluster = &analysis.report.clusters[0];
    assert_eq!(cluster.specific_types.len(), 1);
    let (kind, share) = cluster.specific_types[0];
    assert_eq!(kind, Subtype::Minitrills);
    assert!(near(share, 7.0 / 13.0));
    assert_eq!(cluster.amount, 2200);
    assert!(near(importance(cluster), 110_000.0));
    assert_eq!(cluster.format(Ratio { num: 3, den: 4 }), "113BPM Minitrills");
}

#[test]
fn jumpstreams_are_told_by_their_kind() {
    let cycle: [&[usize]; 8] = [&[0, 1], &[2], &[0, 3], &[1], &[2, 3], &[0], &[1, 2], &[3]];
    let all: Vec<&[usize]> = (0..17).map(|n| cycle[n % 8]).collect();
    let analysis = told(&rows(&all));
    assert_eq!(analysis.report.category, "Jumpstream");
    assert_eq!(analysis.report.patterns.len(), 6);
    let cluster = &analysis.report.clusters[0];
    assert_eq!(cluster.pattern, ManiaPattern::Chordstream);
    assert_eq!((cluster.bpm, cluster.amount), (150, 1400));
    assert!(near(importance(cluster), 136_500.0));
    assert!(near(cluster.specific_types[0].1, 1.0));
    assert!(near(analysis.features.chord_rate, 9.0 / 17.0));
    assert!(near(analysis.features.coverage[1], 1400.0 / 1600.0));
}

#[test]
fn uneven_stretches_are_mixed() {
    let mut lines = Vec::new();
    let mut time = 1000;
    for n in 0..30 {
        lines.push(format!("{},192,{time},1,0,0:0:0:0:", [64, 192, 320][n % 3]));
        time += if n % 2 == 0 { 80 } else { 140 };
    }
    let analysis = told(&file("4", "0,400,4", &lines.join("\n")));
    assert!(analysis.report.clusters[0].mixed);
    assert_eq!(analysis.report.category, "Stream Tech");
    assert!(analysis.report.clusters[0].format(Ratio { num: 1, den: 1 }).starts_with("~"));
}

#[test]
fn repeated_notes_of_one_column_show_no_pattern() {
    let analysis = told(&singles(&[0], 20));
    assert_eq!(analysis.report.category, "Uncategorised");
    assert!(analysis.report.clusters.is_empty());
    assert!(analysis.report.important_clusters().is_empty());
    assert!(analysis.features.bars.is_empty());
    assert!(near(analysis.features.unclassified, 1.0));
}

#[test]
fn charts_of_holds_are_of_their_own_mode() {
    let lines: Vec<String> = (0..24)
        .map(|n| {
            let start = 1000 + 150 * n;
            format!("{},192,{start},128,0,{}:0:0:0:0:", [64, 192, 320, 448][n % 4], start + 300)
        })
        .collect();
    let analysis = told(&file("4", "0,400,4", &lines.join("\n")));
    assert_eq!(analysis.report.mode, ManiaModeFamily::Ln);
    assert!(near(analysis.report.ln_percent, 1.0));
    assert!(value(analysis.features.coverage[3]) > 0.5);
    assert_eq!(analysis.features.note_count, 24);
}

#[test]
fn hybrid_rows_make_a_mixed_chart_hybrid() {
    let tenth = Ratio { num: 1, den: 10 };
    let half = Ratio { num: 1, den: 2 };
    assert_eq!(resolve_mode(half, tenth), ManiaModeFamily::Hb);
    assert_eq!(resolve_mode(half, Ratio { num: 9, den: 100 }), ManiaModeFamily::Mix);
    assert_eq!(resolve_mode(tenth, half), ManiaModeFamily::Rc);
    assert_eq!(resolve_mode(Ratio { num: 9, den: 10 }, half), ManiaModeFamily::Ln);
}

#[test]
fn coverage_stays_a_share_at_each_clock_rate() {
    let text = singles(&[0, 1, 2, 3, 2, 1], 60);
    for game_mod in [ManiaGameMod::Nm, ManiaGameMod::Dt, ManiaGameMod::Ht] {
        let analysis = analyze(&text, game_mod).unwrap();
        assert!(analysis.features.coverage.iter().all(|c| (0.0..=1.0).contains(&value(*c))));
        assert!(analysis.features.coverage.iter().map(|c| value(*c)).sum::<f64>() > 0.0);
    }
}

#[test]
fn clock_rates_are_analyzed_on_their_own() {
    let text = singles(&[0, 1, 2], 121);
    let plain = analyze(&text, ManiaGameMod::Nm).unwrap();
    let fast = analyze(&text, ManiaGameMod::Dt).unwrap();
    let slow = analyze(&text, ManiaGameMod::Ht).unwrap();
    assert!(value(fast.features.peak_nps) > value(plain.features.peak_nps));
    assert!(value(slow.features.peak_nps) < value(plain.features.peak_nps));
    assert_eq!(plain.report.duration, Some(12_000));
    assert_eq!(fast.report.duration, Some(8_000));
    assert_eq!(slow.report.duration, Some(16_000));
    assert_eq!(fast.report.clusters[0].bpm, 225);
    assert_eq!(slow.report.clusters[0].bpm, 113);
}

#[test]
fn each_refusal_of_a_file_has_its_reason() {
    let note = "64,192,1000,1,0,0:0:0:0:";
    let point = "0,400,4";
    let good = file("4", point, note);
    let refused = |text: &str| analyze(text, ManiaGameMod::Nm).unwrap_err();
    assert!(matches!(refused(&good.replace("Mode: 3", "Mode: 1")), MmaError::OtherMode));
    assert!(matches!(refused(&good.replace("CircleSize", "Size")), MmaError::NoKeyCount));
    assert!(matches!(refused(&file("5", point, note)), MmaError::UnsupportedKeyCount(5)));
    assert!(matches!(
        refused(&file("3.6", point, note)),
        MmaError::KeyCountChanged { said: 4, found: 3 }
    ));
    assert!(matches!(
        analyze(&file("4", point, ""), ManiaGameMod::Dt).unwrap_err(),
        MmaError::NoHitObjects
    ));
    assert!(matches!(refused(&file("4", point, "")), MmaError::Chart(ChartError::NoNotes)));
    assert!(matches!(
        refused(&file("4", "0,-100,4,1,0,100,0,0", note)),
        MmaError::Chart(ChartError::NoBpmPoints)
    ));
    let hold = "64,192,1000,128,0,2000:0:0:0:0:";
    assert!(matches!(
        refused(&file("4", point, &format!("{hold}\n64,192,1500,1,0,0:0:0:0:"))),
        MmaError::Chart(ChartError::StackedNote {
            time: Some(1500),
            column: 1,
            kind: NoteType::HoldBody
        })
    ));
    assert!(matches!(
        refused(&file("4", point, &format!("{hold}\n64,192,1500,128,0,1800:0:0:0:0:"))),
        MmaError::Chart(ChartError::StackedHold {
            time: Some(1500),
            column: 1,
            kind: NoteType::HoldBody
        })
    ));
    let early = "64,192,1000,128,0,1500:0:0:0:0:\n192,192,2000,1,0,0:0:0:0:\n64,192,1200,128,0,1300:0:0:0:0:";
    assert!(matches!(
        refused(&file("4", point, early)),
        MmaError::Chart(ChartError::TailConflict)
    ));
}

#[test]
fn files_are_moved_to_another_clock_rate() {
    let text = "[TimingPoints]\n1000,450,4\n1300,-50,4\nlater,450\n\n[HitObjects]\n64,192,1000,1,0\n192,192,1301,128,0,1600:0:0\n[Events]\n2,1000,1600\n0,1000,1600\n";
    assert_eq!(transform_rate(text, ManiaGameMod::Nm.rate()).unwrap(), text);
    assert_eq!(
        transform_rate(text, ManiaGameMod::Dt.rate()).unwrap(),
        "[TimingPoints]\n1000,300,4\n1200,-50,4\nNaN,300\n\n[HitObjects]\n64,192,1000,1,0\n192,192,1200,128,0,1400:0:0\n[Events]\n2,1000,1400\n0,1000,1600\n"
    );
    assert_eq!(
        transform_rate(text, ManiaGameMod::Ht.rate()).unwrap(),
        "[TimingPoints]\n1000,600,4\n1400,-50,4\nNaN,600\n\n[HitObjects]\n64,192,1000,1,0\n192,192,1401,128,0,1800:0:0\n[Events]\n2,1000,1800\n0,1000,1600\n"
    );
    let bare = "[HitObjects]\nx,192,0,1,0\n";
    assert_eq!(
        transform_rate(bare, ManiaGameMod::Dt.rate()),
        Err(RateError::NoHitObjects)
    );
    assert_eq!(transform_rate(bare, Ratio { num: 7, den: 7 }).unwrap(), bare);
}

#[test]
fn any_positive_clock_rate_will_do() {
    let text = "[TimingPoints]\n0,500,4\n0,-100,4\n[HitObjects]\n64,192,0,1,0\n64,192,1000,1,0";
    assert_eq!(
        transform_rate(text, Ratio { num: 11, den: 10 }).unwrap(),
        "[TimingPoints]\n1000,454.545454545454,4\n1000,-100,4\n[HitObjects]\n64,192,1000,1,0\n64,192,1909,1,0"
    );
    assert_eq!(
        transform_rate(text, Ratio { num: 1, den: 1_000_000_000 }).unwrap(),
        "[TimingPoints]\n1000,500000000000,4\n1000,-100,4\n[HitObjects]\n64,192,1000,1,0\n64,192,1000000001000,1,0"
    );
    for wrong in [
        Ratio { num: 0, den: 1 },
        Ratio { num: -3, den: 2 },
        Ratio { num: 1, den: 0 },
        Ratio { num: 1, den: -1 },
    ] {
        assert_eq!(transform_rate(text, wrong), Err(RateError::InvalidRate));
        assert_eq!(transform_rate("", wrong), Err(RateError::InvalidRate));
    }
}

#[test]
fn late_files_are_moved_too() {
    let moved = |text: &str| transform_rate(text, ManiaGameMod::Dt.rate());
    assert_eq!(
        moved("[HitObjects]\n64,192,1000000000000000,1,0").unwrap(),
        "[HitObjects]\n64,192,1000,1,0"
    );
    assert_eq!(
        moved("[HitObjects]\n64,192,9000000000000000,1,0\n64,192,9000000000000300,1,0").unwrap(),
        "[HitObjects]\n64,192,1000,1,0\n64,192,1200,1,0"
    );
    assert_eq!(
        moved("[HitObjects]\n64,192,1e300,1,0\n64,192,-inf,1,0\n64,192,1e400,1,0").unwrap(),
        "[HitObjects]\n64,192,1000,1,0\n64,192,-inf,1,0\n64,192,inf,1,0"
    );
    assert_eq!(
        moved("[TimingPoints]\nnan,infinity,4\n0,-inf\n[HitObjects]\n64,192,0,1,0").unwrap(),
        "[TimingPoints]\nNaN,inf,4\n1000,-inf\n[HitObjects]\n64,192,1000,1,0"
    );
    for text in ["inf", "-1e999", "nan", "soon", ""] {
        assert_eq!(
            moved(&format!("[HitObjects]\n64,192,{text},1,0\n64,192,0,1,0")),
            Err(RateError::NoHitObjects),
            "{text}"
        );
    }
}

#[test]
fn notes_without_times_join_a_row() {
    let file = |objects: &str| {
        format!(
            "osu file format v14\n\n[General]\nMode: 3\n\n[Difficulty]\nCircleSize:4\n\n[TimingPoints]\n0,500,4,1,0,100,1,0\n\n[HitObjects]\n{objects}\n"
        )
    };
    let untimed = file("64,192,soon,1,0\n192,192,1000,1,0\n320,192,2000,1,0");
    let chart = parse_osu_mania(&untimed).unwrap();
    assert!(!chart.timed);
    assert_eq!(chart.notes.len(), 1);
    assert_eq!(
        chart.notes[0].data,
        [
            NoteType::Normal,
            NoteType::Normal,
            NoteType::Normal,
            NoteType::Nothing
        ]
    );
    let analysis = analyze(&untimed, ManiaGameMod::Nm).unwrap();
    assert_eq!(analysis.report.duration, None);
    assert!(analysis.report.patterns.is_empty());
    assert_eq!(analysis.features.note_count, 3);
    assert!(matches!(
        analyze(&untimed, ManiaGameMod::Dt).unwrap_err(),
        MmaError::NoHitObjects
    ));
    assert!(matches!(
        parse_osu_mania(&file("64,192,nan,1,0\n192,192,1000,128,0,2000:0")),
        Err(ChartError::TailConflict)
    ));
    let later = parse_osu_mania(&file("64,192,0,1,0\n192,192,soon,1,0\n320,192,100,1,0")).unwrap();
    assert!(later.timed);
    let times: Vec<i64> = later.notes.iter().map(|row| row.time).collect();
    assert_eq!(times, [0, 100]);
    assert_eq!(later.notes[0].data[1], NoteType::Normal);
}

#[test]
fn lines_are_kept_at_each_clock_rate() {
    let text = "osu file format v14\r\n\r\n[Events]\n//x\n2,0,10\nBreak,5,6\n[TimingPoints]\n0,500\n\n[HitObjects]\n64,192,0,1,0\n64,192\n\n";
    for (num, den) in [(3, 2), (3, 4), (2, 1), (1, 1), (999, 1000)] {
        let moved = transform_rate(text, Ratio { num, den }).unwrap();
        assert_eq!(moved.split('\n').count(), text.split('\n').count());
    }
}

#[test]
fn charts_may_be_late() {
    let late = |start: i64| {
        let lines: Vec<String> = (0..60)
            .map(|i: i64| {
                let x = [64, 192, 320, 448][(i % 4) as usize];
                format!("{x},192,{},1,0,0:0:0:0:", start + 90 * i)
            })
            .collect();
        format!(
            "osu file format v14\n\n[General]\nMode: 3\n\n[Difficulty]\nCircleSize:4\n\n[TimingPoints]\n{start},360,4,1,0,100,1,0\n\n[HitObjects]\n{}\n",
            lines.join("\n")
        )
    };
    let early = analyze(&late(0), ManiaGameMod::Nm).unwrap();
    for start in [-7_000_000_000_000_000, 1234, 1_000_000_000_000_000, 9_000_000_000_000_000] {
        let moved = analyze(&late(start), ManiaGameMod::Nm).unwrap();
        assert_eq!(format!("{early:?}"), format!("{moved:?}"), "{start}");
    }
}

#[test]
fn holds_stand_from_their_heads_to_their_tails() {
    let text = "osu file format v14\n\n[General]\nMode: 3\n\n[Difficulty]\nCircleSize:4\n\n[TimingPoints]\n0,500,4,1,0,100,1,0\n\n[HitObjects]\n64,192,0,128,0,300:0:0:0:0:\n192,192,100,1,0,0:0:0:0:\n320,192,200,128,0,300:0:0:0:0:\n448,192,400,1,0,0:0:0:0:\n";
    let chart = parse_osu_mania(text).unwrap();
    let column = |c: usize| -> Vec<NoteType> { chart.notes.iter().map(|row| row.data[c]).collect() };
    let times: Vec<i64> = chart.notes.iter().map(|row| row.time).collect();
    assert_eq!(times, [0, 100, 200, 300, 400]);
    assert_eq!(
        column(0),
        [
            NoteType::HoldHead,
            NoteType::HoldBody,
            NoteType::HoldBody,
            NoteType::HoldTail,
            NoteType::Nothing
        ]
    );
    assert_eq!(
        column(2),
        [
            NoteType::Nothing,
            NoteType::Nothing,
            NoteType::HoldHead,
            NoteType::HoldTail,
            NoteType::Nothing
        ]
    );
}

fn chars(text: &str) -> Vec<char> {
    text.chars().collect()
}

#[test]
fn lines_of_numbers_are_recognized() {
    assert!(line_starts_with_number(&chars("  64,192")));
    assert!(!line_starts_with_number(&chars("-64,192")));
    assert!(!line_starts_with_number(&chars("64 ,192")));
    assert!(!line_starts_with_number(&chars(",192")));
}

#[test]
fn sections_are_read_from_a_file() {
    let text = chars("stray\n[A]\n k : v \n// note\nplain\n\n[B]\n[A]\nk:w\n");
    let all = parse_sections(&text);
    assert_eq!(all.len(), 3);
    let lines = section(&all, "A");
    let read: Vec<String> = lines.iter().map(|l| l.iter().collect()).collect();
    assert_eq!(read, ["k : v", "plain"]);
    assert_eq!(kv(lines, "k"), Some(&['v'][..]));
    assert_eq!(kv(lines, "plain"), None);
    assert!(section(&all, "C").is_empty());
    let meta = lightweight_metadata(&chars("[General]\nMode:3\n[Difficulty]\nCircleSize:6.5\n"));
    assert_eq!((meta.mode, meta.key_count), (Some(3), Some(7)));
}

#[test]
fn charts_are_read_from_files() {
    let text = file(
        "4",
        "0,400,4",
        "64,192,1000.9,1,0\n448,192,1000,128,0,1200:0:0\n192,192,1100,1,0\n192,192,1100,1,0",
    );
    let chart = parse_osu_mania(&text).unwrap();
    assert_eq!(chart.keys, 4);
    let seen: Vec<(i64, Vec<NoteType>)> =
        chart.notes.iter().map(|r| (r.time, r.data.clone())).collect();
    assert_eq!(
        seen,
        [
            (1000, vec![NoteType::Normal, NoteType::Nothing, NoteType::Nothing, NoteType::HoldHead]),
            (1100, vec![NoteType::Nothing, NoteType::Normal, NoteType::Nothing, NoteType::HoldBody]),
            (1200, vec![NoteType::Nothing, NoteType::Nothing, NoteType::Nothing, NoteType::HoldTail]),
        ]
    );
    assert_eq!((chart.first_note(), chart.last_note(), chart.duration()), (1000, 1200, 200));
    assert_eq!(chart.bpm.len(), 1);
    assert_eq!(chart.bpm[0].data.ms_per_beat, 400 * MILLISECOND);
    let plain = parse_osu_mania("[HitObjects]\n-10,0,-0.5,1,0\n").unwrap();
    assert_eq!((plain.keys, plain.first_note()), (4, -1));
    assert_eq!(plain.bpm[0].data.ms_per_beat, 500 * MILLISECOND);
}

fn velocities(points: &str) -> Option<i128> {
    let notes = "64,192,1000,1,0\n64,192,10000,1,0";
    sv_time(&parse_osu_mania(&file("4", points, notes)).unwrap()).map(|t| t.to_i128().unwrap())
}

#[test]
fn unusual_scroll_speeds_are_added_up() {
    let usual = "0,500,4,1,0,100,1,0";
    let at = |time: i64, beat: i64| format!("{time},{beat},4,1,0,100,0,0");
    assert_eq!(velocities(usual), Some(0));
    assert_eq!(
        velocities(&[usual.to_string(), at(2000, -50), at(3000, -100)].join("\n")),
        Some(0)
    );
    assert_eq!(
        velocities(
            &[usual.to_string(), at(2000, -50), at(3000, -100), at(4000, -50), at(5000, -100)]
                .join("\n")
        ),
        Some(2000 * MILLISECOND)
    );
    assert_eq!(
        velocities(
            &[usual.to_string(), at(2000, -98), at(3000, -100), at(4000, -97), at(5000, -100)]
                .join("\n")
        ),
        Some(0)
    );
    let extreme = "9950,100,4,1,0,100,1,0".to_string();
    assert_eq!(
        velocities(
            &[
                usual.to_string(),
                at(2000, -50),
                at(2100, -100),
                at(4000, -50),
                at(4100, -100),
                extreme
            ]
            .join("\n")
        ),
        Some(2001 * MILLISECOND)
    );
}

fn speeds(points: &str) -> Vec<(Option<i128>, Speed)> {
    let chart = parse_osu_mania(&file("4", points, "64,192,0,1,0\n64,192,1000,1,0")).unwrap();
    chart.sv.iter().map(|item| (item.time, item.data)).collect()
}

fn tempo(common: i128, beat: i128) -> Speed {
    Speed {
        tempo: Ratio { num: common * MILLISECOND, den: beat * MILLISECOND },
        factor: -HUNDRED,
    }
}

#[test]
fn a_tempo_that_cannot_be_told_ends_the_search() {
    assert_eq!(
        speeds("soon,500,4\n100,250,4"),
        [(Some(100 * MILLISECOND), tempo(500, 250))]
    );
    assert_eq!(
        speeds("0,500,4\n100,250,4\nlater,125,4\n900,1000,4"),
        [
            (Some(100 * MILLISECOND), tempo(500, 250)),
            (None, tempo(500, 125)),
            (Some(900 * MILLISECOND), tempo(500, 1000))
        ]
    );
    assert_eq!(
        speeds("0,500,4\n100,250,4"),
        [(Some(0), tempo(250, 500)), (Some(100 * MILLISECOND), tempo(250, 250))]
    );
}

#[test]
fn extreme_speeds_are_told_apart() {
    let found = speeds("0,500,4\n100,-0.0000000001,4,1,0,100,0\n200,-0.00000000001,4,1,0,100,0\n300,-0.000000000011,4,1,0,100,0");
    let factors: Vec<i128> = found.iter().map(|(_, speed)| speed.factor).collect();
    assert_eq!(factors, [-100, -10, -11]);
    let close = speeds("0,500,4\n100,-99.6,4,1,0,100,0\n200,-99,4,1,0,100,0\n300,99,4,1,0,100,0");
    let factors: Vec<i128> = close.iter().map(|(_, speed)| speed.factor / MILLISECOND).collect();
    assert_eq!(factors, [-99, 99]);
}

#[test]
fn a_clock_rate_is_that_of_the_moved_file() {
    let text = singles(&[0, 1, 2, 3, 2, 1], 60);
    for game_mod in [ManiaGameMod::Dt, ManiaGameMod::Ht] {
        let moved = transform_rate(&text, game_mod.rate()).unwrap();
        assert_ne!(moved, text);
        assert_eq!(
            format!("{:?}", analyze(&text, game_mod).unwrap()),
            format!("{:?}", analyze(&moved, ManiaGameMod::Nm).unwrap())
        );
    }
}
