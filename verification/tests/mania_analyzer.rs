use osu_difficulty_lab::analyzer::{ManiaAnalyzer, ManiaRawFeatureRecord};
use osu_difficulty_lab::beatmap::ManiaAnalyzeError;
use osu_difficulty_lab::strain::StrainRow;
use osu_difficulty_lab::timeline::MS;
use osu_difficulty_lab::types::{ManiaGameMod, Ratio};

const CONFIGS: [(f64, f64, f64); 8] = [
    (220.0, 1600.0, 0.78),
    (260.0, 2200.0, 0.80),
    (300.0, 1800.0, 0.88),
    (260.0, 2400.0, 0.82),
    (450.0, 3200.0, 0.70),
    (1200.0, 10000.0, 0.58),
    (450.0, 4000.0, 0.65),
    (30000.0, 120000.0, 0.35),
];

const SPEED: usize = 0;
const HAND_STREAM: usize = 1;
const JACK: usize = 2;
const CHORDJACK: usize = 3;
const STAMINA: usize = 5;
const LONG_NOTE: usize = 6;

fn ms(parts: i128) -> f64 {
    parts as f64 / MS as f64
}

fn value(r: Ratio) -> f64 {
    r.num as f64 / r.den as f64
}

fn rate(dt: f64, base: f64, offset: f64, power: f64) -> f64 {
    (base / (dt + offset).max(16.0)).powf(power).min(8.0)
}

fn decay(state: f64, input: f64, dt: f64, tau: f64) -> f64 {
    state * (-dt.max(0.0) / tau).exp() + input
}

fn entropy(counts: &[usize], bits: f64) -> f64 {
    let total: usize = counts.iter().sum();
    if total == 0 {
        return 0.0;
    }
    let sum: f64 = counts
        .iter()
        .map(|n| {
            let p = *n as f64 / total as f64;
            -p * p.log2()
        })
        .sum();
    (sum / bits).clamp(0.0, 1.0)
}

fn quantile(sorted: &[f64], q: f64) -> f64 {
    let position = q * (sorted.len() - 1) as f64;
    let (left, right) = (position.floor() as usize, position.ceil() as usize);
    sorted[left] * (1.0 - position.fract()) + sorted[right] * position.fract()
}

fn aggregate(values: &[f64], rows: &[StrainRow]) -> f64 {
    let mut sorted = values.to_vec();
    sorted.sort_by(f64::total_cmp);
    let tail = ((sorted.len() as f64 * 0.04).ceil() as usize).max(1);
    let tail_mean = sorted[sorted.len() - tail..].iter().sum::<f64>() / tail as f64;
    let power_mean = (sorted.iter().map(|v| v.max(0.0).powf(2.4)).sum::<f64>()
        / sorted.len() as f64)
        .powf(1.0 / 2.4);
    let weighted = 0.30 * quantile(&sorted, 0.97)
        + 0.22 * quantile(&sorted, 0.90)
        + 0.18 * tail_mean
        + 0.15 * quantile(&sorted, 0.75)
        + 0.10 * power_mean
        + 0.05 * quantile(&sorted, 0.50);
    let mut peaks: Vec<f64> = Vec::new();
    for (value, row) in values.iter().zip(rows) {
        let section = (ms(row.since) / 400.0).floor() as usize;
        if peaks.len() <= section {
            peaks.resize(section + 1, 0.0);
        }
        peaks[section] = peaks[section].max(*value);
    }
    peaks.sort_by(|a, b| b.total_cmp(a));
    let mut numerator = 0.0;
    let mut denominator = 0.0;
    for (index, peak) in peaks.into_iter().enumerate() {
        let weight = 0.9_f64.powi(index as i32);
        numerator += peak * weight;
        denominator += weight;
    }
    0.80 * weighted + 0.20 * numerator / denominator
}

struct Measured {
    difficulty: [f64; 8],
    rhythm_entropy: f64,
    transition_entropy: f64,
    peak_to_sustain_gap: f64,
}

fn measure(record: &ManiaRawFeatureRecord) -> Measured {
    let keys = record.key_count as f64;
    let zone_count = if record.key_count == 7 { 3 } else { 2 };
    let mut stamina = vec![0.0_f64; zone_count];
    let mut states = [(0.0_f64, 0.0_f64); 8];
    let mut streams: Vec<Vec<f64>> = vec![Vec::new(); 8];
    let mut local = Vec::new();
    let (mut rhythm_sum, mut transition_sum, mut samples) = (0.0, 0.0, 0_usize);
    for row in &record.strain {
        let mut inputs = [0.0_f64; 8];
        if let Some(head) = &row.head {
            let rhythm = entropy(&head.mask_counts, keys);
            let transition = entropy(&head.transition_counts, keys * 2.0);
            rhythm_sum += rhythm;
            transition_sum += transition;
            samples += 1;
            let dt_row = head.gap.map_or(1000.0, ms);
            let row_rate = head.gap.map_or(0.0, |_| rate(dt_row, 155.0, 30.0, 1.06));
            let mut rates = Vec::new();
            let mut mixed: f64 = 0.0;
            let (mut same_hand, mut overlap) = (0.0, 0.0);
            for zone in &head.zones {
                let dt = zone.gap.map_or(1000.0, ms);
                let r = zone.gap.map_or(0.0, |_| rate(dt, 180.0, 40.0, 1.08));
                let turned = if zone.rotated { rate(dt, 205.0, 45.0, 1.05) } else { 0.0 };
                if zone.overlap {
                    overlap += 1.0;
                }
                same_hand += (zone.count - 1) as f64;
                let place = zone.zone as usize;
                stamina[place] = decay(stamina[place], r, dt, 8000.0);
                rates.push(r);
                mixed = mixed.max(0.70 * r + 0.30 * turned);
            }
            let mean = rates.iter().sum::<f64>() / rates.len().max(1) as f64;
            let most = rates.iter().copied().fold(0.0, f64::max);
            inputs[0] = 0.55 * row_rate + 0.30 * most + 0.15 * mean;
            inputs[1] = mixed;
            let jack = head
                .jack_gaps
                .iter()
                .map(|gap| rate(ms(*gap), 185.0, 35.0, 1.18))
                .fold(0.0, f64::max);
            let chord = (head.count - 1) as f64 / (keys - 1.0);
            let hand_chord = same_hand / (keys - zone_count as f64);
            inputs[2] = jack * (1.0 + 0.20 * chord + 0.15 * f64::from(head.anchor));
            let shared = overlap / head.zones.len().max(1) as f64;
            inputs[3] = (chord * (1.0 + 0.18 * inputs[0]) + 0.22 * hand_chord)
                * (0.55 * inputs[2] + 0.30 * shared + 0.15 * inputs[1]);
            let chaos = head.rhythm.map_or(0.0, |previous| {
                (((dt_row + 24.0) / (ms(previous) + 24.0)).log2().abs() / 2.0).min(1.0)
            });
            inputs[4] = 0.32 * chaos
                + 0.24 * rhythm
                + 0.24 * transition
                + 0.20 * f64::from(head.changed);
            let hand = stamina.iter().copied().fold(0.0, f64::max);
            inputs[5] = 0.40 * (head.count_1s as f64).ln_1p() / 24.0_f64.ln()
                + 0.35 * ((head.count_4s as f64 / 4.0).ln_1p() / 24.0_f64.ln())
                + 0.25 * hand;
        }
        inputs[6] = 0.35 * row.held as f64 / keys
            + 0.25 * row.released as f64 / keys
            + 0.20 * f64::from(row.hybrid)
            + 0.20 * row.ln_heads as f64 / keys;
        inputs[7] = 0.45 * inputs[0]
            + 0.20 * inputs[1]
            + 0.15 * inputs[2]
            + 0.10 * inputs[3]
            + 0.10 * inputs[4];
        for n in 0..8 {
            let (burst, sustain, mix) = CONFIGS[n];
            states[n].0 = decay(states[n].0, inputs[n], ms(row.gap), burst);
            states[n].1 = decay(states[n].1, inputs[n], ms(row.gap), sustain);
            streams[n].push(mix * states[n].0 + (1.0 - mix) * states[n].1);
        }
        let weights = [0.20, 0.16, 0.14, 0.14, 0.11, 0.10, 0.10, 0.05];
        local.push((0..8).map(|n| weights[n] * streams[n].last().unwrap()).sum::<f64>());
    }
    local.sort_by(f64::total_cmp);
    let (high, middle) = (quantile(&local, 0.97), quantile(&local, 0.50));
    let mut difficulty = [0.0; 8];
    for n in 0..8 {
        difficulty[n] = aggregate(&streams[n], &record.strain);
    }
    Measured {
        difficulty,
        rhythm_entropy: rhythm_sum / samples.max(1) as f64,
        transition_entropy: transition_sum / samples.max(1) as f64,
        peak_to_sustain_gap: if high > 1e-9 {
            ((high - middle) / high).clamp(0.0, 1.0)
        } else {
            0.0
        },
    }
}

fn features(record: &ManiaRawFeatureRecord) -> Vec<f64> {
    let m = measure(record);
    let s = record.style;
    let mut all = m.difficulty.to_vec();
    all.extend(
        [
            s.stream,
            s.chordstream,
            s.jacks,
            s.coordination,
            s.density,
            s.wildcard,
            s.chord_rate,
            s.large_chord_rate,
            s.rotation_rate,
            s.anchor_rate,
        ]
        .map(value),
    );
    all.push(m.rhythm_entropy);
    all.push(m.transition_entropy);
    all.extend([s.ln_note_ratio, s.hold_occupancy, s.hybrid_row_ratio].map(value));
    all.push(m.peak_to_sustain_gap);
    all
}

fn map(key_count: u8, objects: &str) -> Vec<u8> {
    format!(
        "osu file format v14\n\n[General]\nMode:3\n\n[Metadata]\nTitle:Test\nArtist:Test\nCreator:Test\nVersion:Test\nBeatmapID:42\nBeatmapSetID:4\n\n[Difficulty]\nCircleSize:{key_count}\nOverallDifficulty:8\n\n[TimingPoints]\n0,500,4,2,0,100,1,0\n\n[HitObjects]\n{objects}\n"
    )
    .into_bytes()
}

#[test]
fn rejects_non_mania_and_unsupported_keys() {
    let non_mania = map(4, "64,192,0,1,0,0:0:0:0:");
    let text = String::from_utf8(non_mania).unwrap().replace("Mode:3", "Mode:0");
    assert!(matches!(
        ManiaAnalyzer::new().analyze_bytes(text.as_bytes()),
        Err(ManiaAnalyzeError::UnsupportedMode(0))
    ));
    assert!(matches!(
        ManiaAnalyzer::new().analyze_bytes(&map(5, "64,192,0,1,0,0:0:0:0:")),
        Err(ManiaAnalyzeError::UnsupportedKeyCount(5))
    ));
    assert!(matches!(
        ManiaAnalyzer::new().analyze_bytes(&map(4, "")),
        Err(ManiaAnalyzeError::Invalid(_))
    ));
}

#[test]
fn supports_each_v1_key_count() {
    for key_count in [4_u8, 6, 7] {
        let objects = (0..key_count)
            .map(|lane| {
                let x = ((lane as f64 + 0.5) * 512.0 / key_count as f64).floor() as usize;
                format!("{x},192,{},1,0,0:0:0:0:", lane as usize * 120)
            })
            .collect::<Vec<_>>()
            .join("\n");
        let (metadata, record) = ManiaAnalyzer::new()
            .analyze_bytes(&map(key_count, &objects))
            .unwrap();
        assert_eq!(metadata.key_count, key_count);
        assert_eq!(record.key_count, key_count);
    }
}

#[test]
fn source_filename_id_overrides_stale_embedded_id() {
    let bytes = map(4, "64,192,0,1,0,0:0:0:0:");
    let (metadata, record) = ManiaAnalyzer::new()
        .analyze_bytes_with_beatmap_id(&bytes, 1234)
        .unwrap();
    assert_eq!(metadata.beatmap_id, 1234);
    assert_eq!(record.beatmap_id, 1234);
    assert_eq!(metadata.online_url, "https://osu.ppy.sh/b/1234");
}

#[test]
fn long_notes_populate_ln_features() {
    let objects =
        "64,192,0,128,0,500:0:0:0:0:\n192,192,250,1,0,0:0:0:0:\n320,192,500,128,0,900:0:0:0:0:";
    let (_, record) = ManiaAnalyzer::new().analyze_bytes(&map(4, objects)).unwrap();
    assert!(measure(&record).difficulty[LONG_NOTE] > 0.0);
    assert!(value(record.style.ln_note_ratio) > 0.0);
    assert!(value(record.style.hold_occupancy) > 0.0);
}

#[test]
fn inherited_timing_points_are_counted_as_sv_changes() {
    let bytes = map(4, "64,192,0,1,0,0:0:0:0:\n192,192,1000,1,0,0:0:0:0:");
    let text = String::from_utf8(bytes).unwrap().replace(
        "0,500,4,2,0,100,1,0",
        "0,500,4,2,0,100,1,0\n500,-50,4,2,0,100,0,0",
    );
    let (_, record) = ManiaAnalyzer::new().analyze_bytes(text.as_bytes()).unwrap();
    assert_eq!(value(record.base.bpm), 120.0);
    assert!(value(record.base.sv_change_rate) > 0.0);
}

#[test]
fn jack_axis_exceeds_stream_for_fast_repeats() {
    let jack = (0..20)
        .map(|index| format!("64,192,{},1,0,0:0:0:0:", index * 100))
        .collect::<Vec<_>>()
        .join("\n");
    let (_, record) = ManiaAnalyzer::new().analyze_bytes(&map(4, &jack)).unwrap();
    let difficulty = measure(&record).difficulty;
    assert!(difficulty[JACK] > difficulty[HAND_STREAM]);
    assert!(value(record.style.jacks) > value(record.style.stream));
}

#[test]
fn all_features_are_finite_for_7k_center_notes() {
    let objects = (0..24)
        .map(|index| {
            let x = if index % 2 == 0 { 256 } else { 64 + (index % 7) * 64 };
            format!("{x},192,{},1,0,0:0:0:0:", index * 120)
        })
        .collect::<Vec<_>>()
        .join("\n");
    let (_, record) = ManiaAnalyzer::new().analyze_bytes(&map(7, &objects)).unwrap();
    assert!(measure(&record).difficulty.into_iter().all(|v| (v as f32).is_finite()));
    assert!(features(&record).into_iter().all(|v| (v as f32).is_finite()));
}

#[test]
fn seven_key_center_lane_preserves_mirror_symmetry() {
    let lanes = [0_usize, 3, 1, 5, 6, 3, 2, 4, 0, 6, 3, 1];
    let render = |mirror: bool| {
        lanes
            .iter()
            .enumerate()
            .map(|(index, lane)| {
                let lane = if mirror { 6 - lane } else { *lane };
                let x = ((lane as f64 + 0.5) * 512.0 / 7.0).floor() as usize;
                format!("{x},192,{},1,0,0:0:0:0:", 1000 + index * 125)
            })
            .collect::<Vec<_>>()
            .join("\n")
    };
    let (_, original) = ManiaAnalyzer::new()
        .analyze_bytes(&map(7, &render(false)))
        .unwrap();
    let (_, mirrored) = ManiaAnalyzer::new()
        .analyze_bytes(&map(7, &render(true)))
        .unwrap();
    for (left, right) in features(&original).into_iter().zip(features(&mirrored)) {
        assert!((left - right).abs() < 1e-5, "{left} != {right}");
    }
}

#[test]
fn stream_chordjack_and_ln_samples_raise_their_axes() {
    let stream = (0..24)
        .map(|index| {
            let x = [64, 320, 192, 448][index % 4];
            format!("{x},192,{},1,0,0:0:0:0:", index * 120)
        })
        .collect::<Vec<_>>()
        .join("\n");
    let chordjack = (0..24)
        .flat_map(|index| [64, 192].map(|x| format!("{x},192,{},1,0,0:0:0:0:", index * 120)))
        .collect::<Vec<_>>()
        .join("\n");
    let long_notes = (0..12)
        .map(|index| {
            let start = index * 300;
            let x = [64, 192, 320, 448][index % 4];
            format!("{x},192,{start},128,0,{}:0:0:0:0:", start + 240)
        })
        .collect::<Vec<_>>()
        .join("\n");
    let (_, stream_record) = ManiaAnalyzer::new().analyze_bytes(&map(4, &stream)).unwrap();
    let (_, chordjack_record) = ManiaAnalyzer::new()
        .analyze_bytes(&map(4, &chordjack))
        .unwrap();
    let (_, ln_record) = ManiaAnalyzer::new()
        .analyze_bytes(&map(4, &long_notes))
        .unwrap();
    let (plain, chords, holds) = (
        measure(&stream_record).difficulty,
        measure(&chordjack_record).difficulty,
        measure(&ln_record).difficulty,
    );
    assert!(value(stream_record.style.stream) > value(stream_record.style.jacks));
    assert!(
        chords[CHORDJACK] > plain[CHORDJACK],
        "{} <= {}",
        chords[CHORDJACK],
        plain[CHORDJACK]
    );
    assert!(holds[LONG_NOTE] > plain[LONG_NOTE]);
}

#[test]
fn rows_within_two_milliseconds_are_merged() {
    let objects = "64,192,100,1,0,0:0:0:0:\n320,192,102,1,0,0:0:0:0:";
    let (_, record) = ManiaAnalyzer::new().analyze_bytes(&map(4, objects)).unwrap();
    assert_eq!(record.base.row_count as f32, 1.0);
    assert_eq!(record.base.note_count as f32, 2.0);
    assert_eq!(value(record.style.chord_rate), 1.0);
}

#[test]
fn time_compression_increases_speed() {
    let chart = |step: usize| {
        (0..32)
            .map(|index| {
                let x = [64, 192, 320, 448][index % 4];
                format!("{x},192,{},1,0,0:0:0:0:", index * step)
            })
            .collect::<Vec<_>>()
            .join("\n")
    };
    let (_, slow) = ManiaAnalyzer::new().analyze_bytes(&map(4, &chart(200))).unwrap();
    let (_, fast) = ManiaAnalyzer::new().analyze_bytes(&map(4, &chart(100))).unwrap();
    let (slow, fast) = (measure(&slow).difficulty, measure(&fast).difficulty);
    assert!(fast[SPEED] > slow[SPEED]);
    assert!(fast[STAMINA] > slow[STAMINA]);
}

#[test]
fn mirror_and_global_time_offset_preserve_features() {
    let source = [
        (64, 100),
        (192, 220),
        (448, 340),
        (320, 460),
        (64, 580),
        (448, 700),
        (192, 820),
        (320, 940),
    ];
    let render = |mirror: bool, offset: i32| {
        source
            .iter()
            .map(|(x, time)| {
                let x = if mirror { 512 - x } else { *x };
                format!("{x},192,{},1,0,0:0:0:0:", time + offset)
            })
            .collect::<Vec<_>>()
            .join("\n")
    };
    let (_, original) = ManiaAnalyzer::new()
        .analyze_bytes(&map(4, &render(false, 0)))
        .unwrap();
    let (_, transformed) = ManiaAnalyzer::new()
        .analyze_bytes(&map(4, &render(true, 5000)))
        .unwrap();
    for (left, right) in features(&original).into_iter().zip(features(&transformed)) {
        assert!((left - right).abs() < 1e-5, "{left} != {right}");
    }
}

#[test]
fn clock_rate_mods_recompute_timing_bpm_and_strain() {
    let objects = (0..64)
        .map(|index| {
            let x = [64, 192, 320, 448][index % 4];
            format!("{x},192,{},1,0,0:0:0:0:", index * 150)
        })
        .collect::<Vec<_>>()
        .join("\n");
    let bytes = map(4, &objects);
    let analyzer = ManiaAnalyzer::new();
    let (_, nm) = analyzer.analyze_bytes_with_mod(&bytes, ManiaGameMod::Nm).unwrap();
    let (_, dt) = analyzer.analyze_bytes_with_mod(&bytes, ManiaGameMod::Dt).unwrap();
    let (_, ht) = analyzer.analyze_bytes_with_mod(&bytes, ManiaGameMod::Ht).unwrap();

    let bpm = |r: &ManiaRawFeatureRecord| value(r.base.bpm);
    let length = |r: &ManiaRawFeatureRecord| value(r.base.length_seconds);
    let nps = |r: &ManiaRawFeatureRecord| value(r.base.avg_nps);
    let speed = |r: &ManiaRawFeatureRecord| measure(r).difficulty[SPEED];
    assert!((bpm(&dt) - bpm(&nm) * 1.5).abs() < 1e-4);
    assert!((bpm(&ht) - bpm(&nm) * 0.75).abs() < 1e-4);
    assert!((length(&dt) - length(&nm) / 1.5).abs() < 1e-4);
    assert!((length(&ht) - length(&nm) / 0.75).abs() < 1e-4);
    assert!(nps(&dt) > nps(&nm) && nps(&nm) > nps(&ht));
    assert!(speed(&dt) > speed(&nm));
    assert!(speed(&nm) > speed(&ht));
}
