use osu_difficulty_lab::analyzer::ManiaAnalyzer;
use osu_difficulty_lab::beatmap::{parse_beatmap, ManiaAnalyzeError};
use osu_difficulty_lab::big::Big;
use osu_difficulty_lab::hold_patterns::jack_bpm;
use osu_difficulty_lab::intervals::union_length;
use osu_difficulty_lab::number::{
    floor_div, parse_decimal, parse_signed, parse_unsigned, write_decimal, Number, LIMIT, TICKS,
};
use osu_difficulty_lab::order::sort_order;
use osu_difficulty_lab::primitives::{
    calculate_primitives, count_shared, detect_direction, keys_on_left_hand, Direction,
};
use osu_difficulty_lab::parser::parse_osu_mania;
use osu_difficulty_lab::text::{ends_with, split_on, starts_with, trim};
use osu_difficulty_lab::types::{
    fraction_below, mode_family_from_i64, pattern_from_i64, ManiaGameMod, ManiaModeFamily,
    ManiaPattern, Ratio,
};
use osu_difficulty_lab::wide::Wide;

fn chars(text: &str) -> Vec<char> {
    text.chars().collect()
}

fn decimal(text: &str) -> Option<Number> {
    parse_decimal(&chars(text))
}

#[test]
fn decimal_numbers_are_counted_in_ticks() {
    assert_eq!(decimal("1.5"), Some(Number::Ticks(3 * TICKS / 2)));
    assert_eq!(decimal("-.25"), Some(Number::Ticks(-TICKS / 4)));
    assert_eq!(decimal("+2e3"), Some(Number::Ticks(2000 * TICKS)));
    assert_eq!(decimal("5E-1"), Some(Number::Ticks(TICKS / 2)));
    assert_eq!(decimal("7."), Some(Number::Ticks(7 * TICKS)));
    assert_eq!(decimal("NaN"), Some(Number::NotANumber));
    for wrong in ["", ".", "1,5", "1e", "--1", " 1", "0x1", "1.2.3"] {
        assert_eq!(decimal(wrong), None, "{wrong}");
    }
}

#[test]
fn large_numbers_are_told_from_infinite_ones() {
    assert_eq!(decimal("9007199254740993"), Some(Number::Ticks(9_007_199_254_740_993 * TICKS)));
    assert_eq!(decimal("1e16"), Some(Number::Ticks(LIMIT)));
    assert_eq!(decimal("-1e300"), Some(Number::Ticks(-LIMIT)));
    assert_eq!(decimal("inf"), Some(Number::Infinite(false)));
    assert_eq!(decimal("-Infinity"), Some(Number::Infinite(true)));
    let long = format!("{}e-300", "9".repeat(330));
    let small = format!("0.{}1e650", "0".repeat(350));
    let zeros = format!("{}17976931348623157e292", "0".repeat(50));
    for text in [
        "1.7976931348623157e308",
        "1.797693134862315807e308",
        "1.797693134862315808e308",
        "1.7976931348623159e308",
        "17976931348623157e292",
        "1e308",
        "1e309",
        "-2e308",
        "0.0000017e314",
        "0e999999999999999999999999999999999999999999",
        "1e999999999999999999999999999999999999999999",
        "1e-99999999999999999999999999999999999999999",
        "179769313486231580793728971405303415079934132710037826936173778980444968292764750946649017977587207096330286416692887910946555547851940402630657488671505820681908902000708383676273854845817711531764475730270069855571366959622842914819860834936475292719074168444365510704342711559699508093042880",
        long.as_str(),
        small.as_str(),
        zeros.as_str(),
    ] {
        let value = text.parse::<f64>().unwrap();
        match decimal(text).unwrap() {
            Number::Infinite(negative) => {
                assert!(value.is_infinite(), "{text}");
                assert_eq!(negative, value < 0.0, "{text}");
            }
            Number::Ticks(_) => assert!(value.is_finite(), "{text}"),
            Number::NotANumber => panic!("{text}"),
        }
    }
}

#[test]
fn late_notes_are_read() {
    let file = |objects: &str| {
        format!("[General]\nMode: 3\n[Difficulty]\nCircleSize:4\n[HitObjects]\n{objects}\n").into_bytes()
    };
    let beatmap = parse_beatmap(&file(
        "1e300,192,1000000000000000,1,0\n64,192,1e300,1,0\n-inf,192,-inf,128,0,inf:0\n64,192,0,128,0,nan:0",
    ))
    .unwrap();
    let times: Vec<(u8, i128, i128)> = beatmap
        .objects
        .iter()
        .map(|o| (o.column, o.start, o.end))
        .collect();
    assert_eq!(
        times,
        [
            (0, -LIMIT, LIMIT),
            (0, 0, 0),
            (3, 1_000_000_000_000_000 * TICKS, 1_000_000_000_000_000 * TICKS),
            (0, LIMIT, LIMIT),
        ]
    );
    let analyzer = ManiaAnalyzer::new();
    let close = file("64,192,1000000000000000,1,0\n192,192,1000000000000100,1,0");
    let (_, record) = analyzer.analyze_bytes(&close).unwrap();
    let (_, early) = analyzer
        .analyze_bytes(&file("64,192,0,1,0\n192,192,100,1,0"))
        .unwrap();
    assert_eq!(format!("{:?}", record.style), format!("{:?}", early.style));
    assert_eq!(format!("{:?}", record.base), format!("{:?}", early.base));
    for (objects, expected) in [
        ("64,192,nan,1,0", "invalid hit object timestamp"),
        ("64,192,soon,1,0", "invalid hit object timestamp"),
        ("left,192,0,1,0", "invalid hit object x coordinate"),
        ("64,192,0,1", "beatmap has no hit objects"),
    ] {
        match parse_beatmap(&file(objects)) {
            Err(ManiaAnalyzeError::Invalid(text)) => assert_eq!(text, expected),
            other => panic!("{other:?}"),
        }
    }
    let infinite = b"[General]\nMode: 3\n[Difficulty]\nCircleSize:inf\n[HitObjects]\n64,192,0,1,0";
    assert!(matches!(
        parse_beatmap(infinite),
        Err(ManiaAnalyzeError::UnsupportedKeyCount(255))
    ));
}

#[test]
fn whole_numbers_are_read_as_written() {
    assert_eq!(parse_unsigned(&chars("+255"), 255), Some(255));
    assert_eq!(parse_unsigned(&chars("256"), 255), None);
    assert_eq!(parse_unsigned(&chars("-1"), 255), None);
    assert_eq!(parse_signed(&chars("-9223372036854775808")), Some(i64::MIN));
    assert_eq!(parse_signed(&chars("9223372036854775808")), None);
    assert_eq!(parse_signed(&chars("-")), None);
    for n in [0, 7, 10, 147_568, u64::MAX] {
        let text = write_decimal(n);
        assert_eq!(text, chars(&n.to_string()));
        assert_eq!(parse_unsigned(&text, u64::MAX), Some(n));
    }
    assert_eq!(floor_div(-1, 2), -1);
    assert_eq!(floor_div(3, 2), 1);
}

#[test]
fn plain_charts_show_one_pattern() {
    let patterns = |lines: Vec<String>| -> (Vec<ManiaPattern>, Ratio) {
        let text = format!(
            "[General]\nMode: 3\n[Difficulty]\nCircleSize:4\n[HitObjects]\n{}",
            lines.join("\n")
        );
        let (_, record) = ManiaAnalyzer::new().analyze_bytes(text.as_bytes()).unwrap();
        (record.strain.iter().map(|row| row.pattern).collect(), record.style.stream)
    };
    let (singles, stream) = patterns(
        (0..12)
            .map(|i| format!("{},192,{},1,0", [64, 320, 192, 448][i % 4], 120 * i))
            .collect(),
    );
    assert!(singles.iter().all(|p| *p == ManiaPattern::Stream));
    assert_eq!(stream.num, stream.den);
    let (chords, _) = patterns(
        (0..24)
            .map(|i| format!("{},192,{},1,0", [64, 192][i % 2], 120 * (i / 2)))
            .collect(),
    );
    assert_eq!(chords[0], ManiaPattern::Chordstream);
    assert!(chords[1..].iter().all(|p| *p == ManiaPattern::Jacks));
    let (holds, stream) = patterns(
        (0..12)
            .map(|i| format!("{},192,{},128,0,{}:0", [64, 192, 320, 448][i % 4], 300 * i, 300 * i + 240))
            .collect(),
    );
    assert!(holds.iter().all(|p| *p == ManiaPattern::Wildcard));
    assert_eq!(stream.num, 0);
}

#[test]
fn large_numbers_are_exact() {
    let word = u128::MAX;
    let big = Big::from_u128(word);
    let square = big.times(&big);
    let next = Big::from_u128(word - 1).times(&big).plus(&big);
    assert!(!square.below(&next) && !next.below(&square));
    assert!(big.below(&square));
    assert!(square.below(&square.plus(&Big::from_u128(1))));
    assert!(!Big::from_u128(0).below(&Big::from_u128(7).times_word(0)));
    assert_eq!(big.times_word(2).digits[..5], [u32::MAX - 1, u32::MAX, u32::MAX, u32::MAX, 1]);

    let mut sum = Wide::zero();
    for n in [-1, i128::from(u64::MAX), 5, -(1 << 90), 1 << 90] {
        sum = sum.plus(n);
    }
    assert_eq!(sum.to_i128(), Some(i128::from(u64::MAX) + 4));
    assert_eq!(Wide::from_i128(-1), Wide { high: -1, low: u64::MAX });
    assert!(Wide::from_i128(-1).below(Wide::zero()) && !Wide::zero().below(Wide::zero()));
    assert_eq!(Wide { high: 1 << 63, low: 0 }.to_i128(), None);
    assert_eq!(Wide { high: -(1 << 63), low: 0 }.to_i128(), Some(i128::MIN));
}

#[test]
fn fractions_are_compared_exactly() {
    let big = i128::MAX / 4;
    assert!(fraction_below(1, 3, 2, 5));
    assert!(!fraction_below(2, 4, 1, 2));
    assert!(fraction_below(big - 1, big, big, big + 1));
    assert!(!fraction_below(big, big + 1, big - 1, big));
}

#[test]
fn equal_keys_keep_their_order() {
    assert_eq!(sort_order(&[3, 1, 2, 1]), [1, 3, 2, 0]);
    assert!(sort_order(&[]).is_empty());
}

#[test]
fn overlaps_are_counted_once() {
    assert_eq!(union_length(&[(20, 30), (0, 10), (5, 12), (25, 22)]), 22);
    assert_eq!(union_length(&[(0, 10), (20, 30)]), 20);
    assert_eq!(union_length(&[]), 0);
}

#[test]
fn texts_are_taken_apart() {
    let text = chars(" a,b,, c\t");
    let parts: Vec<String> = split_on(&text, ',').iter().map(|p| p.iter().collect()).collect();
    assert_eq!(parts, [" a", "b", "", " c\t"]);
    assert_eq!(trim(&text), &chars("a,b,, c")[..]);
    assert_eq!(trim(&chars("\u{3000}x\u{a0}")), &['x'][..]);
    assert!(starts_with(&text, " a") && !starts_with(&text, "a"));
    assert!(ends_with(&text, "c\t") && !ends_with(&text, "c"));
}

#[test]
fn rows_move_between_the_hands() {
    assert_eq!(detect_direction(&[0], &[1]), (Direction::Right, true));
    assert_eq!(detect_direction(&[2, 3], &[0, 1]), (Direction::Left, true));
    assert_eq!(detect_direction(&[0, 3], &[1, 2]), (Direction::Inwards, false));
    assert_eq!(detect_direction(&[1, 2], &[0, 3]), (Direction::Outwards, false));
    assert_eq!(detect_direction(&[0, 2], &[0, 1]), (Direction::Inwards, false));
    assert_eq!(detect_direction(&[1], &[1]), (Direction::Still, false));
    assert_eq!(count_shared(&[0, 1, 3], &[1, 3]), 2);
    let hands: Vec<usize> = [1, 3, 4, 6, 7, 10, 12].iter().map(|k| keys_on_left_hand(*k)).collect();
    assert_eq!(hands, [1, 2, 2, 3, 4, 5, 6]);
}

#[test]
fn rows_show_what_changed_since_the_row_before() {
    let chart = parse_osu_mania(
        "[Difficulty]\nCircleSize:4\n[TimingPoints]\n0,400,4\n[HitObjects]\n64,192,1000,1,0\n64,192,1100,1,0\n192,192,1100,1,0\n448,192,1350,128,0,1500:0\n",
    )
    .unwrap();
    let rows = calculate_primitives(&chart);
    assert_eq!(rows.len(), 3);
    assert_eq!((rows[0].index, rows[0].time, rows[0].ms_per_beat), (1, 100, 400));
    assert_eq!((rows[0].notes, rows[0].jacks, rows[0].roll), (2, 1, false));
    assert_eq!(rows[0].direction, Direction::Outwards);
    assert_eq!((rows[1].time, rows[1].ms_per_beat, rows[1].roll), (350, 1000, true));
    assert_eq!((&rows[1].ln_heads, &rows[1].normal_notes), (&vec![3], &vec![]));
    assert_eq!((rows[2].notes, &rows[2].ln_tails), (0, &vec![3]));
    assert_eq!(rows[2].beat_length, 400 * TICKS);
}

#[test]
fn jacks_have_a_tempo_limit() {
    assert_eq!(jack_bpm(0), Ratio { num: 230, den: 1 });
    assert_eq!(jack_bpm(65), Ratio { num: 230, den: 1 });
    let r = jack_bpm(100);
    assert_eq!(r.num as f64 / r.den as f64, 150.0);
}

#[test]
fn codes_and_numbers_lead_back() {
    for m in [ManiaGameMod::Nm, ManiaGameMod::Dt, ManiaGameMod::Ht] {
        assert_eq!(ManiaGameMod::from_code(m.as_str()), Some(m));
        assert_eq!(ManiaGameMod::from_code(&m.as_str().to_lowercase()), Some(m));
    }
    assert_eq!(ManiaGameMod::from_code("HR"), None);
    assert_eq!(ManiaGameMod::Dt.rate(), Ratio { num: 3, den: 2 });
    for family in [
        ManiaModeFamily::Rc,
        ManiaModeFamily::Hb,
        ManiaModeFamily::Mix,
        ManiaModeFamily::Ln,
    ] {
        assert_eq!(mode_family_from_i64(family.to_i64()), family);
    }
    assert_eq!(mode_family_from_i64(77), ManiaModeFamily::Rc);
    for n in 0..6 {
        assert_eq!(pattern_from_i64(n).index() as i64, n);
    }
    assert_eq!(pattern_from_i64(-1), ManiaPattern::Stream);
}

const LOCAL: &[u8] = b"osu file format v14\n\n[General]\nMode: 3\n\n[Metadata]\nTitle:a\xffb\nArtist:x\nCreator:y\nVersion:z\n\n[Difficulty]\nCircleSize:4\n\n[TimingPoints]\n0,500,4,2,0,100,1,0\n\n[HitObjects]\n64,192,0,1,0,0:0:0:0:\n192,192,500,1,0,0:0:0:0:\n";

#[test]
fn files_without_an_identifier_get_one_of_their_own() {
    let (metadata, record) = ManiaAnalyzer::new().analyze_bytes(LOCAL).unwrap();
    assert_eq!(
        metadata.checksum,
        "f9059c165c007d776983bb876d1d2e0e1b729524aed3251816c7a958d23aa4a8"
    );
    assert_eq!(metadata.beatmap_id, 555_277_465_574_400);
    assert_eq!(record.beatmap_id, metadata.beatmap_id);
    assert_eq!(metadata.online_url, "");
    assert_eq!(metadata.title, "a\u{fffd}b");
    assert_eq!((record.base.note_count, record.base.row_count), (2, 2));
    let named = ManiaAnalyzer::new().analyze_bytes_with_beatmap_id(LOCAL, 7).unwrap().0;
    assert_eq!((named.beatmap_id, named.online_url.as_str()), (7, "https://osu.ppy.sh/b/7"));
}

#[test]
fn beatmaps_are_read_in_order_of_time() {
    let text = String::from_utf8_lossy(LOCAL).replace("192,192,500,1", "448,192,-20.5,1");
    let parsed = parse_beatmap(text.as_bytes()).unwrap();
    assert_eq!(parsed.beat, Some(500 * TICKS));
    let seen: Vec<(u8, i128)> = parsed.objects.iter().map(|o| (o.column, o.start)).collect();
    assert_eq!(seen, [(3, -41 * TICKS / 2), (0, 0)]);
    assert!(matches!(parse_beatmap(b"not a beatmap"), Err(ManiaAnalyzeError::Invalid(_))));
}

#[test]
fn features_have_the_values_of_their_formulas() {
    let (_, record) = ManiaAnalyzer::new().analyze_bytes(LOCAL).unwrap();
    let value = |r: Ratio| r.num as f64 / r.den as f64;
    assert_eq!(value(record.base.bpm), 120.0);
    assert_eq!(value(record.base.length_seconds), 0.5);
    assert_eq!(value(record.base.avg_nps), 4.0);
    assert_eq!(record.base.peak_nps, 2);
    assert_eq!(value(record.style.chord_rate), 0.0);
    assert_eq!(value(record.style.ln_note_ratio), 0.0);
}
