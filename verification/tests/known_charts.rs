use osu_difficulty_lab::clustering::{PatternCluster, SCALE};
use osu_difficulty_lab::mma::analyze;
use osu_difficulty_lab::types::{ManiaGameMod, Ratio};

struct Expected {
    mode: &'static str,
    category: &'static str,
    /// Pattern, tempo, whether mixed, amount and importance.
    clusters: &'static [(&'static str, i128, bool, i64, f64)],
    coverage: [f64; 6],
    /// Mean, peak and middle density, and the longest run in seconds.
    intensity: [f64; 4],
    /// The share of holds, of hybrid rows, and of what no pattern covers.
    shares: [f64; 3],
}

fn value(r: Ratio) -> f64 {
    r.num as f64 / r.den as f64
}

fn importance(cluster: &PatternCluster) -> f64 {
    let parts = cluster.importance.digits.iter().rev().fold(0.0, |sum, d| sum * 4_294_967_296.0 + *d as f64);
    parts / SCALE as f64
}

fn close(what: &str, actual: f64, expected: f64) {
    let tolerance = 1e-9_f64.max(expected.abs() * 1e-9);
    assert!((actual - expected).abs() <= tolerance, "{what}: {actual} instead of {expected}");
}

fn compare(text: &str, game_mod: ManiaGameMod, expected: &Expected) {
    let analysis = analyze(text, game_mod).unwrap();
    let (report, features) = (&analysis.report, &analysis.features);
    assert_eq!(report.mode.as_str(), expected.mode);
    assert_eq!(report.category, expected.category);
    assert_eq!(report.clusters.len(), expected.clusters.len());
    for (cluster, (pattern, bpm, mixed, amount, expected)) in
        report.clusters.iter().zip(expected.clusters)
    {
        assert_eq!(
            (cluster.pattern.as_str(), cluster.bpm, cluster.mixed, cluster.amount),
            (*pattern, *bpm, *mixed, *amount)
        );
        close("importance", importance(cluster), *expected);
    }
    for (actual, expected) in features.coverage.iter().zip(expected.coverage) {
        close("coverage", value(*actual), expected);
    }
    let intensity = [
        value(features.avg_nps),
        value(features.peak_nps),
        value(features.sustain_nps),
        features.longest_run_ms as f64 / 1000.0,
    ];
    for (actual, expected) in intensity.into_iter().zip(expected.intensity) {
        close("intensity", actual, expected);
    }
    let shares = [report.ln_percent, report.hb_row_ratio, features.unclassified].map(value);
    for (actual, expected) in shares.into_iter().zip(expected.shares) {
        close("share", actual, expected);
    }
}

const FOUR: &str = "\
[General]\n\
Mode:3\n\
[Metadata]\n\
BeatmapID:9\n\
[Difficulty]\n\
CircleSize:4\n\
[TimingPoints]\n\
0,400,4,1,0,100,1,0\n\
[HitObjects]\n\
192,192,1234,128,0,1634:0:0:0:0:\n\
64,192,1234,128,0,1635:0:0:0:0:\n\
192,192,1834,128,0,2034:0:0:0:0:\n\
64,192,1834,1,0,0:0:0:0:\n\
64,192,2034,128,0,2634:0:0:0:0:\n\
448,192,2234,1,0,0:0:0:0:\n\
448,192,2434,1,0,0:0:0:0:\n\
192,192,2634,1,0,0:0:0:0:\n\
320,192,2834,1,0,0:0:0:0:\n\
192,192,2834,1,0,0:0:0:0:\n\
320,192,3034,1,0,0:0:0:0:\n\
320,192,3234,1,0,0:0:0:0:\n\
192,192,3334,1,0,0:0:0:0:\n\
64,192,3734,1,0,0:0:0:0:\n\
320,192,3934,1,0,0:0:0:0:\n\
64,192,4134,128,0,4734:0:0:0:0:\n\
192,192,4534,1,0,0:0:0:0:\n\
192,192,4734,1,0,0:0:0:0:\n\
192,192,4934,1,0,0:0:0:0:\n\
192,192,5134,1,0,0:0:0:0:\n\
192,192,5334,1,0,0:0:0:0:\n\
64,192,5334,1,0,0:0:0:0:\n\
64,192,5534,128,0,5934:0:0:0:0:\n\
448,192,5734,1,0,0:0:0:0:\n\
192,192,5734,128,0,5934:0:0:0:0:\n\
320,192,5934,1,0,0:0:0:0:\n\
320,192,6134,1,0,0:0:0:0:\n\
320,192,6334,128,0,6934:0:0:0:0:\n\
192,192,6734,1,0,0:0:0:0:\n\
192,192,6934,128,0,7335:0:0:0:0:\n\
64,192,7134,128,0,7535:0:0:0:0:\n\
448,192,7134,1,0,0:0:0:0:\n\
320,192,7134,1,0,0:0:0:0:\n\
448,192,7734,1,0,0:0:0:0:\n\
64,192,7734,1,0,0:0:0:0:\n\
448,192,7934,128,0,8534:0:0:0:0:\n\
64,192,7934,1,0,0:0:0:0:\n\
64,192,8134,1,0,0:0:0:0:\n\
192,192,8134,1,0,0:0:0:0:\n\
192,192,8334,1,0,0:0:0:0:\n\
320,192,8334,128,0,8534:0:0:0:0:\n\
192,192,8534,1,0,0:0:0:0:\n\
192,192,8734,1,0,0:0:0:0:\n\
320,192,8734,1,0,0:0:0:0:\n\
";

const SIX: &str = "\
[General]\n\
Mode:3\n\
[Metadata]\n\
BeatmapID:9\n\
[Difficulty]\n\
CircleSize:6\n\
[TimingPoints]\n\
0,300,4,1,0,100,1,0\n\
5419,600,4,1,0,100,1,0\n\
[HitObjects]\n\
298,192,1234,1,0,0:0:0:0:\n\
128,192,1400,1,0,0:0:0:0:\n\
128,192,1733,1,0,0:0:0:0:\n\
298,192,2066,1,0,0:0:0:0:\n\
128,192,2399,1,0,0:0:0:0:\n\
469,192,2732,1,0,0:0:0:0:\n\
469,192,3065,1,0,0:0:0:0:\n\
469,192,3398,1,0,0:0:0:0:\n\
469,192,3731,1,0,0:0:0:0:\n\
213,192,3731,1,0,0:0:0:0:\n\
298,192,4064,1,0,0:0:0:0:\n\
42,192,4730,1,0,0:0:0:0:\n\
469,192,5063,1,0,0:0:0:0:\n\
469,192,5396,1,0,0:0:0:0:\n\
469,192,5729,1,0,0:0:0:0:\n\
469,192,6062,1,0,0:0:0:0:\n\
213,192,6062,1,0,0:0:0:0:\n\
42,192,6062,1,0,0:0:0:0:\n\
213,192,6395,1,0,0:0:0:0:\n\
42,192,6395,1,0,0:0:0:0:\n\
469,192,6728,1,0,0:0:0:0:\n\
42,192,6894,1,0,0:0:0:0:\n\
42,192,7060,1,0,0:0:0:0:\n\
42,192,7393,1,0,0:0:0:0:\n\
213,192,7559,1,0,0:0:0:0:\n\
384,192,7559,1,0,0:0:0:0:\n\
384,192,7892,1,0,0:0:0:0:\n\
213,192,7892,1,0,0:0:0:0:\n\
128,192,7892,1,0,0:0:0:0:\n\
213,192,8225,1,0,0:0:0:0:\n\
213,192,8891,1,0,0:0:0:0:\n\
298,192,9224,1,0,0:0:0:0:\n\
42,192,9557,1,0,0:0:0:0:\n\
384,192,9557,1,0,0:0:0:0:\n\
128,192,9890,1,0,0:0:0:0:\n\
213,192,10056,1,0,0:0:0:0:\n\
384,192,10056,1,0,0:0:0:0:\n\
469,192,10389,1,0,0:0:0:0:\n\
213,192,10722,1,0,0:0:0:0:\n\
298,192,10722,1,0,0:0:0:0:\n\
128,192,10722,1,0,0:0:0:0:\n\
384,192,10888,1,0,0:0:0:0:\n\
213,192,11554,1,0,0:0:0:0:\n\
";

const SEVEN: &str = "\
[General]\n\
Mode:3\n\
[Metadata]\n\
BeatmapID:9\n\
[Difficulty]\n\
CircleSize:7\n\
[TimingPoints]\n\
0,400,4,1,0,100,1,0\n\
[HitObjects]\n\
475,192,0,128,0,666:0:0:0:0:\n\
402,192,0,1,0,0:0:0:0:\n\
329,192,333,1,0,0:0:0:0:\n\
109,192,666,1,0,0:0:0:0:\n\
109,192,999,1,0,0:0:0:0:\n\
182,192,1165,1,0,0:0:0:0:\n\
182,192,1498,1,0,0:0:0:0:\n\
256,192,1831,1,0,0:0:0:0:\n\
402,192,1831,1,0,0:0:0:0:\n\
256,192,2164,1,0,0:0:0:0:\n\
109,192,2164,1,0,0:0:0:0:\n\
402,192,2497,1,0,0:0:0:0:\n\
402,192,2663,1,0,0:0:0:0:\n\
182,192,2996,128,0,3662:0:0:0:0:\n\
109,192,3662,128,0,4661:0:0:0:0:\n\
36,192,3662,1,0,0:0:0:0:\n\
329,192,12662,1,0,0:0:0:0:\n\
329,192,12995,128,0,13662:0:0:0:0:\n\
475,192,13661,1,0,0:0:0:0:\n\
256,192,13661,1,0,0:0:0:0:\n\
36,192,13994,1,0,0:0:0:0:\n\
182,192,13994,1,0,0:0:0:0:\n\
36,192,14660,1,0,0:0:0:0:\n\
182,192,14660,1,0,0:0:0:0:\n\
329,192,14993,1,0,0:0:0:0:\n\
182,192,14993,1,0,0:0:0:0:\n\
402,192,14993,128,0,15659:0:0:0:0:\n\
329,192,15159,1,0,0:0:0:0:\n\
182,192,15159,1,0,0:0:0:0:\n\
475,192,15492,1,0,0:0:0:0:\n\
329,192,15492,1,0,0:0:0:0:\n\
109,192,15492,1,0,0:0:0:0:\n\
182,192,15492,1,0,0:0:0:0:\n\
475,192,15658,1,0,0:0:0:0:\n\
256,192,15658,1,0,0:0:0:0:\n\
256,192,15991,1,0,0:0:0:0:\n\
329,192,16657,1,0,0:0:0:0:\n\
329,192,16823,1,0,0:0:0:0:\n\
182,192,17156,1,0,0:0:0:0:\n\
109,192,17156,1,0,0:0:0:0:\n\
182,192,17489,1,0,0:0:0:0:\n\
182,192,17822,1,0,0:0:0:0:\n\
36,192,18155,1,0,0:0:0:0:\n\
182,192,18488,1,0,0:0:0:0:\n\
";

const HOLDS: &str = "\
[General]\n\
Mode:3\n\
[Metadata]\n\
BeatmapID:9\n\
[Difficulty]\n\
CircleSize:4\n\
[TimingPoints]\n\
0,400,4,1,0,100,1,0\n\
[HitObjects]\n\
448,192,1234,128,0,1534:0:0:0:0:\n\
320,192,1684,128,0,1985:0:0:0:0:\n\
192,192,1834,128,0,2134:0:0:0:0:\n\
320,192,2059,128,0,2360:0:0:0:0:\n\
448,192,2059,128,0,2360:0:0:0:0:\n\
64,192,2209,128,0,2510:0:0:0:0:\n\
64,192,2584,128,0,2659:0:0:0:0:\n\
192,192,2584,128,0,2659:0:0:0:0:\n\
320,192,2584,128,0,3034:0:0:0:0:\n\
448,192,3109,128,0,3409:0:0:0:0:\n\
320,192,3109,128,0,3559:0:0:0:0:\n\
64,192,3259,128,0,3334:0:0:0:0:\n\
192,192,3334,128,0,3484:0:0:0:0:\n\
320,192,3634,128,0,3934:0:0:0:0:\n\
448,192,3709,128,0,3784:0:0:0:0:\n\
192,192,3709,128,0,3784:0:0:0:0:\n\
448,192,3859,128,0,4009:0:0:0:0:\n\
64,192,4009,128,0,4309:0:0:0:0:\n\
320,192,4159,128,0,4609:0:0:0:0:\n\
192,192,4159,128,0,4459:0:0:0:0:\n\
448,192,4234,128,0,4535:0:0:0:0:\n\
448,192,4609,128,0,4684:0:0:0:0:\n\
64,192,4759,128,0,5059:0:0:0:0:\n\
192,192,4984,128,0,5285:0:0:0:0:\n\
320,192,5134,128,0,5584:0:0:0:0:\n\
448,192,5284,128,0,5585:0:0:0:0:\n\
320,192,5659,128,0,5734:0:0:0:0:\n\
448,192,5734,128,0,5809:0:0:0:0:\n\
192,192,5734,128,0,5884:0:0:0:0:\n\
64,192,5734,128,0,6034:0:0:0:0:\n\
448,192,5884,128,0,5959:0:0:0:0:\n\
320,192,6034,128,0,6484:0:0:0:0:\n\
448,192,6034,128,0,6109:0:0:0:0:\n\
64,192,6184,128,0,6634:0:0:0:0:\n\
448,192,6184,128,0,6485:0:0:0:0:\n\
192,192,6634,128,0,6935:0:0:0:0:\n\
448,192,6634,128,0,7084:0:0:0:0:\n\
64,192,6859,128,0,7309:0:0:0:0:\n\
320,192,6859,128,0,7160:0:0:0:0:\n\
448,192,7234,128,0,7684:0:0:0:0:\n\
64,192,7609,128,0,7759:0:0:0:0:\n\
192,192,7759,128,0,7909:0:0:0:0:\n\
448,192,7909,128,0,7984:0:0:0:0:\n\
64,192,7909,128,0,8210:0:0:0:0:\n\
";

#[test]
fn patterns_of_the_four_key_chart() {
    compare(
        FOUR,
        ManiaGameMod::Nm,
        &Expected {
            mode: "HB",
            category: "Coordination",
            clusters: &[
                ("Coordination", 15000, false, 199, 2238750.0),
                ("Coordination", 75, false, 4200, 236250.0),
                ("Wildcard", 75, false, 4000, 195000.0),
                ("Density", 75, false, 2401, 162067.5),
                ("Jacks", 75, false, 1198, 80865.0),
            ],
            coverage: [0.0, 0.0, 0.15973333333333334, 0.64, 0.3201333333333333, 0.6133333333333333],
            intensity: [5.866666666666666, 5.0, 5.0, 7.5],
            shares: [0.2727272727272727, 0.1388888888888889, 0.30666666666666664],
        },
    );
    compare(
        FOUR,
        ManiaGameMod::Dt,
        &Expected {
            mode: "HB",
            category: "Coordination",
            clusters: &[
                ("Coordination", 15000, false, 133, 1496250.0),
                ("Coordination", 113, false, 2799, 237215.25),
                ("Wildcard", 113, false, 2667, 195891.15),
                ("Density", 113, false, 1600, 162720.0),
                ("Jacks", 113, false, 799, 81258.3),
            ],
            coverage: [0.0, 0.0, 0.1598, 0.64, 0.32, 0.6134],
            intensity: [8.8, 8.25, 8.25, 5.0],
            shares: [0.2727272727272727, 0.1388888888888889, 0.3066],
        },
    );
    compare(
        FOUR,
        ManiaGameMod::Ht,
        &Expected {
            mode: "HB",
            category: "Coordination",
            clusters: &[
                ("Coordination", 15000, false, 266, 2992500.0),
                ("Coordination", 56, false, 5600, 235200.0),
                ("Wildcard", 56, false, 5067, 184438.80000000002),
                ("Density", 56, false, 3201, 161330.4),
                ("Jacks", 56, false, 1599, 80589.6),
            ],
            coverage: [0.0, 0.0, 0.1599, 0.64, 0.3201, 0.6134],
            intensity: [4.4, 4.25, 4.25, 10.0],
            shares: [0.2727272727272727, 0.1388888888888889, 0.3066],
        },
    );
}

#[test]
fn patterns_of_the_six_key_chart() {
    compare(
        SIX,
        ManiaGameMod::Nm,
        &Expected {
            mode: "RC",
            category: "Light Chordstream Tech",
            clusters: &[
                ("Chordstream", 55, true, 1997, 71392.75),
                ("Jacks", 45, false, 1332, 53946.0),
            ],
            coverage: [0.0, 0.1935077519379845, 0.12906976744186047, 0.0, 0.0, 0.0],
            intensity: [4.166666666666667, 4.741379310344828, 4.741379310344828, 6.32],
            shares: [0.0, 0.0, 0.677422480620155],
        },
    );
    compare(
        SIX,
        ManiaGameMod::Dt,
        &Expected {
            mode: "RC",
            category: "Light Chordstream Tech",
            clusters: &[
                ("Chordstream", 83, true, 1332, 71861.40000000001),
                ("Jacks", 68, false, 888, 54345.600000000006),
            ],
            coverage: [0.0, 0.1936046511627907, 0.12906976744186047, 0.0, 0.0, 0.0],
            intensity: [6.25, 5.75, 5.75, 6.88],
            shares: [0.0, 0.0, 0.6773255813953488],
        },
    );
    compare(
        SIX,
        ManiaGameMod::Ht,
        &Expected {
            mode: "RC",
            category: "Light Chordstream Tech",
            clusters: &[
                ("Chordstream", 42, true, 2663, 72699.90000000001),
                ("Jacks", 34, false, 1776, 54345.600000000006),
            ],
            coverage: [0.0, 0.19353197674418604, 0.12906976744186047, 0.0, 0.0, 0.0],
            intensity: [3.125, 3.409090909090909, 3.0, 13.76],
            shares: [0.0, 0.0, 0.6773982558139535],
        },
    );
}

#[test]
fn patterns_of_the_seven_key_chart() {
    compare(
        SEVEN,
        ManiaGameMod::Nm,
        &Expected {
            mode: "RC",
            category: "Chordjacks Tech",
            clusters: &[
                ("Jacks", 60, true, 666, 35964.0),
                ("Jacks", 90, false, 333, 26973.0),
            ],
            coverage: [0.0, 0.0, 0.05403504976200779, 0.0, 0.0, 0.0],
            intensity: [2.3799221116399827, 4.0, 3.215434083601286, 6.4879999999999995],
            shares: [0.11363636363636363, 0.09375, 0.9459649502379922],
        },
    );
    compare(
        SEVEN,
        ManiaGameMod::Dt,
        &Expected {
            mode: "RC",
            category: "Chordjacks Tech",
            clusters: &[
                ("Jacks", 90, true, 444, 35964.0),
                ("Jacks", 34, false, 888, 27172.800000000003),
                ("Jacks", 135, false, 222, 26973.0),
            ],
            coverage: [0.0, 0.0, 0.08105476673427991, 0.0, 0.0, 0.0],
            intensity: [3.569979716024341, 6.153846153846153, 4.0, 4.325],
            shares: [0.11363636363636363, 0.09375, 0.9189452332657201],
        },
    );
    compare(
        SEVEN,
        ManiaGameMod::Ht,
        &Expected {
            mode: "RC",
            category: "Chordjacks Tech",
            clusters: &[
                ("Jacks", 45, true, 888, 35964.0),
                ("Jacks", 68, false, 444, 27172.800000000003),
            ],
            coverage: [0.0, 0.0, 0.054036511156186615, 0.0, 0.0, 0.0],
            intensity: [1.7849898580121706, 3.5, 2.75, 8.65],
            shares: [0.11363636363636363, 0.09375, 0.9459634888438134],
        },
    );
}

#[test]
fn patterns_of_the_hold_chart() {
    compare(
        HOLDS,
        ManiaGameMod::Nm,
        &Expected {
            mode: "LN",
            category: "Coordination",
            clusters: &[
                ("Coordination", 15000, false, 522, 5872500.0),
                ("Coordination", 200, false, 3977, 636320.0000000001),
                ("Density", 200, false, 2101, 378180.0),
                ("Wildcard", 200, false, 2101, 231110.00000000003),
                ("Wildcard", 124, true, 2701, 184208.2),
            ],
            coverage: [0.0, 0.0, 0.0, 0.9569954128440367, 0.5060206422018348, 0.6456422018348624],
            intensity: [6.307339449541284, 6.25, 6.25, 6.976],
            shares: [1.0, 0.0, 0.043004587155963336],
        },
    );
    compare(
        HOLDS,
        ManiaGameMod::Dt,
        &Expected {
            mode: "LN",
            category: "Coordination",
            clusters: &[
                ("Coordination", 300, false, 2850, 684000.0),
                ("Density", 300, false, 1400, 378000.0),
                ("Wildcard", 300, false, 1400, 231000.00000000003),
                ("Wildcard", 174, true, 1800, 172260.00000000003),
            ],
            coverage: [0.0, 0.0, 0.0, 0.956989247311828, 0.5483870967741935, 0.6881720430107527],
            intensity: [9.462365591397848, 7.692307692307692, 7.692307692307692, 4.65],
            shares: [1.0, 0.0, 0.043010752688172005],
        },
    );
    compare(
        HOLDS,
        ManiaGameMod::Ht,
        &Expected {
            mode: "LN",
            category: "Coordination",
            clusters: &[
                ("Coordination", 15000, false, 697, 7841250.0),
                ("Coordination", 150, false, 5302, 636240.0),
                ("Density", 150, false, 2801, 378135.0),
                ("Wildcard", 150, false, 2801, 231082.50000000003),
                ("Wildcard", 93, true, 3601, 184191.15000000002),
            ],
            coverage: [0.0, 0.0, 0.0, 0.9569938716267068, 0.5058595849908611, 0.6455219868831309],
            intensity: [4.730674121062251, 4.75, 4.75, 9.301],
            shares: [1.0, 0.0, 0.043006128373293206],
        },
    );
}
