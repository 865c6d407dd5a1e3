use osu_difficulty_lab::config::{
    core_from_name, core_rating_multiplier, kind_from_name, mode_from_tag, mode_tag_from_ln_ratio,
    resolve_rating_multiplier, subtype_rating_multiplier,
};
use osu_difficulty_lab::finder::Subtype;
use osu_difficulty_lab::types::{ManiaModeFamily, ManiaPattern, Ratio};

fn weight(mode: &str, name: &str) -> Option<f64> {
    subtype_rating_multiplier(mode, name).map(|r| r.num as f64 / r.den as f64)
}

fn tag(num: i128, den: i128) -> &'static str {
    mode_tag_from_ln_ratio(Ratio { num, den })
}

#[test]
fn ln_mode_uses_its_own_overrides() {
    assert_eq!(weight("LN", "Release"), Some(1.0));
    assert_eq!(weight("LN", "JS Density"), Some(0.9));
    assert_eq!(weight("LN", "HS Density"), Some(0.9));
    assert_eq!(weight("LN", "DCS Density"), Some(0.9));
    assert_eq!(weight("LN", "Inverse"), Some(1.5));
    assert_eq!(weight("LN", "Column Lock"), Some(1.5));
    assert_eq!(weight("LN", "Shield"), Some(0.8));
    assert_eq!(weight("LN", "Jacky WC"), Some(0.55));
    assert_eq!(weight("LN", "Speedy WC"), Some(0.8));
    assert_eq!(weight("LN", "Jumpstream"), Some(0.65));
    assert_eq!(weight("LN", "Rolls"), Some(1.0 / 3.0));
}

#[test]
fn other_modes_keep_the_upstream_tables() {
    assert_eq!(weight("RC", "Release"), Some(0.73));
    assert_eq!(weight("RC", "JS Density"), Some(1.0));
    assert_eq!(weight("RC", "Shield"), Some(0.8));
    assert_eq!(weight("HB", "Release"), Some(0.3));
    assert_eq!(weight("HB", "Inverse"), Some(0.0));
    assert_eq!(weight("HB", "Jacky WC"), Some(0.65));
    assert_eq!(weight("Mix", "Release"), Some(0.3));
    assert_eq!(weight("Mix", "Inverse"), Some(0.0));
    assert_eq!(weight("Mix", "Jacky WC"), Some(0.45));
    assert_eq!(weight("Mix", "Speedy WC"), Some(0.45));
    assert_eq!(weight("unknown", "Release"), Some(0.3));
}

#[test]
fn mode_tags_follow_the_upstream_thresholds() {
    assert_eq!(tag(0, 1), "RC");
    assert_eq!(tag(15, 100), "RC");
    assert_eq!(tag(1, 2), "Mix");
    assert_eq!(tag(9, 10), "LN");
    assert_eq!(tag(0, 0), "Mix");
}

#[test]
fn unknown_kinds_have_no_weight_of_their_own() {
    assert_eq!(weight("RC", "Somersaults"), None);
    assert_eq!(weight("LN", ""), None);
}

#[test]
fn core_weights_are_those_of_the_table() {
    let core = |name: &str| {
        let r = core_rating_multiplier(name);
        r.num as f64 / r.den as f64
    };
    assert_eq!(core("Stream"), 1.0 / 3.0);
    assert_eq!(core("Chordstream"), 0.65);
    assert_eq!(core("Jacks"), 0.9);
    assert_eq!(core("Coordination"), 0.75);
    assert_eq!(core("Density"), 0.9);
    assert_eq!(core("Wildcard"), 1.0);
    assert_eq!(core("anything else"), 1.0);
}

#[test]
fn names_lead_back_to_what_they_name() {
    for name in ["Stream", "Chordstream", "Jacks", "Coordination", "Density", "Wildcard"] {
        assert_eq!(core_from_name(name).unwrap().as_str(), name);
    }
    for name in ["Rolls", "Split Trill", "LCS Density", "Speedy WC", "Dense Chordstream"] {
        assert_eq!(kind_from_name(name).unwrap().as_str(), name);
    }
    for tag in ["RC", "HB", "Mix", "LN"] {
        assert_eq!(mode_from_tag(tag).as_str(), tag);
    }
}

#[test]
fn holds_weigh_nothing_among_taps_and_taps_less_among_holds() {
    let full = |pattern, kind, mode| {
        let r: Ratio = resolve_rating_multiplier(pattern, kind, mode);
        r.num as f64 / r.den as f64
    };
    assert_eq!(
        full(ManiaPattern::Density, Some(Subtype::Inverse), ManiaModeFamily::Rc),
        0.0
    );
    assert_eq!(full(ManiaPattern::Jacks, None, ManiaModeFamily::Rc), 0.9);
    assert!((full(ManiaPattern::Jacks, None, ManiaModeFamily::Ln) - 0.27).abs() < 1e-12);
}
