//! The whole pattern analysis of a beatmap file.

use crate::board::ChartError;
use crate::chart::ChartView;
use crate::number::{decimal, parse_decimal, parse_unsigned, unsigned_up_to, Number, TICKS};
use crate::parser::{chart_of, parse_chart};
use crate::profile::{features_of, span_of, window_count, FeaturesView, MmaFeatures, WINDOW_MS};
use crate::rate::{at_rate, change_rate};
use crate::summary::{from_chart, report_of, MmaReport, ReportError, ReportView};
use crate::text::{
    begins_with, ends_in, ends_with, find, is_word, position, split, split_on, starts_with, texts,
    to_chars, trim, trimmed,
};
use crate::types::ManiaGameMod;
use vstd::prelude::*;
use vstd::slice::slice_subrange;

verus! {

/// The version of the analysis.
pub const MANIA_MMA_ALGORITHM_VERSION: u32 = 2;

/// The sections that say what a file is.
#[derive(Clone, Copy, Debug, PartialEq, Eq, Structural)]
pub enum MetaSection {
    General,
    Difficulty,
    Other,
}

/// The section that a header opens.
pub open spec fn meta_section(header: Seq<char>) -> MetaSection {
    if header == "[General]"@ {
        MetaSection::General
    } else if header == "[Difficulty]"@ {
        MetaSection::Difficulty
    } else {
        MetaSection::Other
    }
}

/// What a file says it is: its game mode and its number of keys.
#[derive(Clone, Copy, Debug, PartialEq, Eq, Structural)]
pub struct LightMetadata {
    pub mode: Option<u8>,
    pub key_count: Option<u8>,
}

/// A game mode, as it is written.
pub open spec fn mode_number(value: Seq<char>) -> Option<u8> {
    match unsigned_up_to(value, 255) {
        Some(v) => Some(v as u8),
        None => None,
    }
}

/// A number of keys, as it is written: rounded to the nearest that fits.
pub open spec fn key_number(value: Seq<char>) -> Option<u8> {
    match decimal(value) {
        Some(Number::Ticks(t)) => if t < 0 {
            Some(0u8)
        } else {
            let whole = (2 * t + TICKS) / (2 * TICKS);
            Some(
                if whole > 255 {
                    255u8
                } else {
                    whole as u8
                },
            )
        },
        _ => None,
    }
}

/// What is known of a file after some of its lines, and the section it is in.
pub open spec fn read_meta(lines: Seq<Seq<char>>) -> (MetaSection, LightMetadata)
    decreases lines.len(),
{
    if lines.len() == 0 {
        (MetaSection::Other, LightMetadata { mode: None, key_count: None })
    } else {
        let (section, known) = read_meta(lines.drop_last());
        let line = trimmed(lines.last());
        let i = position(line, ':');
        if begins_with(line, "["@) && ends_in(line, "]"@) {
            (meta_section(line), known)
        } else if i < line.len() {
            let key = trimmed(line.take(i));
            let value = trimmed(line.skip(i + 1));
            if section == MetaSection::General && key == "Mode"@ {
                (section, LightMetadata { mode: mode_number(value), key_count: known.key_count })
            } else if section == MetaSection::Difficulty && key == "CircleSize"@ {
                (section, LightMetadata { mode: known.mode, key_count: key_number(value) })
            } else {
                (section, known)
            }
        } else {
            (section, known)
        }
    }
}

/// What a file says it is.
pub open spec fn light_metadata(text: Seq<char>) -> LightMetadata {
    read_meta(split(text, '\n')).1
}

/// Why a file is not analyzed.
#[derive(Clone, Copy, Debug)]
pub enum MmaError {
    /// The file belongs to another game mode.
    OtherMode,
    /// The file has no number of keys.
    NoKeyCount,
    /// The file has another number of keys than 4, 6 or 7.
    UnsupportedKeyCount(u8),
    /// There is no first note to count the time from.
    NoHitObjects,
    /// The file gives no chart.
    Chart(ChartError),
    /// The chart has another number of keys than the file says.
    KeyCountChanged { said: u8, found: usize },
    /// The chart has more windows than memory has places.
    TooLong,
    /// No cluster has any importance.
    Unimportant,
}

/// What the analysis finds in a chart.
#[derive(Clone, Debug)]
pub struct ManiaMmaAnalysis {
    pub key_count: u8,
    pub report: MmaReport,
    pub features: MmaFeatures,
}

/// A [`ManiaMmaAnalysis`] as a value.
#[verifier::ext_equal]
pub struct AnalysisView {
    pub key_count: u8,
    pub report: ReportView,
    pub features: FeaturesView,
}

impl View for ManiaMmaAnalysis {
    type V = AnalysisView;

    open spec fn view(&self) -> AnalysisView {
        AnalysisView {
            key_count: self.key_count,
            report: self.report@,
            features: self.features@,
        }
    }
}

/// What the analysis finds in a chart of a file that says to have `keys` keys.
pub open spec fn examined(c: ChartView, keys: u8) -> Result<AnalysisView, MmaError> {
    match report_of(c) {
        Err(ReportError::Unimportant) => Err(MmaError::Unimportant),
        Ok(report) => if window_count(span_of(c)) > usize::MAX {
            Err(MmaError::TooLong)
        } else {
            Ok(
                AnalysisView {
                    key_count: keys,
                    report,
                    features: features_of(c, report.patterns, report.clusters),
                },
            )
        },
    }
}

/// What the analysis finds in a file at a clock rate.
pub open spec fn mma_of(text: Seq<char>, m: ManiaGameMod) -> Result<AnalysisView, MmaError> {
    let meta = light_metadata(text);
    if meta.mode != Some(3u8) {
        Err(MmaError::OtherMode)
    } else {
        match meta.key_count {
            None => Err(MmaError::NoKeyCount),
            Some(keys) => if keys != 4 && keys != 6 && keys != 7 {
                Err(MmaError::UnsupportedKeyCount(keys))
            } else {
                match at_rate(text, m.spec_rate()) {
                    Err(_) => Err(MmaError::NoHitObjects),
                    Ok(moved) => match chart_of(moved) {
                        Err(x) => Err(MmaError::Chart(x)),
                        Ok(c) => if c.keys != keys {
                            Err(MmaError::KeyCountChanged { said: keys, found: c.keys as usize })
                        } else {
                            examined(c, keys)
                        },
                    },
                }
            },
        }
    }
}

fn read_key_number(value: &[char]) -> (r: Option<u8>)
    ensures
        r == key_number(value@),
{
    match parse_decimal(value) {
        Some(Number::Ticks(t)) => {
            if t < 0 {
                Some(0)
            } else {
                let whole: i128 = (2 * t + TICKS) / (2 * TICKS);
                if whole > 255 {
                    Some(255)
                } else {
                    Some(whole as u8)
                }
            }
        },
        _ => None,
    }
}

/// Reads what a file says it is.
pub fn lightweight_metadata(text: &[char]) -> (r: LightMetadata)
    ensures
        r == light_metadata(text@),
{
    let lines = split_on(text, '\n');
    let ghost all = split(text@, '\n');
    let mut known = LightMetadata { mode: None, key_count: None };
    let mut section = MetaSection::Other;
    let mut n: usize = 0;
    assert(all.take(0) =~= Seq::<Seq<char>>::empty());
    while n < lines.len()
        invariant
            n <= lines@.len(),
            all == texts(lines@),
            (section, known) == read_meta(all.take(n as int)),
        decreases lines@.len() - n,
    {
        let line = trim(lines[n]);
        proof {
            assert(all.take(n + 1).drop_last() =~= all.take(n as int));
            assert(all.take(n + 1).last() == lines@[n as int]@);
            assert(line@.skip(0) =~= line@);
        }
        let i = find(line, 0, ':');
        if starts_with(line, "[") && ends_with(line, "]") {
            section = if is_word(line, "[General]") {
                MetaSection::General
            } else if is_word(line, "[Difficulty]") {
                MetaSection::Difficulty
            } else {
                MetaSection::Other
            };
        } else if i < line.len() {
            let head = slice_subrange(line, 0, i);
            let tail = slice_subrange(line, i + 1, line.len());
            assert(head@ =~= line@.take(i as int));
            assert(tail@ =~= line@.skip(i + 1));
            let key = trim(head);
            let value = trim(tail);
            if section == MetaSection::General && is_word(key, "Mode") {
                known.mode = match parse_unsigned(value, 255) {
                    Some(v) => Some(v as u8),
                    None => None,
                };
            } else if section == MetaSection::Difficulty && is_word(key, "CircleSize") {
                known.key_count = read_key_number(value);
            }
        }
        n = n + 1;
    }
    assert(all.take(n as int) =~= all);
    known
}

/// Finds the patterns of a file at a clock rate, which is brought about before
/// the chart is read.
pub fn analyze(text: &str, game_mod: ManiaGameMod) -> (r: Result<ManiaMmaAnalysis, MmaError>)
    ensures
        match r {
            Ok(a) => mma_of(text@, game_mod) == Ok::<AnalysisView, MmaError>(a@),
            Err(x) => mma_of(text@, game_mod) == Err::<AnalysisView, MmaError>(x),
        },
{
    let chars = to_chars(text);
    let meta = lightweight_metadata(chars.as_slice());
    match meta.mode {
        Some(3) => {},
        _ => {
            return Err(MmaError::OtherMode);
        },
    }
    let keys: u8 = match meta.key_count {
        Some(k) => k,
        None => {
            return Err(MmaError::NoKeyCount);
        },
    };
    if keys != 4 && keys != 6 && keys != 7 {
        return Err(MmaError::UnsupportedKeyCount(keys));
    }
    let moved = match change_rate(chars.as_slice(), game_mod.rate()) {
        Ok(t) => t,
        Err(_) => {
            return Err(MmaError::NoHitObjects);
        },
    };
    let chart = match parse_chart(moved.as_slice()) {
        Ok(c) => c,
        Err(x) => {
            return Err(MmaError::Chart(x));
        },
    };
    if chart.keys != keys as usize {
        return Err(MmaError::KeyCountChanged { said: keys, found: chart.keys });
    }
    let report = match from_chart(&chart) {
        Ok(report) => report,
        Err(ReportError::Unimportant) => {
            return Err(MmaError::Unimportant);
        },
    };
    let lasting: i64 = chart.duration();
    let span: i64 = if lasting >= 1 {
        lasting
    } else {
        1
    };
    if (span + WINDOW_MS - 1) as i128 / WINDOW_MS as i128 > usize::MAX as i128 {
        return Err(MmaError::TooLong);
    }
    let features = crate::profile::derive(&chart, report.patterns.as_slice(), report.clusters.as_slice());
    Ok(ManiaMmaAnalysis { key_count: keys, report, features })
}

} // verus!
