//! How much each pattern weighs, and where families of charts begin.

use crate::finder::Subtype;
use crate::text::{is_word, to_chars};
use crate::types::{ManiaModeFamily, ManiaPattern, Ratio};
use vstd::prelude::*;

verus! {

/// The weight of a core pattern.
pub open spec fn core_weight(pattern: ManiaPattern) -> Ratio {
    match pattern {
        ManiaPattern::Stream => Ratio { num: 1, den: 3 },
        ManiaPattern::Chordstream => Ratio { num: 13, den: 20 },
        ManiaPattern::Jacks => Ratio { num: 9, den: 10 },
        ManiaPattern::Coordination => Ratio { num: 3, den: 4 },
        ManiaPattern::Density => Ratio { num: 9, den: 10 },
        ManiaPattern::Wildcard => Ratio { num: 1, den: 1 },
    }
}

fn weight_of_core(pattern: ManiaPattern) -> (r: Ratio)
    ensures
        r == core_weight(pattern),
{
    match pattern {
        ManiaPattern::Stream => Ratio { num: 1, den: 3 },
        ManiaPattern::Chordstream => Ratio { num: 13, den: 20 },
        ManiaPattern::Jacks => Ratio { num: 9, den: 10 },
        ManiaPattern::Coordination => Ratio { num: 3, den: 4 },
        ManiaPattern::Density => Ratio { num: 9, den: 10 },
        ManiaPattern::Wildcard => Ratio { num: 1, den: 1 },
    }
}

/// The core pattern of a name.
pub open spec fn core_named(name: Seq<char>) -> Option<ManiaPattern> {
    if name == "Stream"@ {
        Some(ManiaPattern::Stream)
    } else if name == "Chordstream"@ {
        Some(ManiaPattern::Chordstream)
    } else if name == "Jacks"@ {
        Some(ManiaPattern::Jacks)
    } else if name == "Coordination"@ {
        Some(ManiaPattern::Coordination)
    } else if name == "Density"@ {
        Some(ManiaPattern::Density)
    } else if name == "Wildcard"@ {
        Some(ManiaPattern::Wildcard)
    } else {
        None
    }
}

/// The core pattern of a name.
pub fn core_from_name(name: &str) -> (r: Option<ManiaPattern>)
    ensures
        r == core_named(name@),
{
    let chars = to_chars(name);
    let s = chars.as_slice();
    if is_word(s, "Stream") {
        Some(ManiaPattern::Stream)
    } else if is_word(s, "Chordstream") {
        Some(ManiaPattern::Chordstream)
    } else if is_word(s, "Jacks") {
        Some(ManiaPattern::Jacks)
    } else if is_word(s, "Coordination") {
        Some(ManiaPattern::Coordination)
    } else if is_word(s, "Density") {
        Some(ManiaPattern::Density)
    } else if is_word(s, "Wildcard") {
        Some(ManiaPattern::Wildcard)
    } else {
        None
    }
}

/// The weight of a core pattern by its name; other names weigh one.
pub fn core_rating_multiplier(pattern: &str) -> (r: Ratio)
    ensures
        r == (match core_named(pattern@) {
            Some(p) => core_weight(p),
            None => Ratio { num: 1, den: 1 },
        }),
{
    match core_from_name(pattern) {
        Some(p) => weight_of_core(p),
        None => Ratio { num: 1, den: 1 },
    }
}

/// Whether a kind belongs to patterns of holds.
pub open spec fn is_hold_kind(kind: Subtype) -> bool {
    match kind {
        Subtype::ColumnLock => true,
        Subtype::Release => true,
        Subtype::Shield => true,
        Subtype::JsDensity => true,
        Subtype::HsDensity => true,
        Subtype::DsDensity => true,
        Subtype::LcsDensity => true,
        Subtype::DcsDensity => true,
        Subtype::Inverse => true,
        Subtype::JackyWc => true,
        Subtype::SpeedyWc => true,
        _ => false,
    }
}

/// The weight of a kind of taps, in every family.
pub open spec fn tap_weight(kind: Subtype) -> Ratio {
    match kind {
        Subtype::Rolls => Ratio { num: 1, den: 3 },
        Subtype::Trills => Ratio { num: 1, den: 3 },
        Subtype::Minitrills => Ratio { num: 1, den: 3 },
        Subtype::Longjacks => Ratio { num: 9, den: 10 },
        Subtype::Quadstream => Ratio { num: 9, den: 10 },
        Subtype::Gluts => Ratio { num: 9, den: 10 },
        Subtype::Chordjacks => Ratio { num: 9, den: 10 },
        Subtype::Minijacks => Ratio { num: 9, den: 10 },
        _ => Ratio { num: 13, den: 20 },
    }
}

/// The weight of a kind of holds in a family.
pub open spec fn hold_weight(mode: ManiaModeFamily, kind: Subtype) -> Ratio {
    match kind {
        Subtype::ColumnLock => Ratio { num: 3, den: 2 },
        Subtype::Shield => Ratio { num: 4, den: 5 },
        Subtype::Release => match mode {
            ManiaModeFamily::Rc => Ratio { num: 73, den: 100 },
            ManiaModeFamily::Ln => Ratio { num: 1, den: 1 },
            _ => Ratio { num: 3, den: 10 },
        },
        Subtype::Inverse => match mode {
            ManiaModeFamily::Rc => Ratio { num: 3, den: 2 },
            ManiaModeFamily::Ln => Ratio { num: 3, den: 2 },
            _ => Ratio { num: 0, den: 1 },
        },
        Subtype::JackyWc => match mode {
            ManiaModeFamily::Hb => Ratio { num: 13, den: 20 },
            ManiaModeFamily::Mix => Ratio { num: 9, den: 20 },
            _ => Ratio { num: 11, den: 20 },
        },
        Subtype::SpeedyWc => match mode {
            ManiaModeFamily::Hb => Ratio { num: 9, den: 20 },
            ManiaModeFamily::Mix => Ratio { num: 9, den: 20 },
            _ => Ratio { num: 4, den: 5 },
        },
        _ => match mode {
            ManiaModeFamily::Rc => Ratio { num: 1, den: 1 },
            _ => Ratio { num: 9, den: 10 },
        },
    }
}

/// The weight of a kind in a family.
pub open spec fn kind_weight(mode: ManiaModeFamily, kind: Subtype) -> Ratio {
    if is_hold_kind(kind) {
        hold_weight(mode, kind)
    } else {
        tap_weight(kind)
    }
}

fn weight_of_taps(kind: Subtype) -> (r: Ratio)
    ensures
        r == tap_weight(kind),
{
    match kind {
        Subtype::Rolls => Ratio { num: 1, den: 3 },
        Subtype::Trills => Ratio { num: 1, den: 3 },
        Subtype::Minitrills => Ratio { num: 1, den: 3 },
        Subtype::Longjacks => Ratio { num: 9, den: 10 },
        Subtype::Quadstream => Ratio { num: 9, den: 10 },
        Subtype::Gluts => Ratio { num: 9, den: 10 },
        Subtype::Chordjacks => Ratio { num: 9, den: 10 },
        Subtype::Minijacks => Ratio { num: 9, den: 10 },
        _ => Ratio { num: 13, den: 20 },
    }
}

fn weight_of_holds(mode: ManiaModeFamily, kind: Subtype) -> (r: Ratio)
    ensures
        r == hold_weight(mode, kind),
{
    match kind {
        Subtype::ColumnLock => Ratio { num: 3, den: 2 },
        Subtype::Shield => Ratio { num: 4, den: 5 },
        Subtype::Release => match mode {
            ManiaModeFamily::Rc => Ratio { num: 73, den: 100 },
            ManiaModeFamily::Ln => Ratio { num: 1, den: 1 },
            _ => Ratio { num: 3, den: 10 },
        },
        Subtype::Inverse => match mode {
            ManiaModeFamily::Rc => Ratio { num: 3, den: 2 },
            ManiaModeFamily::Ln => Ratio { num: 3, den: 2 },
            _ => Ratio { num: 0, den: 1 },
        },
        Subtype::JackyWc => match mode {
            ManiaModeFamily::Hb => Ratio { num: 13, den: 20 },
            ManiaModeFamily::Mix => Ratio { num: 9, den: 20 },
            _ => Ratio { num: 11, den: 20 },
        },
        Subtype::SpeedyWc => match mode {
            ManiaModeFamily::Hb => Ratio { num: 9, den: 20 },
            ManiaModeFamily::Mix => Ratio { num: 9, den: 20 },
            _ => Ratio { num: 4, den: 5 },
        },
        _ => match mode {
            ManiaModeFamily::Rc => Ratio { num: 1, den: 1 },
            _ => Ratio { num: 9, den: 10 },
        },
    }
}

fn is_of_holds(kind: Subtype) -> (r: bool)
    ensures
        r == is_hold_kind(kind),
{
    match kind {
        Subtype::ColumnLock => true,
        Subtype::Release => true,
        Subtype::Shield => true,
        Subtype::JsDensity => true,
        Subtype::HsDensity => true,
        Subtype::DsDensity => true,
        Subtype::LcsDensity => true,
        Subtype::DcsDensity => true,
        Subtype::Inverse => true,
        Subtype::JackyWc => true,
        Subtype::SpeedyWc => true,
        _ => false,
    }
}

/// The weight of a kind in a family.
pub fn weight_of_kind(mode: ManiaModeFamily, kind: Subtype) -> (r: Ratio)
    ensures
        r == kind_weight(mode, kind),
{
    if is_of_holds(kind) {
        weight_of_holds(mode, kind)
    } else {
        weight_of_taps(kind)
    }
}

/// The family of a tag; other tags stand for mixed charts.
pub open spec fn mode_tagged(tag: Seq<char>) -> ManiaModeFamily {
    if tag == "RC"@ {
        ManiaModeFamily::Rc
    } else if tag == "LN"@ {
        ManiaModeFamily::Ln
    } else if tag == "HB"@ {
        ManiaModeFamily::Hb
    } else {
        ManiaModeFamily::Mix
    }
}

/// The kind of a number: all kinds, in order.
pub open spec fn kind_at(n: int) -> Subtype {
    if n == 0 {
        Subtype::Rolls
    } else if n == 1 {
        Subtype::Trills
    } else if n == 2 {
        Subtype::Minitrills
    } else if n == 3 {
        Subtype::Handstream
    } else if n == 4 {
        Subtype::SplitTrill
    } else if n == 5 {
        Subtype::Jumptrill
    } else if n == 6 {
        Subtype::Jumpstream
    } else if n == 7 {
        Subtype::Brackets
    } else if n == 8 {
        Subtype::DoubleStream
    } else if n == 9 {
        Subtype::DenseChordstream
    } else if n == 10 {
        Subtype::LightChordstream
    } else if n == 11 {
        Subtype::ChordRolls
    } else if n == 12 {
        Subtype::Longjacks
    } else if n == 13 {
        Subtype::Quadstream
    } else if n == 14 {
        Subtype::Gluts
    } else if n == 15 {
        Subtype::Chordjacks
    } else if n == 16 {
        Subtype::Minijacks
    } else if n == 17 {
        Subtype::ColumnLock
    } else if n == 18 {
        Subtype::Release
    } else if n == 19 {
        Subtype::Shield
    } else if n == 20 {
        Subtype::JsDensity
    } else if n == 21 {
        Subtype::HsDensity
    } else if n == 22 {
        Subtype::DsDensity
    } else if n == 23 {
        Subtype::LcsDensity
    } else if n == 24 {
        Subtype::DcsDensity
    } else if n == 25 {
        Subtype::Inverse
    } else if n == 26 {
        Subtype::JackyWc
    } else {
        Subtype::SpeedyWc
    }
}

fn kind_of_number(n: usize) -> (r: Subtype)
    ensures
        r == kind_at(n as int),
{
    match n {
        0 => Subtype::Rolls,
        1 => Subtype::Trills,
        2 => Subtype::Minitrills,
        3 => Subtype::Handstream,
        4 => Subtype::SplitTrill,
        5 => Subtype::Jumptrill,
        6 => Subtype::Jumpstream,
        7 => Subtype::Brackets,
        8 => Subtype::DoubleStream,
        9 => Subtype::DenseChordstream,
        10 => Subtype::LightChordstream,
        11 => Subtype::ChordRolls,
        12 => Subtype::Longjacks,
        13 => Subtype::Quadstream,
        14 => Subtype::Gluts,
        15 => Subtype::Chordjacks,
        16 => Subtype::Minijacks,
        17 => Subtype::ColumnLock,
        18 => Subtype::Release,
        19 => Subtype::Shield,
        20 => Subtype::JsDensity,
        21 => Subtype::HsDensity,
        22 => Subtype::DsDensity,
        23 => Subtype::LcsDensity,
        24 => Subtype::DcsDensity,
        25 => Subtype::Inverse,
        26 => Subtype::JackyWc,
        _ => Subtype::SpeedyWc,
    }
}

/// The first kind of a name, from number `n` on.
pub open spec fn kind_named_from(name: Seq<char>, n: int) -> Option<Subtype>
    decreases 28 - n,
{
    if n >= 28 {
        None
    } else if name == kind_at(n).name() {
        Some(kind_at(n))
    } else {
        kind_named_from(name, n + 1)
    }
}

/// The kind of a name.
pub open spec fn kind_named(name: Seq<char>) -> Option<Subtype> {
    kind_named_from(name, 0)
}

/// The kind of a name.
pub fn kind_from_name(name: &str) -> (r: Option<Subtype>)
    ensures
        r == kind_named(name@),
{
    let chars = to_chars(name);
    let mut n: usize = 0;
    while n < 28
        invariant
            n <= 28,
            chars@ == name@,
            kind_named(name@) == kind_named_from(name@, n as int),
        decreases 28 - n,
    {
        let kind = kind_of_number(n);
        if is_word(chars.as_slice(), kind.as_str()) {
            return Some(kind);
        }
        n = n + 1;
    }
    None
}

/// The weight of a kind in a family, by their names; `None` means that there
/// is no such kind, and the weight of its core pattern counts.
pub fn subtype_rating_multiplier(mode_tag: &str, name: &str) -> (r: Option<Ratio>)
    ensures
        r == (match kind_named(name@) {
            Some(kind) => Some(kind_weight(mode_tagged(mode_tag@), kind)),
            None => None,
        }),
{
    match kind_from_name(name) {
        Some(kind) => Some(weight_of_kind(mode_from_tag(mode_tag), kind)),
        None => None,
    }
}

/// The family of a tag; other tags stand for mixed charts.
pub fn mode_from_tag(tag: &str) -> (r: ManiaModeFamily)
    ensures
        r == mode_tagged(tag@),
{
    let chars = to_chars(tag);
    let s = chars.as_slice();
    if is_word(s, "RC") {
        ManiaModeFamily::Rc
    } else if is_word(s, "LN") {
        ManiaModeFamily::Ln
    } else if is_word(s, "HB") {
        ManiaModeFamily::Hb
    } else {
        ManiaModeFamily::Mix
    }
}

/// Whether a core pattern is one of holds.
pub open spec fn is_hold_core(pattern: ManiaPattern) -> bool {
    pattern == ManiaPattern::Coordination || pattern == ManiaPattern::Density || pattern
        == ManiaPattern::Wildcard
}

/// The weight of a pattern and its kind in a family: nothing for holds among
/// taps, less for taps among holds.
pub open spec fn full_weight(
    pattern: ManiaPattern,
    kind: Option<Subtype>,
    mode: ManiaModeFamily,
) -> Ratio {
    let plain = match kind {
        Some(k) => kind_weight(mode, k),
        None => core_weight(pattern),
    };
    if mode == ManiaModeFamily::Rc && is_hold_core(pattern) {
        Ratio { num: 0, den: 1 }
    } else if mode == ManiaModeFamily::Ln && !is_hold_core(pattern) {
        Ratio { num: (plain.num * 3) as i128, den: (plain.den * 10) as i128 }
    } else {
        plain
    }
}

/// The weight of a pattern and its kind in a family.
pub fn resolve_rating_multiplier(
    pattern: ManiaPattern,
    kind: Option<Subtype>,
    mode: ManiaModeFamily,
) -> (r: Ratio)
    ensures
        r == full_weight(pattern, kind, mode),
        0 <= r.num <= 219,
        0 < r.den <= 200,
        600int % (r.den as int) == 0,
        2 * r.num <= 3 * r.den,
{
    let plain = match kind {
        Some(k) => weight_of_kind(mode, k),
        None => weight_of_core(pattern),
    };
    let of_holds = pattern == ManiaPattern::Coordination || pattern == ManiaPattern::Density
        || pattern == ManiaPattern::Wildcard;
    let r = if mode == ManiaModeFamily::Rc && of_holds {
        Ratio { num: 0, den: 1 }
    } else if mode == ManiaModeFamily::Ln && !of_holds {
        Ratio { num: plain.num * 3, den: plain.den * 10 }
    } else {
        plain
    };
    proof {
        let d = r.den as int;
        assert(d == 1 || d == 2 || d == 3 || d == 4 || d == 5 || d == 10 || d == 20 || d == 30 || d
            == 40 || d == 50 || d == 100 || d == 200);
        assert(600int % 1 == 0 && 600int % 2 == 0 && 600int % 3 == 0 && 600int % 4 == 0 && 600int
            % 5 == 0 && 600int % 10 == 0 && 600int % 20 == 0 && 600int % 30 == 0 && 600int % 40
            == 0 && 600int % 50 == 0 && 600int % 100 == 0 && 600int % 200 == 0);
    }
    r
}

/// The tag of a chart by its share of holds: few, nearly all, or in between;
/// in between also where there is no share.
pub open spec fn tag_of_share(share: Ratio) -> Seq<char> {
    if share.den <= 0 {
        "Mix"@
    } else if 20 * share.num <= 3 * share.den {
        "RC"@
    } else if 10 * share.num >= 9 * share.den {
        "LN"@
    } else {
        "Mix"@
    }
}

/// The tag of a chart by its share of holds.
pub fn mode_tag_from_ln_ratio(ln_ratio: Ratio) -> (r: &'static str)
    requires
        -0x1_0000_0000_0000_0000_0000_0000 <= ln_ratio.num <= 0x1_0000_0000_0000_0000_0000_0000,
        ln_ratio.den <= 0x1_0000_0000_0000_0000_0000_0000,
    ensures
        r@ == tag_of_share(ln_ratio),
{
    if ln_ratio.den <= 0 {
        "Mix"
    } else if 20 * ln_ratio.num <= 3 * ln_ratio.den {
        "RC"
    } else if 10 * ln_ratio.num >= 9 * ln_ratio.den {
        "LN"
    } else {
        "Mix"
    }
}

/// What tells the names of kinds apart: their lengths and first two letters.
spec fn mark_of(k: Subtype) -> (int, char, char) {
    match k {
        Subtype::Rolls => (5, 'R', 'o'),
        Subtype::Trills => (6, 'T', 'r'),
        Subtype::Minitrills => (10, 'M', 'i'),
        Subtype::Handstream => (10, 'H', 'a'),
        Subtype::SplitTrill => (11, 'S', 'p'),
        Subtype::Jumptrill => (9, 'J', 'u'),
        Subtype::Jumpstream => (10, 'J', 'u'),
        Subtype::Brackets => (8, 'B', 'r'),
        Subtype::DoubleStream => (13, 'D', 'o'),
        Subtype::DenseChordstream => (17, 'D', 'e'),
        Subtype::LightChordstream => (17, 'L', 'i'),
        Subtype::ChordRolls => (11, 'C', 'h'),
        Subtype::Longjacks => (9, 'L', 'o'),
        Subtype::Quadstream => (10, 'Q', 'u'),
        Subtype::Gluts => (5, 'G', 'l'),
        Subtype::Chordjacks => (10, 'C', 'h'),
        Subtype::Minijacks => (9, 'M', 'i'),
        Subtype::ColumnLock => (11, 'C', 'o'),
        Subtype::Release => (7, 'R', 'e'),
        Subtype::Shield => (6, 'S', 'h'),
        Subtype::JsDensity => (10, 'J', 'S'),
        Subtype::HsDensity => (10, 'H', 'S'),
        Subtype::DsDensity => (10, 'D', 'S'),
        Subtype::LcsDensity => (11, 'L', 'C'),
        Subtype::DcsDensity => (11, 'D', 'C'),
        Subtype::Inverse => (7, 'I', 'n'),
        Subtype::JackyWc => (8, 'J', 'a'),
        Subtype::SpeedyWc => (9, 'S', 'p'),
    }
}

proof fn lemma_mark(k: Subtype)
    ensures
        k.name().len() == mark_of(k).0,
        k.name()[0] == mark_of(k).1,
        k.name()[1] == mark_of(k).2,
{
    match k {
        Subtype::Rolls => {
            reveal_strlit("Rolls");
        },
        Subtype::Trills => {
            reveal_strlit("Trills");
        },
        Subtype::Minitrills => {
            reveal_strlit("Minitrills");
        },
        Subtype::Handstream => {
            reveal_strlit("Handstream");
        },
        Subtype::SplitTrill => {
            reveal_strlit("Split Trill");
        },
        Subtype::Jumptrill => {
            reveal_strlit("Jumptrill");
        },
        Subtype::Jumpstream => {
            reveal_strlit("Jumpstream");
        },
        Subtype::Brackets => {
            reveal_strlit("Brackets");
        },
        Subtype::DoubleStream => {
            reveal_strlit("Double Stream");
        },
        Subtype::DenseChordstream => {
            reveal_strlit("Dense Chordstream");
        },
        Subtype::LightChordstream => {
            reveal_strlit("Light Chordstream");
        },
        Subtype::ChordRolls => {
            reveal_strlit("Chord Rolls");
        },
        Subtype::Longjacks => {
            reveal_strlit("Longjacks");
        },
        Subtype::Quadstream => {
            reveal_strlit("Quadstream");
        },
        Subtype::Gluts => {
            reveal_strlit("Gluts");
        },
        Subtype::Chordjacks => {
            reveal_strlit("Chordjacks");
        },
        Subtype::Minijacks => {
            reveal_strlit("Minijacks");
        },
        Subtype::ColumnLock => {
            reveal_strlit("Column Lock");
        },
        Subtype::Release => {
            reveal_strlit("Release");
        },
        Subtype::Shield => {
            reveal_strlit("Shield");
        },
        Subtype::JsDensity => {
            reveal_strlit("JS Density");
        },
        Subtype::HsDensity => {
            reveal_strlit("HS Density");
        },
        Subtype::DsDensity => {
            reveal_strlit("DS Density");
        },
        Subtype::LcsDensity => {
            reveal_strlit("LCS Density");
        },
        Subtype::DcsDensity => {
            reveal_strlit("DCS Density");
        },
        Subtype::Inverse => {
            reveal_strlit("Inverse");
        },
        Subtype::JackyWc => {
            reveal_strlit("Jacky WC");
        },
        Subtype::SpeedyWc => {
            reveal_strlit("Speedy WC");
        },
    }
}

proof fn lemma_names_differ(a: Subtype, b: Subtype)
    requires
        a.name() == b.name(),
    ensures
        a == b,
{
    lemma_mark(a);
    lemma_mark(b);
}

proof fn lemma_kind_named(k: Subtype, n: int)
    requires
        exists|m: int| n <= m < 28 && #[trigger] kind_at(m) == k,
        n >= 0,
    ensures
        kind_named_from(k.name(), n) == Some(k),
    decreases 28 - n,
{
    if kind_at(n).name() == k.name() {
        lemma_names_differ(kind_at(n), k);
    } else {
        lemma_kind_named(k, n + 1);
    }
}

/// The names of patterns, kinds and families lead back to them.
pub proof fn law_names_round_trip(p: ManiaPattern, k: Subtype, f: ManiaModeFamily)
    ensures
        core_named(p.name()) == Some(p),
        kind_named(k.name()) == Some(k),
        mode_tagged(f.tag()) == f,
{
    reveal_strlit("Stream");
    reveal_strlit("Chordstream");
    reveal_strlit("Jacks");
    reveal_strlit("Coordination");
    reveal_strlit("Density");
    reveal_strlit("Wildcard");
    assert("Stream"@.len() == 6 && "Chordstream"@.len() == 11 && "Jacks"@.len() == 5
        && "Coordination"@.len() == 12 && "Density"@.len() == 7 && "Wildcard"@.len() == 8);
    reveal_strlit("RC");
    reveal_strlit("HB");
    reveal_strlit("Mix");
    reveal_strlit("LN");
    assert("RC"@[0] == 'R' && "HB"@[0] == 'H' && "LN"@[0] == 'L' && "Mix"@.len() == 3 && "RC"@.len()
        == 2 && "HB"@.len() == 2 && "LN"@.len() == 2);
    lemma_kind_place(k);
    lemma_kind_named(k, 0);
}

proof fn lemma_kind_place(k: Subtype)
    ensures
        exists|m: int| 0 <= m < 28 && #[trigger] kind_at(m) == k,
{
    match k {
        Subtype::Rolls => {
            assert(kind_at(0) == k);
        },
        Subtype::Trills => {
            assert(kind_at(1) == k);
        },
        Subtype::Minitrills => {
            assert(kind_at(2) == k);
        },
        Subtype::Handstream => {
            assert(kind_at(3) == k);
        },
        Subtype::SplitTrill => {
            assert(kind_at(4) == k);
        },
        Subtype::Jumptrill => {
            assert(kind_at(5) == k);
        },
        Subtype::Jumpstream => {
            assert(kind_at(6) == k);
        },
        Subtype::Brackets => {
            assert(kind_at(7) == k);
        },
        Subtype::DoubleStream => {
            assert(kind_at(8) == k);
        },
        Subtype::DenseChordstream => {
            assert(kind_at(9) == k);
        },
        Subtype::LightChordstream => {
            assert(kind_at(10) == k);
        },
        Subtype::ChordRolls => {
            assert(kind_at(11) == k);
        },
        Subtype::Longjacks => {
            assert(kind_at(12) == k);
        },
        Subtype::Quadstream => {
            assert(kind_at(13) == k);
        },
        Subtype::Gluts => {
            assert(kind_at(14) == k);
        },
        Subtype::Chordjacks => {
            assert(kind_at(15) == k);
        },
        Subtype::Minijacks => {
            assert(kind_at(16) == k);
        },
        Subtype::ColumnLock => {
            assert(kind_at(17) == k);
        },
        Subtype::Release => {
            assert(kind_at(18) == k);
        },
        Subtype::Shield => {
            assert(kind_at(19) == k);
        },
        Subtype::JsDensity => {
            assert(kind_at(20) == k);
        },
        Subtype::HsDensity => {
            assert(kind_at(21) == k);
        },
        Subtype::DsDensity => {
            assert(kind_at(22) == k);
        },
        Subtype::LcsDensity => {
            assert(kind_at(23) == k);
        },
        Subtype::DcsDensity => {
            assert(kind_at(24) == k);
        },
        Subtype::Inverse => {
            assert(kind_at(25) == k);
        },
        Subtype::JackyWc => {
            assert(kind_at(26) == k);
        },
        Subtype::SpeedyWc => {
            assert(kind_at(27) == k);
        },
    }
}

} // verus!
