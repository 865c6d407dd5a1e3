//! The values that analyses speak of.

use crate::number::lowered;
use crate::text::{is_word, to_chars};
use vstd::arithmetic::div_mod::lemma_fundamental_div_mod;
use vstd::prelude::*;

verus! {

/// An exact quotient.
#[derive(Clone, Copy, Debug, PartialEq, Eq, Structural)]
pub struct Ratio {
    pub num: i128,
    pub den: i128,
}

impl Ratio {
    /// Whether the quotient exists and is not negative.
    pub open spec fn valid(self) -> bool {
        self.num >= 0 && self.den > 0
    }

    /// Whether the quotient lies between zero and one.
    pub open spec fn is_share(self) -> bool {
        0 <= self.num <= self.den && self.den > 0
    }

    /// `num / den`, or zero where `den` is zero.
    pub open spec fn spec_or_zero(num: int, den: int) -> Ratio {
        if den == 0 {
            Ratio { num: 0, den: 1 }
        } else {
            Ratio { num: num as i128, den: den as i128 }
        }
    }

    /// `num / den`, or zero where `den` is zero.
    pub fn or_zero(num: i128, den: i128) -> (r: Ratio)
        ensures
            r == Ratio::spec_or_zero(num as int, den as int),
    {
        if den == 0 {
            Ratio { num: 0, den: 1 }
        } else {
            Ratio { num, den }
        }
    }
}

/// Whether `a / b` is less than `c / d`.
pub fn fraction_below(a: i128, b: i128, c: i128, d: i128) -> (r: bool)
    requires
        a >= 0,
        b > 0,
        c >= 0,
        d > 0,
    ensures
        r == (a * d < c * b),
    decreases b + d,
{
    let (q, p) = (a / b, c / d);
    let (s, t) = (a % b, c % d);
    proof {
        let (aa, bb, cc, dd) = (a as int, b as int, c as int, d as int);
        let (qq, pp, ss, tt) = (q as int, p as int, s as int, t as int);
        lemma_fundamental_div_mod(aa, bb);
        lemma_fundamental_div_mod(cc, dd);
        assert(0 <= ss < bb && 0 <= tt < dd);
        assert(aa == bb * qq + ss && cc == dd * pp + tt);
        assert(qq < pp ==> aa * dd < cc * bb) by (nonlinear_arith)
            requires
                aa == bb * qq + ss,
                cc == dd * pp + tt,
                0 <= ss < bb,
                0 <= tt < dd,
        ;
        assert(qq > pp ==> aa * dd >= cc * bb) by (nonlinear_arith)
            requires
                aa == bb * qq + ss,
                cc == dd * pp + tt,
                0 <= ss < bb,
                0 <= tt < dd,
        ;
        assert(qq == pp ==> (aa * dd < cc * bb <==> ss * dd < tt * bb)) by (nonlinear_arith)
            requires
                aa == bb * qq + ss,
                cc == dd * pp + tt,
        ;
        assert(tt == 0 ==> ss * dd >= tt * bb) by (nonlinear_arith)
            requires
                ss >= 0,
                dd > 0,
        ;
        assert(ss == 0 && tt > 0 ==> ss * dd < tt * bb) by (nonlinear_arith)
            requires
                bb > 0,
        ;
        assert(dd * ss == ss * dd && bb * tt == tt * bb) by (nonlinear_arith);
    }
    if q != p {
        q < p
    } else if t == 0 {
        false
    } else if s == 0 {
        true
    } else {
        fraction_below(d, t, b, s)
    }
}

/// The clock rate that a chart is played at.
#[derive(Clone, Copy, Debug, PartialEq, Eq, Hash, Structural)]
pub enum ManiaGameMod {
    Nm,
    Dt,
    Ht,
}

impl ManiaGameMod {
    /// The factor by which the clock runs faster.
    pub open spec fn spec_rate(self) -> Ratio {
        match self {
            ManiaGameMod::Nm => Ratio { num: 1, den: 1 },
            ManiaGameMod::Dt => Ratio { num: 3, den: 2 },
            ManiaGameMod::Ht => Ratio { num: 3, den: 4 },
        }
    }

    /// The code of a clock rate.
    pub open spec fn code(self) -> Seq<char> {
        match self {
            ManiaGameMod::Nm => "NM"@,
            ManiaGameMod::Dt => "DT"@,
            ManiaGameMod::Ht => "HT"@,
        }
    }

    /// The clock rate whose code a text is, whatever its case.
    pub open spec fn of_code(code: Seq<char>) -> Option<ManiaGameMod> {
        if lowered(code) == "nm"@ {
            Some(ManiaGameMod::Nm)
        } else if lowered(code) == "dt"@ {
            Some(ManiaGameMod::Dt)
        } else if lowered(code) == "ht"@ {
            Some(ManiaGameMod::Ht)
        } else {
            None
        }
    }

    /// The clock rates there are, in their usual order.
    pub fn all() -> (r: [ManiaGameMod; 3])
        ensures
            r@ == seq![ManiaGameMod::Nm, ManiaGameMod::Dt, ManiaGameMod::Ht],
    {
        [ManiaGameMod::Nm, ManiaGameMod::Dt, ManiaGameMod::Ht]
    }

    /// The factor by which the clock runs faster.
    pub fn rate(self) -> (r: Ratio)
        ensures
            r == self.spec_rate(),
    {
        match self {
            ManiaGameMod::Nm => Ratio { num: 1, den: 1 },
            ManiaGameMod::Dt => Ratio { num: 3, den: 2 },
            ManiaGameMod::Ht => Ratio { num: 3, den: 4 },
        }
    }

    /// The code of a clock rate.
    pub fn as_str(self) -> (r: &'static str)
        ensures
            r@ == self.code(),
    {
        match self {
            ManiaGameMod::Nm => "NM",
            ManiaGameMod::Dt => "DT",
            ManiaGameMod::Ht => "HT",
        }
    }

    /// The clock rate whose code a text is, whatever its case.
    pub fn from_code(code: &str) -> (r: Option<Self>)
        ensures
            r == ManiaGameMod::of_code(code@),
    {
        let chars = to_chars(code);
        ManiaGameMod::from_chars(chars.as_slice())
    }

    /// As [`ManiaGameMod::from_code`], on characters.
    pub fn from_chars(code: &[char]) -> (r: Option<Self>)
        ensures
            r == ManiaGameMod::of_code(code@),
    {
        let low = crate::number::lower_chars(code);
        if is_word(low.as_slice(), "nm") {
            Some(ManiaGameMod::Nm)
        } else if is_word(low.as_slice(), "dt") {
            Some(ManiaGameMod::Dt)
        } else if is_word(low.as_slice(), "ht") {
            Some(ManiaGameMod::Ht)
        } else {
            None
        }
    }
}

/// Reading the code of a clock rate gives back that clock rate.
pub proof fn law_code_round_trip(m: ManiaGameMod)
    ensures
        ManiaGameMod::of_code(m.code()) == Some(m),
{
    reveal_strlit("NM");
    reveal_strlit("DT");
    reveal_strlit("HT");
    reveal_strlit("nm");
    reveal_strlit("dt");
    reveal_strlit("ht");
    assert(lowered("NM"@) =~= "nm"@);
    assert(lowered("DT"@) =~= "dt"@);
    assert(lowered("HT"@) =~= "ht"@);
    assert("nm"@[0] != "dt"@[0]);
    assert("nm"@[0] != "ht"@[0]);
    assert("dt"@[0] != "ht"@[0]);
}

/// The family a chart belongs to: taps, hybrid, mixed, or long notes.
#[derive(Clone, Copy, Debug, PartialEq, Eq, Hash, Structural)]
pub enum ManiaModeFamily {
    Rc,
    Hb,
    Mix,
    Ln,
}

impl ManiaModeFamily {
    /// The name of a family.
    pub open spec fn tag(self) -> Seq<char> {
        match self {
            ManiaModeFamily::Rc => "RC"@,
            ManiaModeFamily::Hb => "HB"@,
            ManiaModeFamily::Mix => "Mix"@,
            ManiaModeFamily::Ln => "LN"@,
        }
    }

    /// The number that stands for a family in a table.
    pub open spec fn number(self) -> i64 {
        match self {
            ManiaModeFamily::Rc => 0,
            ManiaModeFamily::Hb => 1,
            ManiaModeFamily::Mix => 2,
            ManiaModeFamily::Ln => 3,
        }
    }

    /// The name of a family.
    pub fn as_str(self) -> (r: &'static str)
        ensures
            r@ == self.tag(),
    {
        match self {
            ManiaModeFamily::Rc => "RC",
            ManiaModeFamily::Hb => "HB",
            ManiaModeFamily::Mix => "Mix",
            ManiaModeFamily::Ln => "LN",
        }
    }

    /// The number that stands for a family in a table.
    pub fn to_i64(self) -> (r: i64)
        ensures
            r == self.number(),
    {
        match self {
            ManiaModeFamily::Rc => 0,
            ManiaModeFamily::Hb => 1,
            ManiaModeFamily::Mix => 2,
            ManiaModeFamily::Ln => 3,
        }
    }
}

/// The core key patterns.
#[derive(Clone, Copy, Debug, PartialEq, Eq, Hash, Structural)]
pub enum ManiaPattern {
    Stream,
    Chordstream,
    Jacks,
    Coordination,
    Density,
    Wildcard,
}

impl ManiaPattern {
    /// The place of a pattern among the six.
    pub open spec fn rank(self) -> int {
        match self {
            ManiaPattern::Stream => 0,
            ManiaPattern::Chordstream => 1,
            ManiaPattern::Jacks => 2,
            ManiaPattern::Coordination => 3,
            ManiaPattern::Density => 4,
            ManiaPattern::Wildcard => 5,
        }
    }

    /// The pattern at a place; places beyond the last count as the first.
    pub open spec fn at(rank: int) -> ManiaPattern {
        if rank == 1 {
            ManiaPattern::Chordstream
        } else if rank == 2 {
            ManiaPattern::Jacks
        } else if rank == 3 {
            ManiaPattern::Coordination
        } else if rank == 4 {
            ManiaPattern::Density
        } else if rank == 5 {
            ManiaPattern::Wildcard
        } else {
            ManiaPattern::Stream
        }
    }

    /// The name of a pattern.
    pub open spec fn name(self) -> Seq<char> {
        match self {
            ManiaPattern::Stream => "Stream"@,
            ManiaPattern::Chordstream => "Chordstream"@,
            ManiaPattern::Jacks => "Jacks"@,
            ManiaPattern::Coordination => "Coordination"@,
            ManiaPattern::Density => "Density"@,
            ManiaPattern::Wildcard => "Wildcard"@,
        }
    }

    /// The place of a pattern among the six.
    pub fn index(self) -> (r: usize)
        ensures
            r == self.rank(),
    {
        match self {
            ManiaPattern::Stream => 0,
            ManiaPattern::Chordstream => 1,
            ManiaPattern::Jacks => 2,
            ManiaPattern::Coordination => 3,
            ManiaPattern::Density => 4,
            ManiaPattern::Wildcard => 5,
        }
    }

    /// The pattern at a place; places beyond the last count as the first.
    pub fn from_index(rank: usize) -> (r: ManiaPattern)
        ensures
            r == ManiaPattern::at(rank as int),
    {
        match rank {
            1 => ManiaPattern::Chordstream,
            2 => ManiaPattern::Jacks,
            3 => ManiaPattern::Coordination,
            4 => ManiaPattern::Density,
            5 => ManiaPattern::Wildcard,
            _ => ManiaPattern::Stream,
        }
    }

    /// The name of a pattern.
    pub fn as_str(self) -> (r: &'static str)
        ensures
            r@ == self.name(),
    {
        match self {
            ManiaPattern::Stream => "Stream",
            ManiaPattern::Chordstream => "Chordstream",
            ManiaPattern::Jacks => "Jacks",
            ManiaPattern::Coordination => "Coordination",
            ManiaPattern::Density => "Density",
            ManiaPattern::Wildcard => "Wildcard",
        }
    }
}

/// The family that a number in a table stands for; unknown numbers stand for
/// the first.
pub open spec fn family_of(value: i64) -> ManiaModeFamily {
    if value == 1 {
        ManiaModeFamily::Hb
    } else if value == 2 {
        ManiaModeFamily::Mix
    } else if value == 3 {
        ManiaModeFamily::Ln
    } else {
        ManiaModeFamily::Rc
    }
}

/// The family that a number in a table stands for.
pub fn mode_family_from_i64(value: i64) -> (r: ManiaModeFamily)
    ensures
        r == family_of(value),
{
    match value {
        1 => ManiaModeFamily::Hb,
        2 => ManiaModeFamily::Mix,
        3 => ManiaModeFamily::Ln,
        _ => ManiaModeFamily::Rc,
    }
}

/// The pattern that a number in a table stands for.
pub fn pattern_from_i64(value: i64) -> (r: ManiaPattern)
    ensures
        r == ManiaPattern::at(value as int),
{
    match value {
        1 => ManiaPattern::Chordstream,
        2 => ManiaPattern::Jacks,
        3 => ManiaPattern::Coordination,
        4 => ManiaPattern::Density,
        5 => ManiaPattern::Wildcard,
        _ => ManiaPattern::Stream,
    }
}

/// What is stored as a number reads back as the same family and pattern.
pub proof fn law_table_numbers_round_trip(family: ManiaModeFamily, pattern: ManiaPattern)
    ensures
        family_of(family.number()) == family,
        ManiaPattern::at(pattern.rank()) == pattern,
{
}

/// What a feature record is about.
#[derive(Clone, Debug)]
pub struct ManiaBeatmapMetadata {
    pub beatmap_id: u64,
    pub beatmapset_id: u64,
    pub checksum: String,
    pub artist: String,
    pub title: String,
    pub version: String,
    pub creator: String,
    pub online_url: String,
    pub key_count: u8,
    pub mode_family: ManiaModeFamily,
    pub dominant_pattern: ManiaPattern,
}

} // verus!
