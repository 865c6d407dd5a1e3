//! What patterns weigh in the families of charts.

use crate::config::{full_weight, tag_of_share};
use crate::finder::{kinds_of, Subtype};
use crate::types::{ManiaGameMod, ManiaModeFamily, ManiaPattern, Ratio};
use vstd::prelude::*;

verus! {

/// Whether a weight is `a` of `b`.
pub open spec fn weighs(w: Ratio, a: int, b: int) -> bool {
    w.den > 0 && w.num * b == a * w.den
}

/// Whether a pattern is one of taps.
pub open spec fn is_of_taps(pattern: ManiaPattern) -> bool {
    pattern == ManiaPattern::Stream || pattern == ManiaPattern::Chordstream || pattern
        == ManiaPattern::Jacks
}

/// Patterns of holds weigh nothing in charts of taps, whatever their kind.
pub proof fn law_holds_weigh_nothing_among_taps(pattern: ManiaPattern, kind: Option<Subtype>)
    requires
        !is_of_taps(pattern),
    ensures
        weighs(full_weight(pattern, kind, ManiaModeFamily::Rc), 0, 1),
{
}

/// Patterns of taps weigh three tenths in charts of holds of what they weigh in
/// any other.
pub proof fn law_taps_weigh_less_among_holds(
    pattern: ManiaPattern,
    keys: int,
    kind: Option<Subtype>,
    other: ManiaModeFamily,
)
    requires
        is_of_taps(pattern),
        kind matches Some(k) ==> kinds_of(pattern, keys).contains(k),
        other != ManiaModeFamily::Ln,
    ensures
        ({
            let (few, usual) = (
                full_weight(pattern, kind, ManiaModeFamily::Ln),
                full_weight(pattern, kind, other),
            );
            &&& usual.den > 0 && few.den > 0 && usual.num > 0
            &&& 10 * (few.num * usual.den) == 3 * (usual.num * few.den)
        }),
{
    if let Some(k) = kind {
        let kinds = kinds_of(pattern, keys);
        let i = choose|i: int| 0 <= i < kinds.len() && kinds[i] == k;
        assert(kinds.len() <= 5);
        assert(i == 0 || i == 1 || i == 2 || i == 3 || i == 4);
        assert(!crate::config::is_hold_kind(k));
    }
    let (few, usual) = (
        full_weight(pattern, kind, ManiaModeFamily::Ln),
        full_weight(pattern, kind, other),
    );
    let (n, d) = (usual.num as int, usual.den as int);
    assert(0 < n <= 100 && 0 < d <= 100);
    assert(few.num == n * 3 && few.den == d * 10);
    assert(10 * ((n * 3) * d) == 3 * (n * (d * 10))) by (nonlinear_arith);
}

/// Streams weigh a third, chord streams thirteen twentieths and jacks nine
/// tenths, with any of their kinds and without.
pub proof fn law_weights_of_taps(
    pattern: ManiaPattern,
    keys: int,
    kind: Option<Subtype>,
    mode: ManiaModeFamily,
)
    requires
        is_of_taps(pattern),
        kind matches Some(k) ==> kinds_of(pattern, keys).contains(k),
        mode != ManiaModeFamily::Ln,
    ensures
        ({
            let w = full_weight(pattern, kind, mode);
            &&& pattern == ManiaPattern::Stream ==> weighs(w, 1, 3)
            &&& pattern == ManiaPattern::Chordstream ==> weighs(w, 13, 20)
            &&& pattern == ManiaPattern::Jacks ==> weighs(w, 9, 10)
        }),
{
    if let Some(k) = kind {
        let kinds = kinds_of(pattern, keys);
        let i = choose|i: int| 0 <= i < kinds.len() && kinds[i] == k;
        assert(kinds.len() <= 5);
        assert(i == 0 || i == 1 || i == 2 || i == 3 || i == 4);
    }
}

/// What patterns of holds weigh: column locks most, shields less; releases and
/// inverses by how many holds a chart has, and wildcards too.
pub proof fn law_weights_of_holds(pattern: ManiaPattern, mode: ManiaModeFamily)
    requires
        !is_of_taps(pattern),
        mode != ManiaModeFamily::Rc,
    ensures
        weighs(full_weight(pattern, Some(Subtype::ColumnLock), mode), 3, 2),
        weighs(full_weight(pattern, Some(Subtype::Shield), mode), 4, 5),
        weighs(full_weight(pattern, Some(Subtype::JsDensity), mode), 9, 10),
        weighs(full_weight(pattern, Some(Subtype::HsDensity), mode), 9, 10),
        weighs(full_weight(pattern, Some(Subtype::DsDensity), mode), 9, 10),
        weighs(full_weight(pattern, Some(Subtype::DcsDensity), mode), 9, 10),
        weighs(full_weight(pattern, Some(Subtype::LcsDensity), mode), 9, 10),
        weighs(full_weight(ManiaPattern::Coordination, None, mode), 3, 4),
        weighs(full_weight(ManiaPattern::Density, None, mode), 9, 10),
        weighs(full_weight(ManiaPattern::Wildcard, None, mode), 1, 1),
        mode == ManiaModeFamily::Ln ==> {
            &&& weighs(full_weight(pattern, Some(Subtype::Release), mode), 1, 1)
            &&& weighs(full_weight(pattern, Some(Subtype::Inverse), mode), 3, 2)
            &&& weighs(full_weight(pattern, Some(Subtype::JackyWc), mode), 11, 20)
            &&& weighs(full_weight(pattern, Some(Subtype::SpeedyWc), mode), 4, 5)
        },
        mode != ManiaModeFamily::Ln ==> {
            &&& weighs(full_weight(pattern, Some(Subtype::Release), mode), 3, 10)
            &&& weighs(full_weight(pattern, Some(Subtype::Inverse), mode), 0, 1)
            &&& weighs(full_weight(pattern, Some(Subtype::SpeedyWc), mode), 9, 20)
        },
        mode == ManiaModeFamily::Hb ==> weighs(
            full_weight(pattern, Some(Subtype::JackyWc), mode),
            13,
            20,
        ),
        mode == ManiaModeFamily::Mix ==> weighs(
            full_weight(pattern, Some(Subtype::JackyWc), mode),
            9,
            20,
        ),
{
}

/// A share of holds of at most 15 in 100 is tagged RC, one of at least 90 in 100
/// LN, any other Mix.
pub proof fn law_shares_are_tagged(share: Ratio)
    requires
        share.den > 0,
    ensures
        100 * share.num <= 15 * share.den ==> tag_of_share(share) == "RC"@,
        100 * share.num >= 90 * share.den ==> tag_of_share(share) == "LN"@,
        15 * share.den < 100 * share.num < 90 * share.den ==> tag_of_share(share) == "Mix"@,
{
}

/// The clock runs half as fast again at DT and a quarter slower at HT; codes are
/// read in either case.
pub proof fn law_clock_rates()
    ensures
        weighs(ManiaGameMod::Nm.spec_rate(), 1, 1),
        2 * ManiaGameMod::Dt.spec_rate().num == 3 * ManiaGameMod::Dt.spec_rate().den,
        4 * ManiaGameMod::Ht.spec_rate().num == 3 * ManiaGameMod::Ht.spec_rate().den,
        forall|a: Seq<char>, b: Seq<char>|
            crate::number::lowered(a) == crate::number::lowered(b) ==> #[trigger] ManiaGameMod::of_code(
                a,
            ) == #[trigger] ManiaGameMod::of_code(b),
{
}

} // verus!
