//! Pattern records as they are stored, and what is asked of them.

use crate::binary32::Binary32;
use crate::config::{core_from_name, core_named};
use crate::mma::MANIA_MMA_ALGORITHM_VERSION;
use crate::text::{is_word, same, to_chars};
use crate::types::ManiaGameMod;
use vstd::prelude::*;

verus! {

/// A cluster of a stored record.
#[derive(Clone, Debug)]
pub struct ManiaMmaCluster {
    pub pattern: String,
    pub specific_types: Vec<(String, Binary32)>,
    pub rating_multiplier: Binary32,
    pub bpm: i32,
    pub mixed: bool,
    pub amount: Binary32,
    pub importance: Binary32,
}

/// A bar of a stored record.
#[derive(Clone, Debug)]
pub struct ManiaMmaBar {
    pub pattern: String,
    pub amount: Binary32,
    pub bpm: Binary32,
    pub relative: Binary32,
    pub specific_types: Vec<(String, Binary32)>,
}

/// What is stored of the pattern analysis of a beatmap at a clock rate.
#[derive(Clone, Debug)]
pub struct ManiaMmaRecord {
    pub beatmap_id: u64,
    pub beatmapset_id: u64,
    pub game_mod: ManiaGameMod,
    pub key_count: u8,
    /// `RC`, `HB`, `Mix` or `LN`.
    pub mode_tag: String,
    pub category: String,
    /// The core pattern of the most important cluster.
    pub dominant_pattern: String,
    pub ln_note_ratio: Binary32,
    pub hb_row_ratio: Binary32,
    pub sv_amount: Binary32,
    pub duration_seconds: Binary32,
    /// How much of the chart each core pattern covers.
    pub coverage: [Binary32; 6],
    pub clusters: Vec<ManiaMmaCluster>,
    pub bars: Vec<ManiaMmaBar>,
    pub subtypes: Vec<(String, Binary32)>,
    /// The mean, peak and middle density, and the longest run in seconds.
    pub intensity: [Binary32; 4],
    /// The middle density relative to the peak, the longest run relative to
    /// the chart, and the share of silent windows.
    pub temporal: [Binary32; 3],
    /// The mean change of each core pattern from window to window.
    pub variation: [Binary32; 6],
    pub note_count: u32,
    pub row_count: u32,
    pub avg_nps: Binary32,
    pub peak_nps: Binary32,
    pub chord_rate: Binary32,
    pub large_chord_rate: Binary32,
    pub unclassified: Binary32,
    pub algorithm_version: u32,
}

/// Why a record is not stored.
#[derive(Clone, Copy, Debug, PartialEq, Eq, Structural)]
pub enum RecordFault {
    AlgorithmVersion,
    KeyCount,
    ModeTag,
    EmptyCategory,
    Coverage,
    Summary,
    Derived,
    SubtypeRatio,
    Cluster,
}

impl RecordFault {
    /// What a fault is told by.
    pub open spec fn text(self) -> Seq<char> {
        match self {
            RecordFault::AlgorithmVersion =>
                "mania key-pattern record has the wrong algorithm version"@,
            RecordFault::KeyCount => "mania key-pattern record has an unsupported key count"@,
            RecordFault::ModeTag => "mania key-pattern record has an unknown mode tag"@,
            RecordFault::EmptyCategory => "mania key-pattern record has an empty category"@,
            RecordFault::Coverage => "mania key-pattern coverage must stay within 0..=1"@,
            RecordFault::Summary =>
                "mania key-pattern record has a non-finite or negative summary value"@,
            RecordFault::Derived => "mania key-pattern record has a non-finite derived value"@,
            RecordFault::SubtypeRatio => "mania key-pattern subtype ratio must stay within 0..=1"@,
            RecordFault::Cluster => "mania key-pattern cluster is malformed"@,
        }
    }

    /// The fault in words.
    pub fn message(self) -> (r: &'static str)
        ensures
            r@ == self.text(),
    {
        match self {
            RecordFault::AlgorithmVersion =>
                "mania key-pattern record has the wrong algorithm version",
            RecordFault::KeyCount => "mania key-pattern record has an unsupported key count",
            RecordFault::ModeTag => "mania key-pattern record has an unknown mode tag",
            RecordFault::EmptyCategory => "mania key-pattern record has an empty category",
            RecordFault::Coverage => "mania key-pattern coverage must stay within 0..=1",
            RecordFault::Summary =>
                "mania key-pattern record has a non-finite or negative summary value",
            RecordFault::Derived => "mania key-pattern record has a non-finite derived value",
            RecordFault::SubtypeRatio => "mania key-pattern subtype ratio must stay within 0..=1",
            RecordFault::Cluster => "mania key-pattern cluster is malformed",
        }
    }
}

/// Whether all numbers lie between zero and one.
pub open spec fn units_all(v: Seq<Binary32>) -> bool {
    forall|i: int| 0 <= i < v.len() ==> (#[trigger] v[i]).in_unit()
}

/// Whether all numbers are finite.
pub open spec fn finite_all(v: Seq<Binary32>) -> bool {
    forall|i: int| 0 <= i < v.len() ==> (#[trigger] v[i]).finite()
}

/// Whether all shares of named kinds lie between zero and one.
pub open spec fn shares_all(v: Seq<(String, Binary32)>) -> bool {
    forall|i: int| 0 <= i < v.len() ==> (#[trigger] v[i]).1.in_unit()
}

/// Whether the shares of all bars lie between zero and one.
pub open spec fn bars_sound(v: Seq<ManiaMmaBar>) -> bool {
    forall|i: int| 0 <= i < v.len() ==> shares_all((#[trigger] v[i]).specific_types@)
}

/// Whether a cluster has finite numbers and is of a core pattern.
pub open spec fn cluster_sound(c: ManiaMmaCluster) -> bool {
    &&& c.amount.finite()
    &&& c.importance.finite()
    &&& c.rating_multiplier.finite()
    &&& core_named(c.pattern@) is Some
}

/// Whether clusters have names and finite numbers.
pub open spec fn clusters_sound(v: Seq<ManiaMmaCluster>) -> bool {
    forall|i: int| 0 <= i < v.len() ==> cluster_sound(#[trigger] v[i])
}

/// Whether a tag names a family of charts.
pub open spec fn is_mode_tag(tag: Seq<char>) -> bool {
    tag == "RC"@ || tag == "HB"@ || tag == "Mix"@ || tag == "LN"@
}

/// Whether the numbers that sum a chart up make sense.
pub open spec fn summary_sound(r: ManiaMmaRecord) -> bool {
    &&& r.ln_note_ratio.in_unit()
    &&& r.hb_row_ratio.in_unit()
    &&& r.sv_amount.non_negative()
    &&& r.duration_seconds.finite()
    &&& r.duration_seconds.scaled() > 0
}

/// Whether the numbers that were derived from a chart are finite.
pub open spec fn derived_sound(r: ManiaMmaRecord) -> bool {
    &&& finite_all(r.intensity@)
    &&& finite_all(r.temporal@)
    &&& finite_all(r.variation@)
    &&& r.avg_nps.finite()
    &&& r.peak_nps.finite()
    &&& r.chord_rate.finite()
    &&& r.large_chord_rate.finite()
    &&& r.unclassified.finite()
}

/// The first fault of a record, if it has one.
pub open spec fn record_fault(r: ManiaMmaRecord) -> Option<RecordFault> {
    if r.algorithm_version != MANIA_MMA_ALGORITHM_VERSION {
        Some(RecordFault::AlgorithmVersion)
    } else if r.key_count != 4 && r.key_count != 6 && r.key_count != 7 {
        Some(RecordFault::KeyCount)
    } else if !is_mode_tag(r.mode_tag@) {
        Some(RecordFault::ModeTag)
    } else if r.category@.len() == 0 {
        Some(RecordFault::EmptyCategory)
    } else if !units_all(r.coverage@) {
        Some(RecordFault::Coverage)
    } else if !summary_sound(r) {
        Some(RecordFault::Summary)
    } else if !derived_sound(r) {
        Some(RecordFault::Derived)
    } else if !shares_all(r.subtypes@) || !bars_sound(r.bars@) {
        Some(RecordFault::SubtypeRatio)
    } else if !clusters_sound(r.clusters@) {
        Some(RecordFault::Cluster)
    } else {
        None
    }
}

pub(crate) fn all_in_unit(v: &[Binary32]) -> (r: bool)
    ensures
        r == units_all(v@),
{
    let mut i: usize = 0;
    while i < v.len()
        invariant
            i <= v@.len(),
            forall|j: int| 0 <= j < i ==> (#[trigger] v@[j]).in_unit(),
        decreases v@.len() - i,
    {
        if !v[i].is_in_unit() {
            return false;
        }
        i = i + 1;
    }
    true
}

fn all_finite(v: &[Binary32]) -> (r: bool)
    ensures
        r == finite_all(v@),
{
    let mut i: usize = 0;
    while i < v.len()
        invariant
            i <= v@.len(),
            forall|j: int| 0 <= j < i ==> (#[trigger] v@[j]).finite(),
        decreases v@.len() - i,
    {
        if !v[i].is_finite() {
            return false;
        }
        i = i + 1;
    }
    true
}

fn all_shares(v: &[(String, Binary32)]) -> (r: bool)
    ensures
        r == shares_all(v@),
{
    let mut i: usize = 0;
    while i < v.len()
        invariant
            i <= v@.len(),
            forall|j: int| 0 <= j < i ==> (#[trigger] v@[j]).1.in_unit(),
        decreases v@.len() - i,
    {
        if !v[i].1.is_in_unit() {
            return false;
        }
        i = i + 1;
    }
    true
}

fn all_bars(v: &[ManiaMmaBar]) -> (r: bool)
    ensures
        r == bars_sound(v@),
{
    let mut i: usize = 0;
    while i < v.len()
        invariant
            i <= v@.len(),
            forall|j: int| 0 <= j < i ==> shares_all((#[trigger] v@[j]).specific_types@),
        decreases v@.len() - i,
    {
        if !all_shares(v[i].specific_types.as_slice()) {
            return false;
        }
        i = i + 1;
    }
    true
}

fn all_clusters(v: &[ManiaMmaCluster]) -> (r: bool)
    ensures
        r == clusters_sound(v@),
{
    let mut i: usize = 0;
    while i < v.len()
        invariant
            i <= v@.len(),
            forall|j: int| 0 <= j < i ==> cluster_sound(#[trigger] v@[j]),
        decreases v@.len() - i,
    {
        let c = &v[i];
        if !c.amount.is_finite() || !c.importance.is_finite() || !c.rating_multiplier.is_finite() {
            return false;
        }
        if core_from_name(c.pattern.as_str()).is_none() {
            return false;
        }
        i = i + 1;
    }
    true
}

fn known_tag(tag: &str) -> (r: bool)
    ensures
        r == is_mode_tag(tag@),
{
    let chars = to_chars(tag);
    let s = chars.as_slice();
    is_word(s, "RC") || is_word(s, "HB") || is_word(s, "Mix") || is_word(s, "LN")
}

/// Whether a record can be stored; the first fault where it cannot.
pub fn validate_record(record: &ManiaMmaRecord) -> (r: Result<(), RecordFault>)
    ensures
        match r {
            Ok(_) => record_fault(*record) is None,
            Err(x) => record_fault(*record) == Some(x),
        },
{
    if record.algorithm_version != MANIA_MMA_ALGORITHM_VERSION {
        return Err(RecordFault::AlgorithmVersion);
    }
    if record.key_count != 4 && record.key_count != 6 && record.key_count != 7 {
        return Err(RecordFault::KeyCount);
    }
    if !known_tag(record.mode_tag.as_str()) {
        return Err(RecordFault::ModeTag);
    }
    let category = to_chars(record.category.as_str());
    if category.len() == 0 {
        return Err(RecordFault::EmptyCategory);
    }
    if !all_in_unit(record.coverage.as_slice()) {
        return Err(RecordFault::Coverage);
    }
    if !record.ln_note_ratio.is_in_unit() || !record.hb_row_ratio.is_in_unit()
        || !record.sv_amount.is_non_negative() || !record.duration_seconds.is_positive() {
        return Err(RecordFault::Summary);
    }
    if !all_finite(record.intensity.as_slice()) || !all_finite(record.temporal.as_slice())
        || !all_finite(record.variation.as_slice()) || !record.avg_nps.is_finite()
        || !record.peak_nps.is_finite() || !record.chord_rate.is_finite()
        || !record.large_chord_rate.is_finite() || !record.unclassified.is_finite() {
        return Err(RecordFault::Derived);
    }
    if !all_shares(record.subtypes.as_slice()) || !all_bars(record.bars.as_slice()) {
        return Err(RecordFault::SubtypeRatio);
    }
    if !all_clusters(record.clusters.as_slice()) {
        return Err(RecordFault::Cluster);
    }
    Ok(())
}

/// Whether a chart is told by its scroll velocity.
pub open spec fn by_velocity(r: ManiaMmaRecord) -> bool {
    r.sv_amount.is_two_thousand_or_more()
}

/// Whether a chart is told by its scroll velocity: whether its notes move at
/// unusual speeds for at least two thousand milliseconds.
pub fn is_sv(record: &ManiaMmaRecord) -> (r: bool)
    ensures
        r == by_velocity(*record),
{
    record.sv_amount.reaches_two_thousand()
}

/// The category that a chart is shown under.
pub fn display_category(record: &ManiaMmaRecord) -> (r: &str)
    ensures
        r@ == (if by_velocity(*record) {
            "SV"@
        } else {
            record.category@
        }),
{
    if is_sv(record) {
        "SV"
    } else {
        record.category.as_str()
    }
}

/// Whether two charts are shown under other categories than each other.
pub fn categories_differ(a: &ManiaMmaRecord, b: &ManiaMmaRecord) -> (r: bool)
    ensures
        r == (a.category@ != b.category@),
{
    let x = to_chars(a.category.as_str());
    let y = to_chars(b.category.as_str());
    !same(x.as_slice(), y.as_slice())
}

/// Whether `a` comes before `b` in the order of text.
pub open spec fn text_below(a: Seq<char>, b: Seq<char>) -> bool
    decreases a.len(),
{
    if b.len() == 0 {
        false
    } else if a.len() == 0 {
        true
    } else if a[0] == b[0] {
        text_below(a.skip(1), b.skip(1))
    } else {
        a[0] < b[0]
    }
}

/// Whether a list of shares names a label.
pub open spec fn names(v: Seq<(String, Binary32)>, label: Seq<char>) -> bool {
    exists|i: int| 0 <= i < v.len() && (#[trigger] v[i]).0@ == label
}

/// Whether texts are in order, each once.
pub open spec fn ascending(v: Seq<Seq<char>>) -> bool {
    forall|i: int, j: int| 0 <= i < j < v.len() ==> text_below(#[trigger] v[i], #[trigger] v[j])
}

/// The first share under a label.
pub open spec fn first_share(v: Seq<(String, Binary32)>, label: Seq<char>) -> Option<Binary32>
    decreases v.len(),
{
    if v.len() == 0 {
        None
    } else if v[0].0@ == label {
        Some(v[0].1)
    } else {
        first_share(v.skip(1), label)
    }
}

/// The views of labels.
pub open spec fn label_views(v: Seq<Vec<char>>) -> Seq<Seq<char>> {
    v.map_values(|t: Vec<char>| t@)
}

/// The order of two texts.
#[derive(Clone, Copy, Debug, PartialEq, Eq, Structural)]
enum Side {
    Below,
    Same,
    Above,
}

proof fn lemma_text_order(a: Seq<char>, b: Seq<char>)
    ensures
        a == b ==> !text_below(a, b),
        a != b ==> text_below(a, b) != text_below(b, a),
    decreases a.len(),
{
    if a.len() > 0 && b.len() > 0 {
        lemma_text_order(a.skip(1), b.skip(1));
        if a[0] == b[0] && a.skip(1) == b.skip(1) {
            assert(a =~= b) by {
                assert forall|i: int| 0 <= i < a.len() implies a[i] == b[i] by {
                    if i > 0 {
                        assert(a[i] == a.skip(1)[i - 1]);
                        assert(b[i] == b.skip(1)[i - 1]);
                    }
                }
                assert(a.len() == a.skip(1).len() + 1);
                assert(b.len() == b.skip(1).len() + 1);
            }
        }
    } else if a.len() == 0 && b.len() == 0 {
        assert(a =~= b);
    }
}

proof fn lemma_text_chain(a: Seq<char>, b: Seq<char>, c: Seq<char>)
    requires
        text_below(a, b),
        text_below(b, c),
    ensures
        text_below(a, c),
    decreases a.len(),
{
    if a.len() > 0 && a[0] == b[0] && b[0] == c[0] {
        lemma_text_chain(a.skip(1), b.skip(1), c.skip(1));
    }
}

fn side_of(a: &[char], b: &[char]) -> (r: Side)
    ensures
        r == Side::Below <==> text_below(a@, b@),
        r == Side::Same <==> a@ == b@,
        r == Side::Above <==> text_below(b@, a@),
{
    let mut i: usize = 0;
    proof {
        lemma_text_order(a@, b@);
        assert(a@.skip(0) =~= a@);
        assert(b@.skip(0) =~= b@);
    }
    while i < a.len() && i < b.len() && a[i] == b[i]
        invariant
            i <= a@.len(),
            i <= b@.len(),
            a@.take(i as int) == b@.take(i as int),
            text_below(a@, b@) == text_below(a@.skip(i as int), b@.skip(i as int)),
            text_below(b@, a@) == text_below(b@.skip(i as int), a@.skip(i as int)),
        decreases a@.len() - i,
    {
        proof {
            assert(a@.skip(i as int).skip(1) =~= a@.skip(i + 1));
            assert(b@.skip(i as int).skip(1) =~= b@.skip(i + 1));
            assert(a@.take(i + 1) =~= a@.take(i as int).push(a@[i as int]));
            assert(b@.take(i + 1) =~= b@.take(i as int).push(b@[i as int]));
        }
        i = i + 1;
    }
    proof {
        lemma_text_order(a@, b@);
        if i == a@.len() && i == b@.len() {
            assert(a@.take(i as int) =~= a@);
            assert(b@.take(i as int) =~= b@);
        }
    }
    if i < b.len() {
        if i == a.len() || a[i] < b[i] {
            Side::Below
        } else {
            Side::Above
        }
    } else if i < a.len() {
        Side::Above
    } else {
        Side::Same
    }
}

/// Puts a label in its place, unless it is there.
fn insert_label(list: &mut Vec<Vec<char>>, label: Vec<char>)
    requires
        ascending(label_views(old(list)@)),
    ensures
        ascending(label_views(final(list)@)),
        forall|t: Seq<char>| #[trigger]
            label_views(final(list)@).contains(t) <==> (label_views(old(list)@).contains(t) || t
                == label@),
{
    let ghost before = label_views(list@);
    let mut k: usize = 0;
    while k < list.len() && side_of(list[k].as_slice(), label.as_slice()) == Side::Below
        invariant
            k <= list@.len(),
            before == label_views(list@),
            ascending(before),
            forall|i: int| 0 <= i < k ==> text_below(#[trigger] before[i], label@),
        decreases list@.len() - k,
    {
        assert(before[k as int] == list@[k as int]@);
        k = k + 1;
    }
    if k < list.len() {
        assert(before[k as int] == list@[k as int]@);
        if side_of(list[k].as_slice(), label.as_slice()) == Side::Same {
            assert(before.contains(label@));
            return;
        }
    }
    proof {
        if k < list@.len() {
            assert forall|i: int| k < i < before.len() implies text_below(
                label@,
                #[trigger] before[i],
            ) by {
                lemma_text_chain(label@, before[k as int], before[i]);
            }
        }
    }
    list.insert(k, label);
    proof {
        let after = label_views(list@);
        assert(after =~= before.insert(k as int, label@));
        assert forall|i: int, j: int| 0 <= i < j < after.len() implies text_below(
            #[trigger] after[i],
            #[trigger] after[j],
        ) by {
            let x = if i < k {
                i
            } else {
                i - 1
            };
            let y = if j < k {
                j
            } else {
                j - 1
            };
            if i != k && j != k {
                assert(after[i] == before[x]);
                assert(after[j] == before[y]);
            } else if i == k {
                assert(after[j] == before[y]);
            } else {
                assert(after[i] == before[x]);
            }
        }
        assert forall|t: Seq<char>| #[trigger] after.contains(t) <==> (before.contains(t) || t
            == label@) by {
            if after.contains(t) {
                let i = choose|i: int| 0 <= i < after.len() && after[i] == t;
                if i < k {
                    assert(before[i] == t);
                } else if i > k {
                    assert(before[i - 1] == t);
                }
            }
            if before.contains(t) {
                let i = choose|i: int| 0 <= i < before.len() && before[i] == t;
                if i < k {
                    assert(after[i] == t);
                } else {
                    assert(after[i + 1] == t);
                }
            }
            assert(after[k as int] == label@);
        }
    }
}

fn insert_labels(list: &mut Vec<Vec<char>>, v: &[(String, Binary32)])
    requires
        ascending(label_views(old(list)@)),
    ensures
        ascending(label_views(final(list)@)),
        forall|t: Seq<char>| #[trigger]
            label_views(final(list)@).contains(t) <==> (label_views(old(list)@).contains(t)
                || names(v@, t)),
{
    let ghost before = label_views(list@);
    let mut i: usize = 0;
    assert forall|t: Seq<char>| !#[trigger] names(v@.take(0), t) by {}
    while i < v.len()
        invariant
            i <= v@.len(),
            ascending(label_views(list@)),
            forall|t: Seq<char>| #[trigger]
                label_views(list@).contains(t) <==> (before.contains(t) || names(
                    v@.take(i as int),
                    t,
                )),
        decreases v@.len() - i,
    {
        let label = to_chars(v[i].0.as_str());
        let ghost mid = label_views(list@);
        insert_label(list, label);
        proof {
            let (a, b) = (v@.take(i as int), v@.take(i + 1));
            assert forall|t: Seq<char>| #[trigger] label_views(list@).contains(t) <==> (
            before.contains(t) || names(b, t)) by {
                if names(a, t) {
                    let k = choose|k: int| 0 <= k < a.len() && (#[trigger] a[k]).0@ == t;
                    assert(b[k].0@ == t);
                }
                if names(b, t) {
                    let k = choose|k: int| 0 <= k < b.len() && (#[trigger] b[k]).0@ == t;
                    if k < i {
                        assert(a[k].0@ == t);
                    }
                }
                assert(b[i as int].0@ == label@);
                assert(mid.contains(t) == (before.contains(t) || names(a, t)));
            }
        }
        i = i + 1;
    }
    assert(v@.take(i as int) =~= v@);
}

/// The labels of two lists of shares, in the order of text, each once.
pub fn labels_of(a: &[(String, Binary32)], b: &[(String, Binary32)]) -> (r: Vec<Vec<char>>)
    ensures
        ascending(label_views(r@)),
        forall|t: Seq<char>| #[trigger]
            label_views(r@).contains(t) <==> (names(a@, t) || names(b@, t)),
{
    let mut list: Vec<Vec<char>> = Vec::new();
    insert_labels(&mut list, a);
    insert_labels(&mut list, b);
    list
}

/// The first share under a label.
pub fn share_of(v: &[(String, Binary32)], label: &[char]) -> (r: Option<Binary32>)
    ensures
        r == first_share(v@, label@),
{
    let mut i: usize = 0;
    assert(v@.skip(0) =~= v@);
    while i < v.len()
        invariant
            i <= v@.len(),
            first_share(v@, label@) == first_share(v@.skip(i as int), label@),
        decreases v@.len() - i,
    {
        assert(v@.skip(i as int)[0] == v@[i as int]);
        assert(v@.skip(i as int).skip(1) =~= v@.skip(i + 1));
        let name = to_chars(v[i].0.as_str());
        if same(name.as_slice(), label) {
            return Some(v[i].1);
        }
        i = i + 1;
    }
    None
}

} // verus!
