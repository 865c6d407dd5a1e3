//! Gathering stretches of the same pattern and tempo into clusters.

use crate::big::Big;
use crate::config::{full_weight, resolve_rating_multiplier};
use crate::finder::{
    all_valid, stretch_valid, FoundPattern, Subtype, BEAT_LIMIT, SPAN_LIMIT,
};
use crate::intervals::{law_union_fits, union_length, union_measure};
use crate::order::{law_sorting_is_stable, positions, sort_order, sorted_order};
use crate::number::least;
use crate::rate::{whole_text, write_whole};
use crate::text::string_of;
use crate::types::{ManiaModeFamily, ManiaPattern, Ratio};
use vstd::prelude::*;

verus! {

/// The fastest tempo; faster ones count as this.
pub const BPM_LIMIT: i128 = 0x7fff_ffff_ffff_ffff;

/// A common denominator of all weights.
pub const SCALE: i128 = 3000;

/// Beat lengths that lie less than this apart are the same tempo: five
/// milliseconds, in sixtieths.
pub const NEAR: i64 = 300;

/// Whether two beat lengths are the same tempo.
pub open spec fn is_near(a: i64, b: i64) -> bool {
    -NEAR < a - b < NEAR
}

/// The first of the tempos that a beat length is near; their number if there
/// is none.
pub open spec fn first_near(tempos: Seq<i64>, v: i64) -> int
    decreases tempos.len(),
{
    if tempos.len() == 0 || is_near(tempos[0], v) {
        0
    } else {
        1 + first_near(tempos.skip(1), v)
    }
}

/// The tempos of the first `n` stretches that are not mixed: a beat length
/// opens a tempo unless it is near an earlier one.
pub open spec fn tempos(ps: Seq<FoundPattern>, n: nat) -> Seq<i64>
    decreases n,
{
    if n == 0 {
        Seq::empty()
    } else {
        let before = tempos(ps, (n - 1) as nat);
        let p = ps[n - 1];
        if !p.mixed && first_near(before, p.ms_per_beat) == before.len() {
            before.push(p.ms_per_beat)
        } else {
            before
        }
    }
}

/// The group of a stretch: a mixed one by its pattern, another by its tempo.
pub open spec fn group_of(all: Seq<i64>, p: FoundPattern) -> int {
    if p.mixed {
        p.pattern.rank()
    } else {
        6 + first_near(all, p.ms_per_beat)
    }
}

/// The beat lengths of the first `n` stretches in a group, added up.
pub open spec fn group_sum(all: Seq<i64>, ps: Seq<FoundPattern>, group: int, n: nat) -> int
    decreases n,
{
    if n == 0 {
        0
    } else {
        group_sum(all, ps, group, (n - 1) as nat) + (if group_of(all, ps[n - 1]) == group {
            ps[n - 1].ms_per_beat as int
        } else {
            0
        })
    }
}

/// How many of the first `n` stretches are in a group.
pub open spec fn group_count(all: Seq<i64>, ps: Seq<FoundPattern>, group: int, n: nat) -> nat
    decreases n,
{
    if n == 0 {
        0
    } else {
        group_count(all, ps, group, (n - 1) as nat) + (if group_of(all, ps[n - 1]) == group {
            1nat
        } else {
            0
        })
    }
}

/// Beats per minute for beat lengths that add up to `sum` sixtieths of a
/// millisecond, rounded to the nearest and at most [`BPM_LIMIT`]; zero if they
/// have no length.
pub open spec fn tempo_of(sum: int, count: int) -> int {
    if sum <= 0 {
        0
    } else {
        least(BPM_LIMIT as int, (7_200_000 * count + sum) / (2 * sum))
    }
}

/// The tempo of the group of a stretch.
pub open spec fn bpm_of(ps: Seq<FoundPattern>, p: FoundPattern) -> int {
    let all = tempos(ps, ps.len());
    let group = group_of(all, p);
    tempo_of(group_sum(all, ps, group, ps.len()), group_count(all, ps, group, ps.len()) as int)
}

/// The tempos of the groups of all stretches.
pub open spec fn bpms_of(ps: Seq<FoundPattern>) -> Seq<int> {
    Seq::new(ps.len(), |i: int| bpm_of(ps, ps[i]))
}

/// Whether two stretches belong to one cluster: same pattern, same tempo, both
/// mixed or neither.
pub open spec fn same_cluster(ps: Seq<FoundPattern>, bpms: Seq<int>, i: int, j: int) -> bool {
    ps[i].pattern == ps[j].pattern && ps[i].mixed == ps[j].mixed && bpms[i] == bpms[j]
}

/// Whether stretch `i` is the first of its cluster.
pub open spec fn opens(ps: Seq<FoundPattern>, bpms: Seq<int>, i: int) -> bool {
    forall|j: int| 0 <= j < i ==> !#[trigger] same_cluster(ps, bpms, j, i)
}

/// Those of the first `n` stretches that are the first of their cluster.
pub open spec fn openers(ps: Seq<FoundPattern>, bpms: Seq<int>, n: nat) -> Seq<int>
    decreases n,
{
    if n == 0 {
        Seq::empty()
    } else if opens(ps, bpms, n - 1) {
        openers(ps, bpms, (n - 1) as nat).push(n - 1)
    } else {
        openers(ps, bpms, (n - 1) as nat)
    }
}

/// Those of the first `n` stretches that belong to the cluster of stretch `h`.
pub open spec fn members(ps: Seq<FoundPattern>, bpms: Seq<int>, h: int, n: nat) -> Seq<FoundPattern>
    decreases n,
{
    if n == 0 {
        Seq::empty()
    } else if same_cluster(ps, bpms, h, n - 1) {
        members(ps, bpms, h, (n - 1) as nat).push(ps[n - 1])
    } else {
        members(ps, bpms, h, (n - 1) as nat)
    }
}

/// The intervals of stretches.
pub open spec fn spans_of(ms: Seq<FoundPattern>) -> Seq<(i64, i64)> {
    ms.map_values(|p: FoundPattern| (p.start, p.end))
}

/// How many of the first `n` stretches are of a kind.
pub open spec fn kind_count(ms: Seq<FoundPattern>, kind: Subtype, n: nat) -> nat
    decreases n,
{
    if n == 0 {
        0
    } else {
        kind_count(ms, kind, (n - 1) as nat) + (if ms[n - 1].specific_type == Some(kind) {
            1nat
        } else {
            0
        })
    }
}

/// The kinds of the first `n` stretches, in the order in which they occur.
pub open spec fn kinds_seen(ms: Seq<FoundPattern>, n: nat) -> Seq<Subtype>
    decreases n,
{
    if n == 0 {
        Seq::empty()
    } else {
        let before = kinds_seen(ms, (n - 1) as nat);
        match ms[n - 1].specific_type {
            Some(kind) if !before.contains(kind) => before.push(kind),
            _ => before,
        }
    }
}

/// The kinds of stretches with their shares, the most frequent first; equally
/// frequent ones in the order in which they occur.
pub open spec fn kind_shares(ms: Seq<FoundPattern>) -> Seq<(Subtype, Ratio)> {
    let kinds = kinds_seen(ms, ms.len());
    let keys = kinds.map_values(|k: Subtype| (-(kind_count(ms, k, ms.len()) as int)) as i128);
    let order = sorted_order(keys);
    Seq::new(
        kinds.len(),
        |i: int|
            (
                kinds[order[i]],
                Ratio {
                    num: kind_count(ms, kinds[order[i]], ms.len()) as i128,
                    den: ms.len() as i128,
                },
            ),
    )
}

/// Stretches of one pattern and tempo.
#[derive(Clone, Debug)]
pub struct PatternCluster {
    pub pattern: ManiaPattern,
    /// The kinds with their shares, the most frequent first.
    pub specific_types: Vec<(Subtype, Ratio)>,
    pub rating_multiplier: Ratio,
    pub bpm: i128,
    pub mixed: bool,
    /// How many milliseconds the stretches cover together.
    pub amount: i64,
    /// The amount, by its weight and its tempo, in parts of which [`SCALE`]
    /// make one.
    pub importance: Big,
}

/// A [`PatternCluster`] as a value.
#[verifier::ext_equal]
pub struct ClusterView {
    pub pattern: ManiaPattern,
    pub specific_types: Seq<(Subtype, Ratio)>,
    pub rating_multiplier: Ratio,
    pub bpm: int,
    pub mixed: bool,
    pub amount: int,
    pub importance: int,
}

impl View for PatternCluster {
    type V = ClusterView;

    open spec fn view(&self) -> ClusterView {
        ClusterView {
            pattern: self.pattern,
            specific_types: self.specific_types@,
            rating_multiplier: self.rating_multiplier,
            bpm: self.bpm as int,
            mixed: self.mixed,
            amount: self.amount as int,
            importance: self.importance@,
        }
    }
}

/// Clusters as values.
pub open spec fn cluster_views(v: Seq<PatternCluster>) -> Seq<ClusterView> {
    v.map_values(|c: PatternCluster| c@)
}

/// The weight of a cluster: releases weigh less where there are density or
/// wildcard patterns.
pub open spec fn cluster_weight(
    pattern: ManiaPattern,
    shares: Seq<(Subtype, Ratio)>,
    mode: ManiaModeFamily,
    dense: bool,
) -> Ratio {
    let kind = if shares.len() > 0 {
        Some(shares[0].0)
    } else {
        None
    };
    let plain = full_weight(pattern, kind, mode);
    if dense && has_release(shares) {
        Ratio { num: (plain.num * 4) as i128, den: (plain.den * 5) as i128 }
    } else {
        plain
    }
}

/// Whether releases are among the kinds.
pub open spec fn has_release(shares: Seq<(Subtype, Ratio)>) -> bool {
    exists|i: int| 0 <= i < shares.len() && (#[trigger] shares[i]).0 == Subtype::Release
}

/// Whether any stretch is of a density or wildcard pattern.
pub open spec fn is_dense(ps: Seq<FoundPattern>) -> bool {
    exists|i: int|
        0 <= i < ps.len() && ((#[trigger] ps[i]).pattern == ManiaPattern::Density || ps[i].pattern
            == ManiaPattern::Wildcard)
}

/// How many parts a weight has, of which [`SCALE`] make one.
pub open spec fn weight_parts(weight: Ratio) -> int {
    weight.num * (SCALE as int / weight.den as int)
}

/// The importance of an amount with a weight and a tempo.
pub open spec fn importance_of(amount: int, weight: Ratio, bpm: int) -> int {
    amount * weight_parts(weight) * bpm
}

/// The cluster of stretch `h`.
pub open spec fn cluster_of(ps: Seq<FoundPattern>, mode: ManiaModeFamily, h: int) -> ClusterView {
    let bpms = bpms_of(ps);
    let ms = members(ps, bpms, h, ps.len());
    let shares = kind_shares(ms);
    let weight = cluster_weight(ps[h].pattern, shares, mode, is_dense(ps));
    let amount = union_measure(spans_of(ms));
    ClusterView {
        pattern: ps[h].pattern,
        specific_types: shares,
        rating_multiplier: weight,
        bpm: bpms[h],
        mixed: ps[h].mixed,
        amount: amount as int,
        importance: importance_of(amount as int, weight, bpms[h]),
    }
}

/// The clusters of stretches, in the order in which they occur.
pub open spec fn clusters_of(ps: Seq<FoundPattern>, mode: ManiaModeFamily) -> Seq<ClusterView> {
    openers(ps, bpms_of(ps), ps.len()).map_values(|h: int| cluster_of(ps, mode, h))
}

pub(crate) proof fn lemma_first_near(tempos: Seq<i64>, v: i64)
    ensures
        0 <= first_near(tempos, v) <= tempos.len(),
        forall|k: int| 0 <= k < first_near(tempos, v) ==> !is_near(#[trigger] tempos[k], v),
        first_near(tempos, v) < tempos.len() ==> is_near(tempos[first_near(tempos, v)], v),
    decreases tempos.len(),
{
    if tempos.len() > 0 && !is_near(tempos[0], v) {
        lemma_first_near(tempos.skip(1), v);
        assert forall|k: int| 0 <= k < first_near(tempos, v) implies !is_near(
            #[trigger] tempos[k],
            v,
        ) by {
            if k > 0 {
                assert(tempos.skip(1)[k - 1] == tempos[k]);
            }
        }
    }
}

fn find_near(tempos: &[i64], v: i64) -> (r: usize)
    requires
        0 <= v <= 60 * BEAT_LIMIT,
        forall|i: int| 0 <= i < tempos@.len() ==> 0 <= #[trigger] tempos@[i] <= 60 * BEAT_LIMIT,
    ensures
        r == first_near(tempos@, v),
        r <= tempos@.len(),
{
    let mut k: usize = 0;
    while k < tempos.len()
        invariant
            k <= tempos@.len(),
            0 <= v <= 60 * BEAT_LIMIT,
            forall|i: int| 0 <= i < tempos@.len() ==> 0 <= #[trigger] tempos@[i] <= 60 * BEAT_LIMIT,
            forall|i: int| 0 <= i < k ==> !is_near(#[trigger] tempos@[i], v),
        decreases tempos@.len() - k,
    {
        assert(0 <= tempos@[k as int]);
        let d: i64 = tempos[k] - v;
        if -NEAR < d && d < NEAR {
            proof {
                lemma_first_near(tempos@, v);
                assert(is_near(tempos@[k as int], v));
            }
            return k;
        }
        k = k + 1;
    }
    proof {
        lemma_first_near(tempos@, v);
    }
    k
}

/// The tempos of stretches that are not mixed.
fn find_tempos(ps: &[FoundPattern]) -> (r: Vec<i64>)
    requires
        all_valid(ps@),
    ensures
        r@ == tempos(ps@, ps@.len()),
        r@.len() <= ps@.len(),
        forall|i: int| 0 <= i < r@.len() ==> 0 <= #[trigger] r@[i] <= 60 * BEAT_LIMIT,
{
    let mut out: Vec<i64> = Vec::new();
    let mut n: usize = 0;
    while n < ps.len()
        invariant
            n <= ps@.len(),
            all_valid(ps@),
            out@ == tempos(ps@, n as nat),
            out@.len() <= n,
            forall|i: int| 0 <= i < out@.len() ==> 0 <= #[trigger] out@[i] <= 60 * BEAT_LIMIT,
        decreases ps@.len() - n,
    {
        let p = ps[n];
        assert(stretch_valid(ps@[n as int]));
        if !p.mixed && find_near(out.as_slice(), p.ms_per_beat) == out.len() {
            out.push(p.ms_per_beat);
        }
        n = n + 1;
    }
    out
}

/// A stretch that is not mixed belongs to a tempo less than five milliseconds
/// away from it.
pub proof fn law_stretches_are_near_their_tempo(ps: Seq<FoundPattern>, n: nat, i: int)
    requires
        0 <= i < n <= ps.len(),
        !ps[i].mixed,
    ensures
        0 <= first_near(tempos(ps, n), ps[i].ms_per_beat) < tempos(ps, n).len(),
        is_near(tempos(ps, n)[first_near(tempos(ps, n), ps[i].ms_per_beat)], ps[i].ms_per_beat),
    decreases n,
{
    let v = ps[i].ms_per_beat;
    let before = tempos(ps, (n - 1) as nat);
    let all = tempos(ps, n);
    lemma_first_near(before, v);
    lemma_first_near(all, v);
    if i < n - 1 {
        law_stretches_are_near_their_tempo(ps, (n - 1) as nat, i);
        let k = first_near(before, v);
        assert(all[k] == before[k]);
    } else if first_near(before, v) == before.len() {
        assert(all[before.len() as int] == v);
        assert(is_near(all[before.len() as int], v));
    } else {
        let k = first_near(before, v);
        assert(is_near(all[k], v));
    }
}

proof fn lemma_group_bounds(all: Seq<i64>, ps: Seq<FoundPattern>, group: int, n: nat)
    requires
        n <= ps.len(),
        all_valid(ps),
    ensures
        0 <= group_sum(all, ps, group, n) <= n * 4_800_000_000_000_000_000,
        group_count(all, ps, group, n) <= n,
    decreases n,
{
    if n > 0 {
        lemma_group_bounds(all, ps, group, (n - 1) as nat);
        assert(stretch_valid(ps[n - 1]));
    }
}

fn zeros(n: usize) -> (r: Vec<i128>)
    ensures
        r@.len() == n,
        forall|k: int| 0 <= k < n ==> #[trigger] r@[k] == 0,
{
    let mut r: Vec<i128> = Vec::new();
    let mut k: usize = 0;
    while k < n
        invariant
            k <= n,
            r@.len() == k,
            forall|j: int| 0 <= j < k ==> #[trigger] r@[j] == 0,
        decreases n - k,
    {
        r.push(0);
        k = k + 1;
    }
    r
}

/// What the groups from `base` on add up to over the first `n` stretches.
spec fn adds_up(
    sums: Seq<i128>,
    counts: Seq<i128>,
    all: Seq<i64>,
    ps: Seq<FoundPattern>,
    base: int,
    n: nat,
) -> bool {
    &&& counts.len() == sums.len()
    &&& forall|k: int| 0 <= k < sums.len() ==> #[trigger] sums[k] == group_sum(all, ps, base + k, n)
    &&& forall|k: int|
        0 <= k < counts.len() ==> #[trigger] counts[k] == group_count(all, ps, base + k, n)
}

/// The tempos of the groups of all stretches.
fn assign_clusters(ps: &[FoundPattern]) -> (r: Vec<i128>)
    requires
        all_valid(ps@),
    ensures
        r@.len() == ps@.len(),
        forall|i: int| 0 <= i < r@.len() ==> #[trigger] r@[i] == bpms_of(ps@)[i],
        forall|i: int| 0 <= i < r@.len() ==> 0 <= #[trigger] r@[i] <= BPM_LIMIT,
{
    let all = find_tempos(ps);
    let ghost spec_all = tempos(ps@, ps@.len());
    let mut mixed_sums = zeros(6);
    let mut mixed_counts = zeros(6);
    let mut sums = zeros(all.len());
    let mut counts = zeros(all.len());
    let mut n: usize = 0;
    while n < ps.len()
        invariant
            n <= ps@.len(),
            all_valid(ps@),
            all@ == spec_all,
            spec_all == tempos(ps@, ps@.len()),
            forall|i: int| 0 <= i < all@.len() ==> 0 <= #[trigger] all@[i] <= 60 * BEAT_LIMIT,
            mixed_sums@.len() == 6,
            sums@.len() == all@.len(),
            adds_up(mixed_sums@, mixed_counts@, spec_all, ps@, 0, n as nat),
            adds_up(sums@, counts@, spec_all, ps@, 6, n as nat),
        decreases ps@.len() - n,
    {
        let p = ps[n];
        assert(stretch_valid(ps@[n as int]));
        if p.mixed {
            let k: usize = p.pattern.index();
            proof {
                lemma_group_bounds(spec_all, ps@, k as int, n as nat);
                assert(mixed_sums@[k as int] == group_sum(spec_all, ps@, 0 + k, n as nat));
                assert(mixed_counts@[k as int] == group_count(spec_all, ps@, 0 + k, n as nat));
            }
            mixed_sums.set(k, mixed_sums[k] + p.ms_per_beat as i128);
            mixed_counts.set(k, mixed_counts[k] + 1);
        } else {
            let k: usize = find_near(all.as_slice(), p.ms_per_beat);
            proof {
                law_stretches_are_near_their_tempo(ps@, ps@.len(), n as int);
                lemma_group_bounds(spec_all, ps@, 6 + k, n as nat);
                assert(sums@[k as int] == group_sum(spec_all, ps@, 6 + k, n as nat));
                assert(counts@[k as int] == group_count(spec_all, ps@, 6 + k, n as nat));
            }
            sums.set(k, sums[k] + p.ms_per_beat as i128);
            counts.set(k, counts[k] + 1);
        }
        n = n + 1;
    }
    let mut out: Vec<i128> = Vec::new();
    let mut i: usize = 0;
    while i < ps.len()
        invariant
            i <= ps@.len(),
            all_valid(ps@),
            all@ == spec_all,
            spec_all == tempos(ps@, ps@.len()),
            forall|j: int| 0 <= j < all@.len() ==> 0 <= #[trigger] all@[j] <= 60 * BEAT_LIMIT,
            mixed_sums@.len() == 6,
            sums@.len() == all@.len(),
            adds_up(mixed_sums@, mixed_counts@, spec_all, ps@, 0, ps@.len()),
            adds_up(sums@, counts@, spec_all, ps@, 6, ps@.len()),
            out@.len() == i,
            forall|j: int| 0 <= j < i ==> #[trigger] out@[j] == bpms_of(ps@)[j],
            forall|j: int| 0 <= j < i ==> 0 <= #[trigger] out@[j] <= BPM_LIMIT,
        decreases ps@.len() - i,
    {
        let p = ps[i];
        assert(stretch_valid(ps@[i as int]));
        let bpm: i128 = if p.mixed {
            let k: usize = p.pattern.index();
            proof {
                lemma_group_bounds(spec_all, ps@, k as int, ps@.len());
                assert(mixed_sums@[k as int] == group_sum(spec_all, ps@, 0 + k, ps@.len()));
                assert(mixed_counts@[k as int] == group_count(spec_all, ps@, 0 + k, ps@.len()));
            }
            round_tempo(mixed_sums[k], mixed_counts[k])
        } else {
            let k: usize = find_near(all.as_slice(), p.ms_per_beat);
            proof {
                law_stretches_are_near_their_tempo(ps@, ps@.len(), i as int);
                lemma_group_bounds(spec_all, ps@, 6 + k, ps@.len());
                assert(sums@[k as int] == group_sum(spec_all, ps@, 6 + k, ps@.len()));
                assert(counts@[k as int] == group_count(spec_all, ps@, 6 + k, ps@.len()));
            }
            round_tempo(sums[k], counts[k])
        };
        out.push(bpm);
        i = i + 1;
    }
    out
}

fn round_tempo(sum: i128, count: i128) -> (r: i128)
    requires
        0 <= sum,
        0 <= count <= 0x1_0000_0000_0000_0000,
    ensures
        r == tempo_of(sum as int, count as int),
        0 <= r <= BPM_LIMIT,
{
    if sum <= 0 {
        return 0;
    }
    proof {
        let a = 7_200_000 * count + sum;
        let d = 2 * sum as int;
        assert(0 <= a / d <= a) by (nonlinear_arith)
            requires
                a >= 0,
                d >= 1,
        ;
    }
    let v: u128 = (7_200_000 * count as u128 + sum as u128) / (2 * sum as u128);
    if v > BPM_LIMIT as u128 {
        BPM_LIMIT
    } else {
        v as i128
    }
}

/// Every stretch shares a cluster with one that opens it.
proof fn lemma_opener(ps: Seq<FoundPattern>, bpms: Seq<int>, n: nat, j: int)
    requires
        0 <= j < n <= ps.len(),
    ensures
        exists|k: int|
            0 <= k < openers(ps, bpms, n).len() && same_cluster(
                ps,
                bpms,
                #[trigger] openers(ps, bpms, n)[k],
                j,
            ),
    decreases n,
{
    let all = openers(ps, bpms, n);
    let before = openers(ps, bpms, (n - 1) as nat);
    if j < n - 1 {
        lemma_opener(ps, bpms, (n - 1) as nat, j);
        let k = choose|k: int|
            0 <= k < before.len() && same_cluster(ps, bpms, #[trigger] before[k], j);
        assert(all[k] == before[k]);
    } else if opens(ps, bpms, n - 1) {
        assert(all[before.len() as int] == n - 1);
    } else {
        let h = choose|h: int| 0 <= h < n - 1 && #[trigger] same_cluster(ps, bpms, h, n - 1);
        lemma_opener(ps, bpms, (n - 1) as nat, h);
        let k = choose|k: int|
            0 <= k < before.len() && same_cluster(ps, bpms, #[trigger] before[k], h);
        assert(all[k] == before[k]);
        assert(same_cluster(ps, bpms, all[k], j));
    }
}

proof fn lemma_openers_below(ps: Seq<FoundPattern>, bpms: Seq<int>, n: nat)
    ensures
        openers(ps, bpms, n).len() <= n,
        forall|k: int|
            0 <= k < openers(ps, bpms, n).len() ==> 0 <= #[trigger] openers(ps, bpms, n)[k] < n,
    decreases n,
{
    if n > 0 {
        lemma_openers_below(ps, bpms, (n - 1) as nat);
    }
}

/// The tempos of the groups, as the stretches have them.
spec fn agree(bpms: Seq<i128>, all: Seq<int>) -> bool {
    bpms.len() == all.len() && forall|i: int| 0 <= i < bpms.len() ==> #[trigger] bpms[i] == all[i]
}

/// The stretches that open clusters.
fn find_openers(ps: &[FoundPattern], bpms: &[i128], Ghost(all): Ghost<Seq<int>>) -> (r: Vec<usize>)
    requires
        bpms@.len() == ps@.len(),
        agree(bpms@, all),
    ensures
        positions(r@) == openers(ps@, all, ps@.len()),
        forall|k: int| 0 <= k < r@.len() ==> #[trigger] r@[k] < ps@.len(),
        r@.len() <= ps@.len(),
{
    let mut out: Vec<usize> = Vec::new();
    let mut n: usize = 0;
    assert(positions(out@) =~= openers(ps@, all, 0));
    while n < ps.len()
        invariant
            n <= ps@.len(),
            bpms@.len() == ps@.len(),
            agree(bpms@, all),
            positions(out@) == openers(ps@, all, n as nat),
            out@.len() <= n,
            forall|k: int| 0 <= k < out@.len() ==> #[trigger] out@[k] < n,
        decreases ps@.len() - n,
    {
        let mut fresh = true;
        let mut k: usize = 0;
        while k < out.len()
            invariant
                k <= out@.len(),
                n < ps@.len(),
                bpms@.len() == ps@.len(),
                agree(bpms@, all),
                forall|j: int| 0 <= j < out@.len() ==> #[trigger] out@[j] < n,
                fresh == (forall|j: int|
                    0 <= j < k ==> !same_cluster(ps@, all, #[trigger] out@[j] as int, n as int)),
            decreases out@.len() - k,
        {
            let h: usize = out[k];
            assert(bpms@[h as int] == all[h as int]);
            assert(bpms@[n as int] == all[n as int]);
            if ps[h].pattern == ps[n].pattern && ps[h].mixed == ps[n].mixed && bpms[h]
                == bpms[n] {
                assert(same_cluster(ps@, all, out@[k as int] as int, n as int));
                fresh = false;
            }
            k = k + 1;
        }
        proof {
            let before = openers(ps@, all, n as nat);
            assert forall|j: int| 0 <= j < before.len() implies before[j] == out@[j] by {}
            if fresh {
                assert forall|j: int| 0 <= j < n implies !#[trigger] same_cluster(
                    ps@,
                    all,
                    j,
                    n as int,
                ) by {
                    if same_cluster(ps@, all, j, n as int) {
                        lemma_opener(ps@, all, n as nat, j);
                        let m = choose|m: int|
                            0 <= m < before.len() && same_cluster(
                                ps@,
                                all,
                                #[trigger] before[m],
                                j,
                            );
                        assert(before[m] == out@[m]);
                        assert(same_cluster(ps@, all, out@[m] as int, n as int));
                    }
                }
                assert(opens(ps@, all, n as int));
            } else {
                let m = choose|m: int|
                    0 <= m < out@.len() && same_cluster(
                        ps@,
                        all,
                        #[trigger] out@[m] as int,
                        n as int,
                    );
                assert(!opens(ps@, all, n as int));
            }
        }
        if fresh {
            let ghost before = positions(out@);
            out.push(n);
            assert(positions(out@) =~= before.push(n as int));
        }
        n = n + 1;
    }
    out
}

/// The stretches of the cluster of stretch `h`.
fn find_members(ps: &[FoundPattern], bpms: &[i128], h: usize, Ghost(all): Ghost<Seq<int>>) -> (r:
    Vec<FoundPattern>)
    requires
        bpms@.len() == ps@.len(),
        agree(bpms@, all),
        h < ps@.len(),
        all_valid(ps@),
    ensures
        r@ == members(ps@, all, h as int, ps@.len()),
        r@.len() <= ps@.len(),
        r@.len() > 0,
        all_valid(r@),
{
    let mut out: Vec<FoundPattern> = Vec::new();
    let mut n: usize = 0;
    while n < ps.len()
        invariant
            n <= ps@.len(),
            bpms@.len() == ps@.len(),
            agree(bpms@, all),
            h < ps@.len(),
            all_valid(ps@),
            out@ == members(ps@, all, h as int, n as nat),
            out@.len() <= n,
            n > h ==> out@.len() > 0,
            all_valid(out@),
        decreases ps@.len() - n,
    {
        assert(bpms@[h as int] == all[h as int]);
        assert(bpms@[n as int] == all[n as int]);
        if ps[h].pattern == ps[n].pattern && ps[h].mixed == ps[n].mixed && bpms[h] == bpms[n] {
            let ghost before = out@;
            assert(stretch_valid(ps@[n as int]));
            out.push(ps[n]);
            assert forall|i: int| 0 <= i < out@.len() implies stretch_valid(#[trigger] out@[i]) by {
                if i < before.len() {
                    assert(out@[i] == before[i]);
                }
            }
        }
        n = n + 1;
    }
    out
}

fn kind_index(kinds: &[Subtype], kind: Subtype) -> (r: Option<usize>)
    ensures
        match r {
            Some(k) => k < kinds@.len() && kinds@[k as int] == kind,
            None => !kinds@.contains(kind),
        },
{
    let mut k: usize = 0;
    while k < kinds.len()
        invariant
            k <= kinds@.len(),
            forall|j: int| 0 <= j < k ==> kinds@[j] != kind,
        decreases kinds@.len() - k,
    {
        if kinds[k] == kind {
            return Some(k);
        }
        k = k + 1;
    }
    None
}

proof fn lemma_kinds_seen(ms: Seq<FoundPattern>, n: nat)
    requires
        n <= ms.len(),
    ensures
        kinds_seen(ms, n).no_duplicates(),
        kinds_seen(ms, n).len() <= n,
        forall|k: int|
            0 <= k < kinds_seen(ms, n).len() ==> kind_count(
                ms,
                #[trigger] kinds_seen(ms, n)[k],
                n,
            ) > 0,
        forall|kind: Subtype|
            !kinds_seen(ms, n).contains(kind) ==> #[trigger] kind_count(ms, kind, n) == 0,
        forall|kind: Subtype| #[trigger] kind_count(ms, kind, n) <= n,
    decreases n,
{
    if n > 0 {
        let before = kinds_seen(ms, (n - 1) as nat);
        let all = kinds_seen(ms, n);
        lemma_kinds_seen(ms, (n - 1) as nat);
        assert forall|k: int| 0 <= k < all.len() implies kind_count(ms, #[trigger] all[k], n)
            > 0 by {
            if k < before.len() {
                assert(all[k] == before[k]);
                assert(kind_count(ms, before[k], (n - 1) as nat) > 0);
            }
        }
        assert forall|kind: Subtype| !all.contains(kind) implies #[trigger] kind_count(ms, kind, n)
            == 0 by {
            if before.contains(kind) {
                let k = choose|k: int| 0 <= k < before.len() && before[k] == kind;
                assert(all[k] == kind);
            }
            if ms[n - 1].specific_type == Some(kind) {
                assert(all[all.len() - 1] == kind || before.contains(kind));
            }
            assert(kind_count(ms, kind, (n - 1) as nat) == 0);
        }
        assert forall|kind: Subtype| #[trigger] kind_count(ms, kind, n) <= n by {
            assert(kind_count(ms, kind, (n - 1) as nat) <= n - 1);
        }
    }
}

/// The kinds of stretches with their shares, the most frequent first.
fn share_kinds(ms: &[FoundPattern]) -> (r: Vec<(Subtype, Ratio)>)
    requires
        0 < ms@.len(),
    ensures
        r@ == kind_shares(ms@),
        shares_valid(r@),
{
    let mut kinds: Vec<Subtype> = Vec::new();
    let mut counts: Vec<i128> = Vec::new();
    let mut n: usize = 0;
    while n < ms.len()
        invariant
            n <= ms@.len(),
            kinds@ == kinds_seen(ms@, n as nat),
            counts@.len() == kinds@.len(),
            forall|k: int|
                0 <= k < kinds@.len() ==> #[trigger] counts@[k] == kind_count(
                    ms@,
                    kinds@[k],
                    n as nat,
                ),
        decreases ms@.len() - n,
    {
        proof {
            lemma_kinds_seen(ms@, n as nat);
            lemma_kinds_seen(ms@, (n + 1) as nat);
        }
        let ghost (old_kinds, old_counts) = (kinds@, counts@);
        if let Some(kind) = ms[n].specific_type {
            match kind_index(kinds.as_slice(), kind) {
                Some(k) => {
                    assert(old_kinds.contains(kind));
                    assert(counts@[k as int] == kind_count(ms@, kinds@[k as int], n as nat));
                    counts.set(k, counts[k] + 1);
                },
                None => {
                    kinds.push(kind);
                    counts.push(1);
                },
            }
            assert forall|j: int| 0 <= j < kinds@.len() implies #[trigger] counts@[j] == kind_count(
                ms@,
                kinds@[j],
                (n + 1) as nat,
            ) by {
                if j < old_kinds.len() {
                    assert(old_counts[j] == kind_count(ms@, old_kinds[j], n as nat));
                } else {
                    assert(kind_count(ms@, kind, n as nat) == 0);
                }
            }
        }
        n = n + 1;
    }
    let ghost all = kinds_seen(ms@, ms@.len());
    let ghost spec_keys = all.map_values(
        |k: Subtype| (-(kind_count(ms@, k, ms@.len()) as int)) as i128,
    );
    proof {
        lemma_kinds_seen(ms@, ms@.len());
    }
    let mut keys: Vec<i128> = Vec::new();
    let mut i: usize = 0;
    while i < kinds.len()
        invariant
            i <= kinds@.len(),
            kinds@ == all,
            counts@.len() == kinds@.len(),
            forall|k: int|
                0 <= k < kinds@.len() ==> #[trigger] counts@[k] == kind_count(
                    ms@,
                    kinds@[k],
                    ms@.len(),
                ),
            forall|k: int| 0 <= k < kinds@.len() ==> 0 <= #[trigger] counts@[k] <= ms@.len(),
            spec_keys == all.map_values(
                |k: Subtype| (-(kind_count(ms@, k, ms@.len()) as int)) as i128,
            ),
            0 < ms@.len(),
            keys@.len() == i,
            forall|k: int| 0 <= k < i ==> #[trigger] keys@[k] == spec_keys[k],
        decreases kinds@.len() - i,
    {
        assert(0 <= counts@[i as int] <= ms@.len());
        keys.push(-counts[i]);
        i = i + 1;
    }
    assert(keys@ =~= spec_keys);
    let order = sort_order(keys.as_slice());
    let mut out: Vec<(Subtype, Ratio)> = Vec::new();
    let mut j: usize = 0;
    while j < order.len()
        invariant
            j <= order@.len(),
            0 < ms@.len(),
            kinds@ == all,
            order@.len() == kinds@.len(),
            counts@.len() == kinds@.len(),
            forall|k: int| 0 <= k < order@.len() ==> #[trigger] order@[k] < kinds@.len(),
            forall|k: int|
                0 <= k < kinds@.len() ==> #[trigger] counts@[k] == kind_count(
                    ms@,
                    kinds@[k],
                    ms@.len(),
                ),
            out@.len() == j,
            forall|k: int|
                0 <= k < j ==> #[trigger] out@[k] == (
                    kinds@[order@[k] as int],
                    Ratio { num: counts@[order@[k] as int], den: ms@.len() as i128 },
                ),
        decreases order@.len() - j,
    {
        let k: usize = order[j];
        out.push((kinds[k], Ratio { num: counts[k], den: ms.len() as i128 }));
        j = j + 1;
    }
    assert forall|k: int| 0 <= k < out@.len() implies #[trigger] out@[k] == kind_shares(ms@)[k] && 0
        <= out@[k].1.num <= out@[k].1.den by {
        assert(positions(order@)[k] == order@[k]);
        assert(kind_count(ms@, kinds@[order@[k] as int], ms@.len()) <= ms@.len());
    }
    assert(out@ =~= kind_shares(ms@));
    proof {
        law_sorting_is_stable(keys@, keys@.len());
        assert forall|i: int, j: int| 0 <= i < j < out@.len() implies (#[trigger] out@[i]).0 != (
        #[trigger] out@[j]).0 by {
            assert(positions(order@)[i] == order@[i]);
            assert(positions(order@)[j] == order@[j]);
            assert(sorted_order(keys@)[i] != sorted_order(keys@)[j]);
            assert(all[order@[i] as int] != all[order@[j] as int]);
        }
    }
    out
}

fn spans_from(ms: &[FoundPattern]) -> (r: Vec<(i64, i64)>)
    ensures
        r@ == spans_of(ms@),
{
    let mut out: Vec<(i64, i64)> = Vec::new();
    let mut n: usize = 0;
    while n < ms.len()
        invariant
            n <= ms@.len(),
            out@.len() == n,
            forall|k: int| 0 <= k < n ==> #[trigger] out@[k] == spans_of(ms@)[k],
        decreases ms@.len() - n,
    {
        out.push((ms[n].start, ms[n].end));
        n = n + 1;
    }
    assert(out@ =~= spans_of(ms@));
    out
}

fn release_among(shares: &[(Subtype, Ratio)]) -> (r: bool)
    ensures
        r == has_release(shares@),
{
    let mut n: usize = 0;
    while n < shares.len()
        invariant
            n <= shares@.len(),
            forall|i: int| 0 <= i < n ==> (#[trigger] shares@[i]).0 != Subtype::Release,
        decreases shares@.len() - n,
    {
        if shares[n].0 == Subtype::Release {
            assert(shares@[n as int].0 == Subtype::Release);
            return true;
        }
        n = n + 1;
    }
    false
}

fn dense_among(ps: &[FoundPattern]) -> (r: bool)
    ensures
        r == is_dense(ps@),
{
    let mut n: usize = 0;
    while n < ps.len()
        invariant
            n <= ps@.len(),
            forall|i: int|
                0 <= i < n ==> (#[trigger] ps@[i]).pattern != ManiaPattern::Density
                    && ps@[i].pattern != ManiaPattern::Wildcard,
        decreases ps@.len() - n,
    {
        if ps[n].pattern == ManiaPattern::Density || ps[n].pattern == ManiaPattern::Wildcard {
            assert(ps@[n as int].pattern == ps[n as int].pattern);
            return true;
        }
        n = n + 1;
    }
    false
}

/// Whether the shares of kinds are shares of so many stretches, and each kind
/// occurs once.
pub open spec fn shares_valid(shares: Seq<(Subtype, Ratio)>) -> bool {
    &&& forall|i: int|
        0 <= i < shares.len() ==> 0 <= (#[trigger] shares[i]).1.num <= shares[i].1.den && 0
            < shares[i].1.den <= usize::MAX
    &&& forall|i: int, j: int|
        0 <= i < j < shares.len() ==> (#[trigger] shares[i]).0 != (#[trigger] shares[j]).0
}

/// What holds of a cluster that was gathered.
pub open spec fn cluster_valid(c: ClusterView) -> bool {
    &&& shares_valid(c.specific_types)
    &&& 0 <= c.bpm <= BPM_LIMIT
    &&& 0 <= c.amount <= SPAN_LIMIT + BEAT_LIMIT
    &&& 0 <= c.rating_multiplier.num
    &&& 2 * c.rating_multiplier.num <= 3 * c.rating_multiplier.den
    &&& 0 < c.rating_multiplier.den <= SCALE
    &&& SCALE as int % (c.rating_multiplier.den as int) == 0
    &&& c.importance == importance_of(c.amount, c.rating_multiplier, c.bpm)
}

proof fn lemma_scale(d: int)
    requires
        0 < d <= 200,
        600int % d == 0,
    ensures
        3000int % d == 0,
        3000int % (d * 5) == 0,
{
    let q = 600int / d;
    assert(600 == d * q) by (nonlinear_arith)
        requires
            600int % d == 0,
            q == 600int / d,
            d > 0,
    ;
    assert(3000 == (d * 5) * q) by (nonlinear_arith)
        requires
            600 == d * q,
    ;
    assert(3000 == d * (5 * q)) by (nonlinear_arith)
        requires
            600 == d * q,
    ;
    vstd::arithmetic::div_mod::lemma_mod_multiples_basic(q, d * 5);
    vstd::arithmetic::div_mod::lemma_mod_multiples_basic(5 * q, d);
    assert(q * (d * 5) == (d * 5) * q) by (nonlinear_arith);
    assert((5 * q) * d == d * (5 * q)) by (nonlinear_arith);
}

proof fn lemma_parts(weight: Ratio)
    requires
        0 <= weight.num <= 10_000,
        0 < weight.den,
    ensures
        0 <= weight_parts(weight) <= 30_000_000,
        0 <= SCALE as int / weight.den as int <= SCALE,
{
    let (n, d, s) = (weight.num as int, weight.den as int, SCALE as int);
    let q = s / d;
    assert(0 <= q <= s) by (nonlinear_arith)
        requires
            d >= 1,
            s >= 0,
            q == s / d,
    ;
    assert(0 <= n * q <= 10_000 * 3000) by (nonlinear_arith)
        requires
            0 <= n <= 10_000,
            0 <= q <= 3000,
    ;
}

/// Gathers stretches into clusters.
pub fn specific_clusters(ps: &[FoundPattern], mode: ManiaModeFamily) -> (r: Vec<PatternCluster>)
    requires
        all_valid(ps@),
    ensures
        cluster_views(r@) == clusters_of(ps@, mode),
        forall|i: int| 0 <= i < r@.len() ==> cluster_valid((#[trigger] r@[i])@),
        r@.len() <= ps@.len(),
{
    let bpms = assign_clusters(ps);
    let ghost all = bpms_of(ps@);
    assert(agree(bpms@, all));
    let heads = find_openers(ps, bpms.as_slice(), Ghost(all));
    let dense = dense_among(ps);
    let mut out: Vec<PatternCluster> = Vec::new();
    let mut k: usize = 0;
    while k < heads.len()
        invariant
            k <= heads@.len() <= ps@.len(),
            all_valid(ps@),
                bpms@.len() == ps@.len(),
            all == bpms_of(ps@),
            agree(bpms@, all),
            forall|i: int|
                0 <= i < bpms@.len() ==> 0 <= #[trigger] bpms@[i] <= BPM_LIMIT,
            dense == is_dense(ps@),
            forall|j: int| 0 <= j < heads@.len() ==> #[trigger] heads@[j] < ps@.len(),
            out@.len() == k,
            forall|j: int|
                0 <= j < k ==> (#[trigger] out@[j])@ == cluster_of(ps@, mode, heads@[j] as int),
            forall|j: int| 0 <= j < k ==> cluster_valid((#[trigger] out@[j])@),
        decreases heads@.len() - k,
    {
        let h: usize = heads[k];
        let ms = find_members(ps, bpms.as_slice(), h, Ghost(all));
        let spans = spans_from(ms.as_slice());
        proof {
            assert forall|i: int| 0 <= i < spans@.len() implies 0 <= (#[trigger] spans@[i]).0
                && spans@[i].1 <= SPAN_LIMIT + BEAT_LIMIT && 0 <= spans@[i].1 && spans@[i].0
                <= SPAN_LIMIT + BEAT_LIMIT by {
                assert(stretch_valid(ms@[i]));
            }
            law_union_fits(spans@, 0, SPAN_LIMIT + BEAT_LIMIT);
        }
        let amount: i64 = union_length(spans.as_slice());
        let shares = share_kinds(ms.as_slice());
        let kind = if shares.len() > 0 {
            Some(shares[0].0)
        } else {
            None
        };
        let plain = resolve_rating_multiplier(ps[h].pattern, kind, mode);
        let weight = if dense && release_among(shares.as_slice()) {
            Ratio { num: plain.num * 4, den: plain.den * 5 }
        } else {
            plain
        };
        let bpm: i128 = bpms[h];
        proof {
            lemma_scale(plain.den as int);
            lemma_parts(weight);
        }
        let parts: i128 = weight.num * (SCALE / weight.den);
        let importance = Big::from_u128(amount as u128).times_word(parts as u128).times_word(
            bpm as u128,
        );
        let c = PatternCluster {
            pattern: ps[h].pattern,
            specific_types: shares,
            rating_multiplier: weight,
            bpm,
            mixed: ps[h].mixed,
            amount,
            importance,
        };
        assert(c@ =~= cluster_of(ps@, mode, h as int));
        out.push(c);
        k = k + 1;
    }
    assert forall|j: int| 0 <= j < out@.len() implies #[trigger] cluster_views(out@)[j]
        == clusters_of(ps@, mode)[j] by {
        assert(positions(heads@)[j] == heads@[j]);
    }
    assert(cluster_views(out@) =~= clusters_of(ps@, mode));
    out
}

/// The tempo at a clock rate, to the nearest whole number, halves away from
/// zero; it stops at [`BPM_LIMIT`].
pub open spec fn bpm_at(bpm: int, rate: Ratio) -> int {
    if rate.num >= 0 {
        least(BPM_LIMIT as int, (2 * bpm * rate.num + rate.den) / (2 * rate.den))
    } else {
        -least(BPM_LIMIT + 1, (2 * bpm * -rate.num + rate.den) / (2 * rate.den))
    }
}

/// A cluster in words: its tempo at a clock rate and its first kind.
pub open spec fn label_of(c: ClusterView, rate: Ratio) -> Seq<char> {
    let name = if c.specific_types.len() > 0 {
        c.specific_types[0].0.name()
    } else {
        c.pattern.name()
    };
    let tempo = whole_text(bpm_at(c.bpm, rate));
    if c.mixed {
        "~"@ + tempo + "BPM Mixed "@ + name
    } else {
        tempo + "BPM "@ + name
    }
}

/// The tempo at a clock rate.
fn tempo_at(bpm: i128, rate: Ratio) -> (r: i128)
    requires
        0 <= bpm <= BPM_LIMIT,
        -1_000_000_000_000_000_000 <= rate.num <= 1_000_000_000_000_000_000,
        0 < rate.den <= 1_000_000_000_000_000_000,
    ensures
        r == bpm_at(bpm as int, rate),
        -BPM_LIMIT - 1 <= r <= BPM_LIMIT,
{
    let n: i128 = if rate.num >= 0 {
        rate.num
    } else {
        -rate.num
    };
    proof {
        let (b, m) = (bpm as int, n as int);
        assert(0 <= 2 * b * m <= 2 * 0x7fff_ffff_ffff_ffff * 1_000_000_000_000_000_000)
            by (nonlinear_arith)
            requires
                0 <= b <= 0x7fff_ffff_ffff_ffff,
                0 <= m <= 1_000_000_000_000_000_000,
        ;
    }
    let v: i128 = (2 * bpm * n + rate.den) / (2 * rate.den);
    proof {
        let (x, y) = (2 * bpm * n + rate.den, 2 * rate.den);
        assert(0 <= x / y) by (nonlinear_arith)
            requires
                x >= 0,
                y >= 1,
        ;
    }
    if rate.num >= 0 {
        if v > BPM_LIMIT {
            BPM_LIMIT
        } else {
            v
        }
    } else if v > BPM_LIMIT {
        -BPM_LIMIT - 1
    } else {
        -v
    }
}

impl PatternCluster {
    /// Describes the cluster in words, with its tempo at a clock rate.
    pub fn format(&self, rate: Ratio) -> (r: String)
        requires
            0 <= self@.bpm <= BPM_LIMIT,
            -1_000_000_000_000_000_000 <= rate.num <= 1_000_000_000_000_000_000,
            0 < rate.den <= 1_000_000_000_000_000_000,
        ensures
            r@ == label_of(self@, rate),
    {
        let name: &str = if self.specific_types.len() > 0 {
            self.specific_types[0].0.as_str()
        } else {
            self.pattern.as_str()
        };
        let digits = write_whole(tempo_at(self.bpm, rate));
        let tempo = string_of(digits.as_slice());
        let mut out: String = if self.mixed {
            "~".to_owned()
        } else {
            "".to_owned()
        };
        proof {
            reveal_strlit("");
        }
        out.append(tempo.as_str());
        if self.mixed {
            out.append("BPM Mixed ");
        } else {
            assert(out@ =~= tempo@);
            out.append("BPM ");
        }
        out.append(name);
        out
    }
}

} // verus!
