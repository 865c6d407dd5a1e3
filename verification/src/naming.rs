//! What a chart is called: stretches of one kind at one tempo make one cluster,
//! and its kind names the chart.

use crate::chart::ChartView;
use crate::clustering::{
    bpms_of, cluster_of, cluster_weight, clusters_of, first_near, group_count, group_of, group_sum,
    is_dense, is_near, kind_count, kind_shares, kinds_seen, members, openers, same_cluster,
    spans_of, tempos, ClusterView,
};
use crate::config::full_weight;
use crate::finder::{FoundPattern, Subtype, SPAN_LIMIT};
use crate::intervals::{covered, measure, union_measure, within_span, BOUND};
use crate::order::{is_stable_order, law_sorting_is_stable, sorted_order};
use crate::summary::{
    brisk, by_amount, by_importance, foremost, main_clusters, mode_of, outdone, pruned, report_of,
    stretches_of,
};
use crate::types::{ManiaModeFamily, ManiaPattern};
use vstd::prelude::*;

verus! {

/// Whether all stretches are of one pattern and one kind, evenly spaced at one
/// beat, and take time.
pub open spec fn all_alike(
    ps: Seq<FoundPattern>,
    core: ManiaPattern,
    kind: Subtype,
    beat: int,
) -> bool {
    forall|i: int|
        0 <= i < ps.len() ==> {
            let p = #[trigger] ps[i];
            &&& p.pattern == core
            &&& p.specific_type == Some(kind)
            &&& !p.mixed
            &&& p.ms_per_beat == beat
            &&& 0 <= p.start < p.end
            &&& p.start <= SPAN_LIMIT
        }
}

proof fn lemma_one_tempo(ps: Seq<FoundPattern>, core: ManiaPattern, kind: Subtype, beat: int, n: nat)
    requires
        all_alike(ps, core, kind, beat),
        0 < n <= ps.len(),
    ensures
        tempos(ps, n) == seq![beat as i64],
    decreases n,
{
    let p = ps[n - 1];
    if n > 1 {
        lemma_one_tempo(ps, core, kind, beat, (n - 1) as nat);
        assert(is_near(tempos(ps, (n - 1) as nat)[0], p.ms_per_beat));
        assert(first_near(tempos(ps, (n - 1) as nat), p.ms_per_beat) == 0);
    } else {
        assert(tempos(ps, 0) =~= Seq::empty());
        assert(first_near(tempos(ps, 0), p.ms_per_beat) == 0);
        assert(tempos(ps, 1) =~= seq![beat as i64]);
    }
}

proof fn lemma_one_group(ps: Seq<FoundPattern>, core: ManiaPattern, kind: Subtype, beat: int, n: nat)
    requires
        all_alike(ps, core, kind, beat),
        n <= ps.len(),
    ensures
        group_sum(seq![beat as i64], ps, 6, n) == n * beat,
        group_count(seq![beat as i64], ps, 6, n) == n,
    decreases n,
{
    if n > 0 {
        lemma_one_group(ps, core, kind, beat, (n - 1) as nat);
        let all = seq![beat as i64];
        assert(is_near(all[0], ps[n - 1].ms_per_beat));
        assert(group_of(all, ps[n - 1]) == 6);
        assert((n - 1) * beat + beat == n * beat) by (nonlinear_arith);
    }
}

proof fn lemma_one_bpm(ps: Seq<FoundPattern>, core: ManiaPattern, kind: Subtype, beat: int, i: int)
    requires
        all_alike(ps, core, kind, beat),
        0 <= i < ps.len(),
        0 < beat <= 141_000,
    ensures
        bpms_of(ps)[i] == bpms_of(ps)[0],
        bpms_of(ps)[i] > 25,
{
    let n = ps.len();
    lemma_one_tempo(ps, core, kind, beat, n);
    lemma_one_group(ps, core, kind, beat, n);
    let all = seq![beat as i64];
    assert(is_near(all[0], ps[i].ms_per_beat));
    assert(is_near(all[0], ps[0].ms_per_beat));
    assert(group_of(all, ps[i]) == 6 && group_of(all, ps[0]) == 6);
    let sum = n * beat;
    assert(sum > 0) by (nonlinear_arith)
        requires
            n > 0,
            beat > 0,
            sum == n * beat,
    ;
    assert((7_200_000 * n + sum) / (2 * sum) >= 26) by (nonlinear_arith)
        requires
            sum == n * beat,
            n > 0,
            0 < beat <= 141_000,
            sum > 0,
    ;
}

proof fn lemma_one_opener(ps: Seq<FoundPattern>, core: ManiaPattern, kind: Subtype, beat: int, n: nat)
    requires
        all_alike(ps, core, kind, beat),
        0 < beat <= 141_000,
        0 < n <= ps.len(),
    ensures
        openers(ps, bpms_of(ps), n) == seq![0int],
        members(ps, bpms_of(ps), 0, n) == ps.take(n as int),
    decreases n,
{
    let bpms = bpms_of(ps);
    lemma_one_bpm(ps, core, kind, beat, n - 1);
    lemma_one_bpm(ps, core, kind, beat, 0);
    assert(ps[n - 1].pattern == ps[0].pattern && ps[n - 1].mixed == ps[0].mixed);
    assert(same_cluster(ps, bpms, 0, n - 1));
    if n > 1 {
        lemma_one_opener(ps, core, kind, beat, (n - 1) as nat);
        assert(ps.take(n - 1).push(ps[n - 1]) =~= ps.take(n as int));
    } else {
        assert(openers(ps, bpms, 0) =~= Seq::empty());
        assert(openers(ps, bpms, 1) =~= seq![0int]);
        assert(members(ps, bpms, 0, 0) =~= Seq::empty());
        assert(members(ps, bpms, 0, 1) =~= ps.take(1));
    }
}

proof fn lemma_one_kind(ps: Seq<FoundPattern>, core: ManiaPattern, kind: Subtype, beat: int, n: nat)
    requires
        all_alike(ps, core, kind, beat),
        n <= ps.len(),
    ensures
        kind_count(ps, kind, n) == n,
        n > 0 ==> kinds_seen(ps, n) == seq![kind],
    decreases n,
{
    if n > 0 {
        lemma_one_kind(ps, core, kind, beat, (n - 1) as nat);
        assert(ps[n - 1].specific_type == Some(kind));
        if n > 1 {
            assert(kinds_seen(ps, (n - 1) as nat)[0] == kind);
        } else {
            assert(kinds_seen(ps, 0) =~= Seq::empty());
            assert(kinds_seen(ps, 1) =~= seq![kind]);
        }
    }
}

proof fn lemma_order_of_one(keys: Seq<i128>)
    requires
        keys.len() == 1,
    ensures
        sorted_order(keys).len() == 1,
        sorted_order(keys)[0] == 0,
{
    law_sorting_is_stable(keys, 1);
    assert(is_stable_order(keys, sorted_order(keys), 1));
}

proof fn lemma_covers(spans: Seq<(i64, i64)>, x: int, lo: int, hi: int)
    requires
        covered(spans, x),
        lo <= x < hi,
    ensures
        measure(spans, lo, hi) > 0,
    decreases hi - lo,
{
    if x < hi - 1 {
        lemma_covers(spans, x, lo, hi - 1);
    }
}

proof fn lemma_one_cluster(
    ps: Seq<FoundPattern>,
    core: ManiaPattern,
    kind: Subtype,
    beat: int,
    mode: ManiaModeFamily,
)
    requires
        all_alike(ps, core, kind, beat),
        0 < beat <= 141_000,
        0 < ps.len() <= i128::MAX,
        core != ManiaPattern::Density && core != ManiaPattern::Wildcard,
        full_weight(core, Some(kind), mode).num > 0,
        0 < full_weight(core, Some(kind), mode).den <= 3000,
    ensures
        ({
            let cs = main_clusters(ps, mode);
            &&& cs.len() == 1
            &&& cs[0] == cluster_of(ps, mode, 0)
            &&& cs[0].pattern == core
            &&& !cs[0].mixed
            &&& cs[0].specific_types.len() == 1
            &&& cs[0].specific_types[0].0 == kind
            &&& cs[0].specific_types[0].1.num == cs[0].specific_types[0].1.den == ps.len()
            &&& cs[0].importance > 0
        }),
{
    let n = ps.len();
    let bpms = bpms_of(ps);
    lemma_one_opener(ps, core, kind, beat, n);
    assert(ps.take(n as int) =~= ps);
    lemma_one_kind(ps, core, kind, beat, n);
    lemma_one_bpm(ps, core, kind, beat, 0);
    let kinds = kinds_seen(ps, n);
    let keys = kinds.map_values(|k: Subtype| (-(kind_count(ps, k, n) as int)) as i128);
    lemma_order_of_one(keys);
    let shares = kind_shares(ps);
    let c = cluster_of(ps, mode, 0);
    assert(ps[0].pattern == core && !ps[0].mixed);
    assert(shares.len() == 1 && shares[0].0 == kind);
    assert(!is_dense(ps)) by {
        if is_dense(ps) {
            let i = choose|i: int|
                0 <= i < ps.len() && ((#[trigger] ps[i]).pattern == ManiaPattern::Density
                    || ps[i].pattern == ManiaPattern::Wildcard);
            assert(ps[i].pattern == core);
        }
    }
    let weight = cluster_weight(core, shares, mode, false);
    assert(weight == full_weight(core, Some(kind), mode));
    let spans = spans_of(ps);
    assert(within_span(spans[0], ps[0].start as int));
    lemma_covers(spans, ps[0].start as int, -BOUND as int, BOUND as int);
    let amount = union_measure(spans) as int;
    let parts = crate::clustering::weight_parts(weight);
    let (wn, wd) = (weight.num as int, weight.den as int);
    assert(3000int / wd >= 1) by (nonlinear_arith)
        requires
            0 < wd <= 3000,
    ;
    let q = 3000int / wd;
    assert(parts == wn * q);
    let b = bpms[0];
    assert(amount * parts * b > 0) by (nonlinear_arith)
        requires
            amount > 0,
            parts == wn * q,
            wn > 0,
            q >= 1,
            b > 25,
    ;
    let all = clusters_of(ps, mode);
    assert(all =~= seq![c]);
    assert(brisk(all, 0) =~= Seq::empty());
    assert(brisk(all, 1) =~= seq![c]);
    lemma_order_of_one(seq![c].map_values(|c: ClusterView| crate::summary::amount_key(c)));
    assert(by_amount(seq![c]) =~= seq![c]);
    lemma_pruned(c, 6);
    lemma_order_of_one(crate::summary::importance_keys(seq![c]));
    assert(by_importance(seq![c]) =~= seq![c]);
}

proof fn lemma_pruned(c: ClusterView, k: nat)
    requires
        k <= 6,
    ensures
        c.pattern.rank() < k ==> pruned(seq![c], k) == seq![c],
        c.pattern.rank() >= k ==> pruned(seq![c], k) == Seq::<ClusterView>::empty(),
    decreases k,
{
    if k > 0 {
        lemma_pruned(c, (k - 1) as nat);
        let cs = seq![c];
        let p = ManiaPattern::at(k - 1);
        assert(!outdone(cs, 0));
        assert(foremost(cs, p, 0) =~= Seq::empty());
        if c.pattern == p {
            assert(foremost(cs, p, 1) =~= seq![c]);
            assert(pruned(cs, k) =~= seq![c]);
        } else {
            assert(foremost(cs, p, 1) =~= Seq::empty());
            assert(pruned(cs, k) =~= pruned(cs, (k - 1) as nat));
        }
    } else {
        assert(pruned(seq![c], 0) =~= Seq::empty());
    }
}

/// A chart all of whose stretches are of one kind at one brisk tempo is told by
/// one cluster, and the kind is its category.
pub proof fn law_one_kind_names_the_chart(
    c: ChartView,
    core: ManiaPattern,
    kind: Subtype,
    beat: int,
)
    requires
        all_alike(stretches_of(c), core, kind, beat),
        0 < beat <= 141_000,
        0 < stretches_of(c).len() <= i128::MAX,
        core != ManiaPattern::Density && core != ManiaPattern::Wildcard,
        full_weight(core, Some(kind), mode_of(c)).num > 0,
        0 < full_weight(core, Some(kind), mode_of(c)).den <= 3000,
    ensures
        report_of(c) matches Ok(report) && {
            &&& report.category == kind.name()
            &&& report.clusters.len() == 1
            &&& report.clusters[0].pattern == core
            &&& report.clusters[0].specific_types.len() == 1
            &&& report.clusters[0].specific_types[0].0 == kind
            &&& report.clusters[0].specific_types[0].1.num
                == report.clusters[0].specific_types[0].1.den
        },
{
    lemma_one_cluster(stretches_of(c), core, kind, beat, mode_of(c));
}

} // verus!
