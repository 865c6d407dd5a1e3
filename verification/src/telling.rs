//! Which clusters a chart is told by, and what it is called after them.

use crate::chart::ChartView;
use crate::clustering::{clusters_of, ClusterView};
use crate::finder::FoundPattern;
use crate::order::{is_stable_order, law_sorting_is_stable, lemma_onto, order_of, sorted_order};
use crate::summary::{
    amount_key, arranged, brisk, by_amount, by_importance, foremost, importance_keys,
    important_count, is_brisk, lemma_count_arranged, lemma_count_foremost, lemma_count_joined,
    main_clusters, outdone, pattern_count, pruned, report_of, ReportError,
};
use crate::types::{ManiaModeFamily, ManiaPattern};
use vstd::prelude::*;

verus! {

/// Whether a cluster is fast enough to tell of a chart; one without a tempo is.
pub open spec fn fast_enough(c: ClusterView) -> bool {
    c.bpm == 0 || c.bpm >= 26
}

/// Whether another cluster of the pattern is faster and more than twice as
/// large.
pub open spec fn surpassed(cs: Seq<ClusterView>, c: ClusterView) -> bool {
    exists|k: int|
        0 <= k < cs.len() && fast_enough(#[trigger] cs[k]) && cs[k].pattern == c.pattern && cs[k].bpm
            > c.bpm && cs[k].amount > 2 * c.amount
}

proof fn lemma_brisk(cs: Seq<ClusterView>, n: nat, c: ClusterView)
    requires
        n <= cs.len(),
    ensures
        brisk(cs, n).contains(c) <==> exists|k: int|
            0 <= k < n && #[trigger] cs[k] == c && fast_enough(c),
    decreases n,
{
    if n > 0 {
        let m = (n - 1) as nat;
        lemma_brisk(cs, m, c);
        let before = brisk(cs, m);
        let all = brisk(cs, n);
        if before.contains(c) {
            let k = choose|k: int| 0 <= k < before.len() && before[k] == c;
            assert(all[k] == c);
        }
        if all.contains(c) {
            let k = choose|k: int| 0 <= k < all.len() && all[k] == c;
            if k < before.len() {
                assert(before[k] == c);
            } else {
                assert(cs[m as int] == c);
            }
        }
        if cs[m as int] == c && is_brisk(c) {
            assert(all[before.len() as int] == c);
        }
    }
}

proof fn lemma_arranged(cs: Seq<ClusterView>, keys: Seq<i128>, c: ClusterView)
    requires
        keys.len() == cs.len(),
    ensures
        arranged(cs, keys).contains(c) <==> cs.contains(c),
        forall|i: int, j: int|
            0 <= i < j < cs.len() ==> keys[#[trigger] sorted_order(keys)[i]]
                <= keys[#[trigger] sorted_order(keys)[j]],
        forall|i: int| 0 <= i < cs.len() ==> 0 <= #[trigger] sorted_order(keys)[i] < cs.len(),
{
    law_sorting_is_stable(keys, keys.len());
    let order = sorted_order(keys);
    assert(is_stable_order(keys, order, keys.len()));
    lemma_onto(order, keys.len());
    let all = arranged(cs, keys);
    if all.contains(c) {
        let i = choose|i: int| 0 <= i < all.len() && all[i] == c;
        assert(cs[order[i]] == c);
    }
    if cs.contains(c) {
        let x = choose|x: int| 0 <= x < cs.len() && cs[x] == c;
        assert(order.contains(x));
        let i = choose|i: int| 0 <= i < order.len() && order[i] == x;
        assert(all[i] == c);
    }
}

/// Whether a cluster is one of the first `n`, of a pattern, and nothing outdoes
/// it.
spec fn holds_out(cs: Seq<ClusterView>, pattern: ManiaPattern, n: nat, c: ClusterView) -> bool {
    exists|i: int|
        0 <= i < n && #[trigger] cs[i] == c && cs[i].pattern == pattern && !outdone(cs, i)
}

proof fn lemma_foremost(cs: Seq<ClusterView>, pattern: ManiaPattern, n: nat)
    requires
        n <= cs.len(),
    ensures
        foremost(cs, pattern, n).len() <= 3,
        forall|a: int|
            0 <= a < foremost(cs, pattern, n).len() ==> holds_out(
                cs,
                pattern,
                n,
                #[trigger] foremost(cs, pattern, n)[a],
            ),
    decreases n,
{
    if n > 0 {
        let m = (n - 1) as nat;
        lemma_foremost(cs, pattern, m);
        let before = foremost(cs, pattern, m);
        let all = foremost(cs, pattern, n);
        assert forall|a: int| 0 <= a < all.len() implies holds_out(
            cs,
            pattern,
            n,
            #[trigger] all[a],
        ) by {
            if a < before.len() {
                assert(all[a] == before[a]);
                assert(holds_out(cs, pattern, m, before[a]));
                let i = choose|i: int|
                    0 <= i < m && #[trigger] cs[i] == before[a] && cs[i].pattern == pattern
                        && !outdone(cs, i);
                assert(cs[i] == all[a]);
            } else {
                assert(cs[m as int] == all[a]);
            }
        }
    }
}

/// A cluster that nothing outdoes is among the foremost, or three before it are.
proof fn lemma_foremost_or_full(cs: Seq<ClusterView>, n: nat, i: int)
    requires
        0 <= i < n <= cs.len(),
        !outdone(cs, i),
    ensures
        foremost(cs, cs[i].pattern, n).contains(cs[i]) || (foremost(cs, cs[i].pattern, n)
            == foremost(cs, cs[i].pattern, i as nat) && foremost(cs, cs[i].pattern, n).len() == 3),
    decreases n,
{
    let p = cs[i].pattern;
    let m = (n - 1) as nat;
    let before = foremost(cs, p, m);
    let all = foremost(cs, p, n);
    lemma_foremost(cs, p, m);
    if i < m {
        lemma_foremost_or_full(cs, m, i);
        if before.contains(cs[i]) {
            let k = choose|k: int| 0 <= k < before.len() && before[k] == cs[i];
            assert(all[k] == cs[i]);
        }
    } else if before.len() < 3 {
        assert(all[before.len() as int] == cs[i]);
    }
}

proof fn lemma_pruned(cs: Seq<ClusterView>, k: nat, c: ClusterView)
    requires
        k <= 6,
    ensures
        pruned(cs, k).contains(c) <==> c.pattern.rank() < k && foremost(
            cs,
            c.pattern,
            cs.len(),
        ).contains(c),
        pattern_count(pruned(cs, k), c.pattern) == (if c.pattern.rank() < k {
            foremost(cs, c.pattern, cs.len()).len()
        } else {
            0
        }),
    decreases k,
{
    if k > 0 {
        lemma_pruned(cs, (k - 1) as nat, c);
        let p = ManiaPattern::at(k - 1);
        let before = pruned(cs, (k - 1) as nat);
        let own = foremost(cs, p, cs.len());
        let all = pruned(cs, k);
        lemma_foremost(cs, p, cs.len());
        lemma_count_foremost(cs, p, cs.len(), c.pattern);
        lemma_count_joined(before, own, c.pattern);
        if before.contains(c) {
            let i = choose|i: int| 0 <= i < before.len() && before[i] == c;
            assert(all[i] == c);
        }
        if own.contains(c) {
            let i = choose|i: int| 0 <= i < own.len() && own[i] == c;
            assert(all[before.len() + i] == c);
            assert(own[i].pattern == p);
        }
        if all.contains(c) {
            let i = choose|i: int| 0 <= i < all.len() && all[i] == c;
            if i < before.len() {
                assert(before[i] == c);
            } else {
                assert(own[i - before.len()] == c);
            }
        }
    }
}

proof fn lemma_outdone(cs: Seq<ClusterView>, large: Seq<ClusterView>, i: int)
    requires
        0 <= i < large.len(),
        forall|c: ClusterView| #[trigger] large.contains(c) <==> cs.contains(c) && fast_enough(c),
    ensures
        outdone(large, i) <==> surpassed(cs, large[i]),
{
    if outdone(large, i) {
        let j = choose|j: int|
            0 <= j < large.len() && j != i && (#[trigger] large[j]).pattern == large[i].pattern
                && large[j].amount > 2 * large[i].amount && large[j].bpm > large[i].bpm;
        assert(large.contains(large[j]));
        let k = choose|k: int| 0 <= k < cs.len() && cs[k] == large[j];
        assert(fast_enough(cs[k]));
    }
    if surpassed(cs, large[i]) {
        let k = choose|k: int|
            0 <= k < cs.len() && fast_enough(#[trigger] cs[k]) && cs[k].pattern == large[i].pattern
                && cs[k].bpm > large[i].bpm && cs[k].amount > 2 * large[i].amount;
        assert(cs.contains(cs[k]));
        assert(large.contains(cs[k]));
        let j = choose|j: int| 0 <= j < large.len() && large[j] == cs[k];
        assert(j != i);
    }
}

spec fn larger_first(cs: Seq<ClusterView>) -> Seq<ClusterView> {
    by_amount(brisk(cs, cs.len()))
}

proof fn lemma_larger_first(cs: Seq<ClusterView>)
    requires
        forall|k: int| 0 <= k < cs.len() ==> 0 <= (#[trigger] cs[k]).amount <= i128::MAX,
    ensures
        forall|c: ClusterView| #[trigger]
            larger_first(cs).contains(c) <==> cs.contains(c) && fast_enough(c),
        forall|i: int, j: int|
            0 <= i < j < larger_first(cs).len() ==> (#[trigger] larger_first(cs)[i]).amount >= (
            #[trigger] larger_first(cs)[j]).amount,
{
    let kept = brisk(cs, cs.len());
    let keys = kept.map_values(|c: ClusterView| amount_key(c));
    let large = larger_first(cs);
    assert forall|c: ClusterView| #[trigger] large.contains(c) <==> cs.contains(c) && fast_enough(
        c,
    ) by {
        lemma_arranged(kept, keys, c);
        lemma_brisk(cs, cs.len(), c);
        if cs.contains(c) {
            let k = choose|k: int| 0 <= k < cs.len() && cs[k] == c;
            assert(cs[k] == c);
        }
    }
    assert forall|i: int, j: int| 0 <= i < j < large.len() implies (#[trigger] large[i]).amount >= (
    #[trigger] large[j]).amount by {
        lemma_arranged(kept, keys, large[i]);
        let order = sorted_order(keys);
        let (x, y) = (order[i], order[j]);
        assert(large[i] == kept[x] && large[j] == kept[y]);
        assert(large.contains(large[i]) && large.contains(large[j]));
        let a = choose|a: int| 0 <= a < cs.len() && cs[a] == large[i];
        let b = choose|b: int| 0 <= b < cs.len() && cs[b] == large[j];
        assert(0 <= cs[a].amount <= i128::MAX && 0 <= cs[b].amount <= i128::MAX);
        assert(keys[x] <= keys[y]);
    }
}

proof fn lemma_main(ps: Seq<FoundPattern>, mode: ManiaModeFamily, c: ClusterView)
    ensures
        ({
            let large = larger_first(clusters_of(ps, mode));
            &&& main_clusters(ps, mode).contains(c) <==> foremost(
                large,
                c.pattern,
                large.len(),
            ).contains(c)
            &&& pattern_count(main_clusters(ps, mode), c.pattern) == foremost(
                large,
                c.pattern,
                large.len(),
            ).len()
        }),
{
    let large = larger_first(clusters_of(ps, mode));
    let front = pruned(large, 6);
    let keys = importance_keys(front);
    lemma_pruned(large, 6, c);
    lemma_arranged(front, keys, c);
    lemma_count_arranged(front, keys, front.len(), c.pattern);
    assert(front.take(front.len() as int) =~= front);
    assert(by_importance(front) =~= Seq::new(
        front.len(),
        |i: int| front[order_of(keys, front.len())[i]],
    ));
}

/// A chart is told by clusters of its own that are fast enough and that no
/// faster one of their pattern is more than twice as large as.
pub proof fn law_main_clusters_stand_out(ps: Seq<FoundPattern>, mode: ManiaModeFamily, k: int)
    requires
        forall|i: int|
            0 <= i < clusters_of(ps, mode).len() ==> 0 <= (#[trigger] clusters_of(
                ps,
                mode,
            )[i]).amount <= i128::MAX,
        0 <= k < main_clusters(ps, mode).len(),
    ensures
        ({
            let c = main_clusters(ps, mode)[k];
            &&& clusters_of(ps, mode).contains(c)
            &&& fast_enough(c)
            &&& !surpassed(clusters_of(ps, mode), c)
        }),
{
    let cs = clusters_of(ps, mode);
    let c = main_clusters(ps, mode)[k];
    let large = larger_first(cs);
    assert(main_clusters(ps, mode).contains(c));
    lemma_main(ps, mode, c);
    lemma_larger_first(cs);
    lemma_foremost(large, c.pattern, large.len());
    let all = foremost(large, c.pattern, large.len());
    let a = choose|a: int| 0 <= a < all.len() && all[a] == c;
    assert(holds_out(large, c.pattern, large.len(), all[a]));
    let i = choose|i: int|
        0 <= i < large.len() && #[trigger] large[i] == all[a] && large[i].pattern == c.pattern
            && !outdone(large, i);
    assert(large.contains(large[i]));
    lemma_outdone(cs, large, i);
}

/// A cluster that is fast enough and not surpassed is told, unless three others
/// of its pattern are that are no smaller.
pub proof fn law_left_out_clusters_are_smaller(
    ps: Seq<FoundPattern>,
    mode: ManiaModeFamily,
    c: ClusterView,
)
    requires
        forall|i: int|
            0 <= i < clusters_of(ps, mode).len() ==> 0 <= (#[trigger] clusters_of(
                ps,
                mode,
            )[i]).amount <= i128::MAX,
        clusters_of(ps, mode).contains(c),
        fast_enough(c),
        !surpassed(clusters_of(ps, mode), c),
        !main_clusters(ps, mode).contains(c),
    ensures
        pattern_count(main_clusters(ps, mode), c.pattern) == 3,
        forall|k: int|
            0 <= k < main_clusters(ps, mode).len() && (#[trigger] main_clusters(ps, mode)[k]).pattern
                == c.pattern ==> main_clusters(ps, mode)[k].amount >= c.amount,
{
    let cs = clusters_of(ps, mode);
    let all = main_clusters(ps, mode);
    let large = larger_first(cs);
    lemma_main(ps, mode, c);
    lemma_larger_first(cs);
    assert(large.contains(c));
    let i = choose|i: int| 0 <= i < large.len() && large[i] == c;
    lemma_outdone(cs, large, i);
    lemma_foremost_or_full(large, large.len(), i);
    let first = foremost(large, c.pattern, i as nat);
    assert forall|k: int| 0 <= k < all.len() && (#[trigger] all[k]).pattern
        == c.pattern implies all[k].amount >= c.amount by {
        let d = all[k];
        assert(all.contains(d));
        lemma_main(ps, mode, d);
        let a = choose|a: int| 0 <= a < first.len() && first[a] == d;
        lemma_foremost(large, c.pattern, i as nat);
        assert(holds_out(large, c.pattern, i as nat, first[a]));
        let j = choose|j: int|
            0 <= j < i && #[trigger] large[j] == first[a] && large[j].pattern == c.pattern
                && !outdone(large, j);
        assert(large[j].amount >= large[i].amount);
    }
}

/// A chart is called after the first of its clusters: by its most frequent kind
/// if that makes up more than a twentieth of its stretches, by its pattern if it
/// has no kinds, and with a mark where its stretches are mixed. A chart without
/// clusters has no category; one whose first cluster has no importance gives no
/// report.
pub proof fn law_first_cluster_names_the_chart(c: ChartView)
    ensures
        match report_of(c) {
            Ok(r) => if r.clusters.len() == 0 {
                r.category == "Uncategorised"@
            } else {
                let first = r.clusters[0];
                let kinds = first.specific_types;
                let mark = if first.mixed {
                    " Tech"@
                } else {
                    Seq::<char>::empty()
                };
                &&& first.importance > 0
                &&& kinds.len() == 0 ==> r.category == first.pattern.name() + mark
                &&& kinds.len() > 0 && 20 * kinds[0].1.num > kinds[0].1.den ==> r.category
                    == kinds[0].0.name() + mark
            },
            Err(x) => {
                let cs = main_clusters(
                    crate::summary::stretches_of(c),
                    crate::summary::mode_of(c),
                );
                x == ReportError::Unimportant && cs.len() > 0 && cs[0].importance <= 0
            },
        },
{
    if let Ok(r) = report_of(c) {
        if r.clusters.len() > 0 {
            let name = crate::summary::cluster_name(r.clusters[0]);
            assert(name + Seq::<char>::empty() =~= name);
        }
    }
}

/// The important clusters are the first ones up to the first that is no more
/// than half as important as the first of all.
pub proof fn law_important_clusters_come_first(cs: Seq<ClusterView>, n: nat)
    requires
        n <= cs.len(),
    ensures
        ({
            let m = important_count(cs, n);
            &&& n <= m <= cs.len()
            &&& forall|i: int|
                n <= i < m ==> 2 * (#[trigger] cs[i]).importance > cs[0].importance > 0
            &&& m < cs.len() ==> 2 * cs[m as int].importance <= cs[0].importance
                || cs[0].importance <= 0
        }),
    decreases cs.len() - n,
{
    if n < cs.len() && crate::summary::matters(cs[0], cs[n as int]) {
        law_important_clusters_come_first(cs, n + 1);
    }
}

} // verus!
