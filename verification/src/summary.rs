//! What a chart shows on the whole.

use crate::big::Big;
use crate::chart::{Chart, ChartView, NoteType, RowView};
use crate::clustering::{
    cluster_valid, cluster_views, clusters_of, shares_valid, specific_clusters, ClusterView,
    PatternCluster,
};
use crate::config::is_hold_core;
use crate::finder::{all_valid, find, found_in, stretch_valid, FoundPattern, Subtype};
use crate::order::{
    law_sorting_is_stable, lemma_slot, order_of, positions, slot, sort_order, sorted_order,
};
use crate::primitives::{hold_share, ln_percent};
use crate::types::{fraction_below, ManiaModeFamily, ManiaPattern, Ratio};
use crate::velocity::{sv_amount, sv_time};
use crate::wide::Wide;
use vstd::prelude::*;

verus! {

/// Whether a row starts holds and taps at once.
pub open spec fn mixes(row: RowView) -> bool {
    row.data.contains(NoteType::HoldHead) && row.data.contains(NoteType::Normal)
}

/// How many of the first `n` rows start holds and taps at once.
pub open spec fn mixed_rows(rows: Seq<RowView>, n: nat) -> nat
    decreases n,
{
    if n == 0 {
        0
    } else {
        mixed_rows(rows, (n - 1) as nat) + (if mixes(rows[n - 1]) {
            1nat
        } else {
            0
        })
    }
}

/// The share of rows that start holds and taps at once.
pub open spec fn mixed_share(c: ChartView) -> Ratio {
    Ratio::spec_or_zero(mixed_rows(c.notes, c.notes.len()) as int, c.notes.len() as int)
}

/// The family of a chart: few holds, nearly all holds, or in between with or
/// without rows that mix them with taps.
pub open spec fn mode_of(c: ChartView) -> ManiaModeFamily {
    let holds = hold_share(c);
    let mixed = mixed_share(c);
    if 20 * holds.num <= 3 * holds.den {
        ManiaModeFamily::Rc
    } else if 10 * holds.num >= 9 * holds.den {
        ManiaModeFamily::Ln
    } else if 10 * mixed.num >= mixed.den {
        ManiaModeFamily::Hb
    } else {
        ManiaModeFamily::Mix
    }
}

fn holds_kind(data: &[NoteType], kind: NoteType) -> (r: bool)
    ensures
        r == data@.contains(kind),
{
    let mut n: usize = 0;
    while n < data.len()
        invariant
            n <= data@.len(),
            forall|i: int| 0 <= i < n ==> data@[i] != kind,
        decreases data@.len() - n,
    {
        if data[n] == kind {
            assert(data@[n as int] == kind);
            return true;
        }
        n = n + 1;
    }
    false
}

/// The share of rows that start holds and taps at once.
pub fn hb_row_ratio(chart: &Chart) -> (r: Ratio)
    ensures
        r == mixed_share(chart@),
        0 <= r.num <= r.den,
        0 < r.den <= 0xffff_ffff_ffff_ffff,
{
    let mut sum: i128 = 0;
    let mut n: usize = 0;
    while n < chart.notes.len()
        invariant
            n <= chart.notes@.len(),
            0 <= sum <= n,
            sum == mixed_rows(chart@.notes, n as nat),
        decreases chart.notes@.len() - n,
    {
        assert(chart@.notes[n as int] == chart.notes@[n as int]@);
        let data = chart.notes[n].data.as_slice();
        if holds_kind(data, NoteType::HoldHead) && holds_kind(data, NoteType::Normal) {
            sum = sum + 1;
        }
        n = n + 1;
    }
    Ratio::or_zero(sum, chart.notes.len() as i128)
}

/// The family of a chart with such shares of holds and of rows that mix them.
pub fn resolve_mode(holds: Ratio, mixed: Ratio) -> (r: ManiaModeFamily)
    requires
        0 <= holds.num <= 0x1_0000_0000_0000_0000_0000_0000_0000,
        0 <= holds.den <= 0x1_0000_0000_0000_0000_0000_0000_0000,
        0 <= mixed.num <= 0x1_0000_0000_0000_0000_0000_0000_0000,
    ensures
        r == (if 20 * holds.num <= 3 * holds.den {
            ManiaModeFamily::Rc
        } else if 10 * holds.num >= 9 * holds.den {
            ManiaModeFamily::Ln
        } else if 10 * mixed.num >= mixed.den {
            ManiaModeFamily::Hb
        } else {
            ManiaModeFamily::Mix
        }),
{
    if 20 * holds.num <= 3 * holds.den {
        ManiaModeFamily::Rc
    } else if 10 * holds.num >= 9 * holds.den {
        ManiaModeFamily::Ln
    } else if 10 * mixed.num >= mixed.den {
        ManiaModeFamily::Hb
    } else {
        ManiaModeFamily::Mix
    }
}

/// Whether a pattern counts in a family: patterns of holds do not among taps.
pub open spec fn counts_in(mode: ManiaModeFamily, pattern: ManiaPattern) -> bool {
    mode != ManiaModeFamily::Rc || !is_hold_core(pattern)
}

/// Those of the first `n` stretches that count in a family.
pub open spec fn counted(ps: Seq<FoundPattern>, mode: ManiaModeFamily, n: nat) -> Seq<FoundPattern>
    decreases n,
{
    if n == 0 {
        Seq::empty()
    } else if counts_in(mode, ps[n - 1].pattern) {
        counted(ps, mode, (n - 1) as nat).push(ps[n - 1])
    } else {
        counted(ps, mode, (n - 1) as nat)
    }
}

/// The stretches of a chart that count in its family.
pub open spec fn stretches_of(c: ChartView) -> Seq<FoundPattern> {
    let all = found_in(c);
    counted(all, mode_of(c), all.len())
}

proof fn lemma_counted(ps: Seq<FoundPattern>, mode: ManiaModeFamily, n: nat)
    ensures
        forall|i: int|
            0 <= i < counted(ps, mode, n).len() ==> counts_in(
                mode,
                (#[trigger] counted(ps, mode, n)[i]).pattern,
            ),
    decreases n,
{
    if n > 0 {
        lemma_counted(ps, mode, (n - 1) as nat);
        let before = counted(ps, mode, (n - 1) as nat);
        let all = counted(ps, mode, n);
        assert forall|i: int| 0 <= i < all.len() implies counts_in(
            mode,
            (#[trigger] all[i]).pattern,
        ) by {
            if i < before.len() {
                assert(all[i] == before[i]);
            }
        }
    }
}

/// A chart of taps shows no patterns of holds.
pub proof fn law_tap_charts_show_no_holds(c: ChartView)
    requires
        mode_of(c) == ManiaModeFamily::Rc,
    ensures
        forall|i: int|
            0 <= i < stretches_of(c).len() ==> !is_hold_core(
                (#[trigger] stretches_of(c)[i]).pattern,
            ),
{
    let all = found_in(c);
    lemma_counted(all, mode_of(c), all.len());
}

fn keep_counted(ps: &[FoundPattern], mode: ManiaModeFamily) -> (r: Vec<FoundPattern>)
    requires
        all_valid(ps@),
    ensures
        r@ == counted(ps@, mode, ps@.len()),
        all_valid(r@),
        r@.len() <= ps@.len(),
{
    let mut out: Vec<FoundPattern> = Vec::new();
    let mut n: usize = 0;
    while n < ps.len()
        invariant
            n <= ps@.len(),
            all_valid(ps@),
            out@ == counted(ps@, mode, n as nat),
            all_valid(out@),
            out@.len() <= n,
        decreases ps@.len() - n,
    {
        let p = ps[n].pattern;
        let of_holds = p == ManiaPattern::Coordination || p == ManiaPattern::Density || p
            == ManiaPattern::Wildcard;
        if mode != ManiaModeFamily::Rc || !of_holds {
            let ghost before = out@;
            assert(stretch_valid(ps@[n as int]));
            out.push(ps[n]);
            assert forall|i: int| 0 <= i < out@.len() implies stretch_valid(#[trigger] out@[i]) by {
                if i < before.len() {
                    assert(out@[i] == before[i]);
                }
            }
        }
        n = n + 1;
    }
    out
}

/// Clusters with too slow a tempo are left out; those without one stay.
pub open spec fn is_brisk(c: ClusterView) -> bool {
    c.bpm > 25 || c.bpm == 0
}

/// Those of the first `n` clusters that are brisk.
pub open spec fn brisk(cs: Seq<ClusterView>, n: nat) -> Seq<ClusterView>
    decreases n,
{
    if n == 0 {
        Seq::empty()
    } else if is_brisk(cs[n - 1]) {
        brisk(cs, (n - 1) as nat).push(cs[n - 1])
    } else {
        brisk(cs, (n - 1) as nat)
    }
}

/// Clusters in the order of keys; equal ones stay in order.
pub open spec fn arranged(cs: Seq<ClusterView>, keys: Seq<i128>) -> Seq<ClusterView> {
    Seq::new(cs.len(), |i: int| cs[sorted_order(keys)[i]])
}

/// The key that puts larger amounts first.
pub open spec fn amount_key(c: ClusterView) -> i128 {
    (-c.amount) as i128
}

/// How many of the first `n` clusters are more important than cluster `i`.
pub open spec fn more_important(cs: Seq<ClusterView>, i: int, n: nat) -> nat
    decreases n,
{
    if n == 0 {
        0
    } else {
        more_important(cs, i, (n - 1) as nat) + (if cs[n - 1].importance > cs[i].importance {
            1nat
        } else {
            0
        })
    }
}

/// The keys that put more important clusters first: how many are more
/// important.
pub open spec fn importance_keys(cs: Seq<ClusterView>) -> Seq<i128> {
    Seq::new(cs.len(), |i: int| more_important(cs, i, cs.len()) as i128)
}

/// Clusters, the largest amounts first.
pub open spec fn by_amount(cs: Seq<ClusterView>) -> Seq<ClusterView> {
    arranged(cs, cs.map_values(|c: ClusterView| amount_key(c)))
}

/// Clusters, the most important first.
pub open spec fn by_importance(cs: Seq<ClusterView>) -> Seq<ClusterView> {
    arranged(cs, importance_keys(cs))
}

/// Whether another cluster of the same pattern is more than twice as large and
/// faster.
pub open spec fn outdone(cs: Seq<ClusterView>, i: int) -> bool {
    exists|j: int|
        0 <= j < cs.len() && j != i && (#[trigger] cs[j]).pattern == cs[i].pattern && cs[j].amount
            > 2 * cs[i].amount && cs[j].bpm > cs[i].bpm
}

/// The first three clusters of a pattern, of the first `n`, that are not
/// outdone.
pub open spec fn foremost(cs: Seq<ClusterView>, pattern: ManiaPattern, n: nat) -> Seq<ClusterView>
    decreases n,
{
    if n == 0 {
        Seq::empty()
    } else {
        let before = foremost(cs, pattern, (n - 1) as nat);
        if before.len() < 3 && cs[n - 1].pattern == pattern && !outdone(cs, n - 1) {
            before.push(cs[n - 1])
        } else {
            before
        }
    }
}

/// The foremost clusters of the first `k` patterns.
pub open spec fn pruned(cs: Seq<ClusterView>, k: nat) -> Seq<ClusterView>
    decreases k,
{
    if k == 0 {
        Seq::empty()
    } else {
        pruned(cs, (k - 1) as nat) + foremost(cs, ManiaPattern::at(k - 1), cs.len())
    }
}

/// The clusters that a chart is told by, the most important first.
pub open spec fn main_clusters(ps: Seq<FoundPattern>, mode: ManiaModeFamily) -> Seq<ClusterView> {
    let all = clusters_of(ps, mode);
    by_importance(pruned(by_amount(brisk(all, all.len())), 6))
}

proof fn lemma_more_important(cs: Seq<ClusterView>, i: int, j: int, n: nat)
    requires
        0 <= i < cs.len(),
        0 <= j < cs.len(),
        n <= cs.len(),
        cs[i].importance > cs[j].importance,
    ensures
        more_important(cs, i, n) + (if i < n {
            1int
        } else {
            0
        }) <= more_important(cs, j, n) <= n,
    decreases n,
{
    if n > 0 {
        lemma_more_important(cs, i, j, (n - 1) as nat);
    }
}

proof fn lemma_equally_important(cs: Seq<ClusterView>, i: int, j: int, n: nat)
    requires
        cs[i].importance == cs[j].importance,
    ensures
        more_important(cs, i, n) == more_important(cs, j, n) <= n,
    decreases n,
{
    if n > 0 {
        lemma_equally_important(cs, i, j, (n - 1) as nat);
    }
}

/// The keys of importance order as importance does.
pub proof fn law_importance_keys_order(cs: Seq<ClusterView>, i: int, j: int)
    requires
        0 <= i < cs.len() <= usize::MAX,
        0 <= j < cs.len(),
    ensures
        importance_keys(cs)[i] <= importance_keys(cs)[j] <==> cs[i].importance
            >= cs[j].importance,
{
    lemma_equally_important(cs, i, i, cs.len());
    lemma_equally_important(cs, j, j, cs.len());
    if cs[i].importance > cs[j].importance {
        lemma_more_important(cs, i, j, cs.len());
    } else if cs[i].importance < cs[j].importance {
        lemma_more_important(cs, j, i, cs.len());
    } else {
        lemma_equally_important(cs, i, j, cs.len());
    }
}

/// Whether clusters come in the order of importance, the most important first.
pub open spec fn in_order(cs: Seq<ClusterView>) -> bool {
    forall|i: int, j: int|
        0 <= i < j < cs.len() ==> (#[trigger] cs[i]).importance >= (#[trigger] cs[j]).importance
}

/// How many clusters are of a pattern.
pub open spec fn pattern_count(cs: Seq<ClusterView>, pattern: ManiaPattern) -> nat
    decreases cs.len(),
{
    if cs.len() == 0 {
        0
    } else {
        pattern_count(cs.drop_last(), pattern) + (if cs.last().pattern == pattern {
            1nat
        } else {
            0nat
        })
    }
}

/// Whether no pattern has more than three clusters.
pub open spec fn few_each(cs: Seq<ClusterView>) -> bool {
    forall|pattern: ManiaPattern| #[trigger] pattern_count(cs, pattern) <= 3
}

/// Arranging clusters by importance puts the most important first.
pub proof fn law_arranged_by_importance(cs: Seq<ClusterView>)
    requires
        cs.len() <= usize::MAX,
    ensures
        in_order(by_importance(cs)),
{
    let keys = importance_keys(cs);
    let order = sorted_order(keys);
    law_sorting_is_stable(keys, keys.len());
    let all = by_importance(cs);
    assert forall|i: int, j: int| 0 <= i < j < all.len() implies (#[trigger] all[i]).importance >= (
    #[trigger] all[j]).importance by {
        let (x, y) = (order[i], order[j]);
        assert(keys[x] <= keys[y]);
        law_importance_keys_order(cs, x, y);
    }
}

pub(crate) proof fn lemma_count_joined(a: Seq<ClusterView>, b: Seq<ClusterView>, pattern: ManiaPattern)
    ensures
        pattern_count(a + b, pattern) == pattern_count(a, pattern) + pattern_count(b, pattern),
    decreases b.len(),
{
    if b.len() == 0 {
        assert(a + b =~= a);
    } else {
        assert((a + b).drop_last() =~= a + b.drop_last());
        lemma_count_joined(a, b.drop_last(), pattern);
    }
}

proof fn lemma_count_inserted(
    cs: Seq<ClusterView>,
    k: int,
    c: ClusterView,
    pattern: ManiaPattern,
)
    requires
        0 <= k <= cs.len(),
    ensures
        pattern_count(cs.insert(k, c), pattern) == pattern_count(cs.push(c), pattern),
{
    let (a, b) = (cs.take(k), cs.skip(k));
    assert(cs =~= a + b);
    assert(cs.insert(k, c) =~= a + (seq![c] + b));
    assert(cs.push(c) =~= (a + b) + seq![c]);
    lemma_count_joined(a, seq![c] + b, pattern);
    lemma_count_joined(seq![c], b, pattern);
    lemma_count_joined(a, b, pattern);
    lemma_count_joined(a + b, seq![c], pattern);
}

pub(crate) proof fn lemma_count_arranged(
    cs: Seq<ClusterView>,
    keys: Seq<i128>,
    n: nat,
    pattern: ManiaPattern,
)
    requires
        n <= cs.len(),
        keys.len() == cs.len(),
    ensures
        pattern_count(Seq::new(n, |i: int| cs[order_of(keys, n)[i]]), pattern) == pattern_count(
            cs.take(n as int),
            pattern,
        ),
    decreases n,
{
    let now = Seq::new(n, |i: int| cs[order_of(keys, n)[i]]);
    law_sorting_is_stable(keys, n);
    if n > 0 {
        let m = (n - 1) as nat;
        law_sorting_is_stable(keys, m);
        let before = Seq::new(m, |i: int| cs[order_of(keys, m)[i]]);
        let k = slot(keys, order_of(keys, m), keys[m as int]);
        lemma_slot(keys, order_of(keys, m), keys[m as int]);
        lemma_count_arranged(cs, keys, m, pattern);
        assert(now =~= before.insert(k, cs[m as int]));
        lemma_count_inserted(before, k, cs[m as int], pattern);
        assert(before.push(cs[m as int]).drop_last() =~= before);
        assert(cs.take(n as int).drop_last() =~= cs.take(m as int));
    }
}

pub(crate) proof fn lemma_count_foremost(
    cs: Seq<ClusterView>,
    of: ManiaPattern,
    n: nat,
    pattern: ManiaPattern,
)
    ensures
        foremost(cs, of, n).len() <= 3,
        pattern_count(foremost(cs, of, n), pattern) == if of == pattern {
            foremost(cs, of, n).len()
        } else {
            0
        },
    decreases n,
{
    if n > 0 {
        lemma_count_foremost(cs, of, (n - 1) as nat, pattern);
        let before = foremost(cs, of, (n - 1) as nat);
        assert(before.push(cs[n - 1]).drop_last() =~= before);
    }
}

proof fn lemma_count_pruned(cs: Seq<ClusterView>, k: nat, pattern: ManiaPattern)
    requires
        k <= 6,
    ensures
        pattern_count(pruned(cs, k), pattern) <= 3,
        k <= pattern.rank() ==> pattern_count(pruned(cs, k), pattern) == 0,
    decreases k,
{
    if k > 0 {
        lemma_count_pruned(cs, (k - 1) as nat, pattern);
        let of = ManiaPattern::at(k - 1);
        lemma_count_foremost(cs, of, cs.len(), pattern);
        lemma_count_joined(pruned(cs, (k - 1) as nat), foremost(cs, of, cs.len()), pattern);
    }
}

/// A chart is told by at most three clusters of each pattern.
pub proof fn law_three_clusters_of_each(ps: Seq<FoundPattern>, mode: ManiaModeFamily)
    ensures
        few_each(main_clusters(ps, mode)),
{
    let all = clusters_of(ps, mode);
    let front = pruned(by_amount(brisk(all, all.len())), 6);
    let keys = importance_keys(front);
    assert forall|pattern: ManiaPattern| #[trigger]
        pattern_count(main_clusters(ps, mode), pattern) <= 3 by {
        lemma_count_pruned(by_amount(brisk(all, all.len())), 6, pattern);
        lemma_count_arranged(front, keys, front.len(), pattern);
        assert(front.take(front.len() as int) =~= front);
        assert(by_importance(front) =~= Seq::new(
            front.len(),
            |i: int| front[order_of(keys, front.len())[i]],
        ));
    }
}

fn copy_cluster(c: &PatternCluster) -> (r: PatternCluster)
    ensures
        r@ == c@,
{
    let mut shares: Vec<(Subtype, Ratio)> = Vec::new();
    let mut n: usize = 0;
    while n < c.specific_types.len()
        invariant
            n <= c.specific_types@.len(),
            shares@ == c.specific_types@.take(n as int),
        decreases c.specific_types@.len() - n,
    {
        shares.push(c.specific_types[n]);
        n = n + 1;
        assert(shares@ =~= c.specific_types@.take(n as int));
    }
    assert(shares@ =~= c.specific_types@);
    PatternCluster {
        pattern: c.pattern,
        specific_types: shares,
        rating_multiplier: c.rating_multiplier,
        bpm: c.bpm,
        mixed: c.mixed,
        amount: c.amount,
        importance: c.importance.copy(),
    }
}

/// Whether all clusters are as gathered.
pub open spec fn clusters_valid(cs: Seq<ClusterView>) -> bool {
    forall|i: int| 0 <= i < cs.len() ==> cluster_valid(#[trigger] cs[i])
}

fn arrange(cs: &[PatternCluster], keys: &[i128]) -> (r: Vec<PatternCluster>)
    requires
        keys@.len() == cs@.len(),
        clusters_valid(cluster_views(cs@)),
    ensures
        cluster_views(r@) == arranged(cluster_views(cs@), keys@),
        clusters_valid(cluster_views(r@)),
        r@.len() == cs@.len(),
{
    let order = sort_order(keys);
    let ghost views = cluster_views(cs@);
    let mut out: Vec<PatternCluster> = Vec::new();
    let mut n: usize = 0;
    while n < order.len()
        invariant
            n <= order@.len(),
            order@.len() == cs@.len(),
            views == cluster_views(cs@),
            forall|k: int| 0 <= k < order@.len() ==> #[trigger] order@[k] < cs@.len(),
            out@.len() == n,
            forall|k: int| 0 <= k < n ==> (#[trigger] out@[k])@ == views[order@[k] as int],
        decreases order@.len() - n,
    {
        let k: usize = order[n];
        assert(views[k as int] == cs@[k as int]@);
        out.push(copy_cluster(&cs[k]));
        n = n + 1;
    }
    proof {
        let all = cluster_views(out@);
        assert forall|k: int| 0 <= k < all.len() implies #[trigger] all[k] == arranged(
            views,
            keys@,
        )[k] && cluster_valid(all[k]) by {
            assert(positions(order@)[k] == order@[k]);
            assert(cluster_valid(views[order@[k] as int]));
        }
        assert(all =~= arranged(views, keys@));
    }
    out
}

fn keep_brisk(cs: &[PatternCluster]) -> (r: Vec<PatternCluster>)
    requires
        clusters_valid(cluster_views(cs@)),
    ensures
        cluster_views(r@) == brisk(cluster_views(cs@), cs@.len()),
        clusters_valid(cluster_views(r@)),
{
    let ghost views = cluster_views(cs@);
    let mut out: Vec<PatternCluster> = Vec::new();
    let mut n: usize = 0;
    assert(cluster_views(out@) =~= brisk(views, 0));
    while n < cs.len()
        invariant
            n <= cs@.len(),
            views == cluster_views(cs@),
            clusters_valid(views),
            cluster_views(out@) == brisk(views, n as nat),
            clusters_valid(cluster_views(out@)),
        decreases cs@.len() - n,
    {
        assert(views[n as int] == cs@[n as int]@);
        if cs[n].bpm > 25 || cs[n].bpm == 0 {
            let ghost before = cluster_views(out@);
            out.push(copy_cluster(&cs[n]));
            assert(cluster_views(out@) =~= before.push(views[n as int]));
        }
        n = n + 1;
    }
    out
}

fn sort_by_amount(cs: &[PatternCluster]) -> (r: Vec<PatternCluster>)
    requires
        clusters_valid(cluster_views(cs@)),
    ensures
        cluster_views(r@) == by_amount(cluster_views(cs@)),
        clusters_valid(cluster_views(r@)),
{
    let ghost views = cluster_views(cs@);
    let ghost wanted = views.map_values(|c: ClusterView| amount_key(c));
    let mut keys: Vec<i128> = Vec::new();
    let mut n: usize = 0;
    while n < cs.len()
        invariant
            n <= cs@.len(),
            views == cluster_views(cs@),
            clusters_valid(views),
            wanted == views.map_values(|c: ClusterView| amount_key(c)),
            keys@.len() == n,
            forall|k: int| 0 <= k < n ==> #[trigger] keys@[k] == wanted[k],
        decreases cs@.len() - n,
    {
        assert(views[n as int] == cs@[n as int]@);
        assert(cluster_valid(views[n as int]));
        keys.push(-(cs[n].amount as i128));
        n = n + 1;
    }
    assert(keys@ =~= wanted);
    arrange(cs, keys.as_slice())
}

fn count_more_important(cs: &[PatternCluster], i: usize) -> (r: usize)
    requires
        i < cs@.len(),
    ensures
        r == more_important(cluster_views(cs@), i as int, cs@.len()),
{
    let ghost views = cluster_views(cs@);
    assert(views[i as int] == cs@[i as int]@);
    let mut r: usize = 0;
    let mut n: usize = 0;
    while n < cs.len()
        invariant
            n <= cs@.len(),
            i < cs@.len(),
            views == cluster_views(cs@),
            views[i as int] == cs@[i as int]@,
            r == more_important(views, i as int, n as nat),
            r <= n,
        decreases cs@.len() - n,
    {
        assert(views[n as int] == cs@[n as int]@);
        if cs[i].importance.below(&cs[n].importance) {
            r = r + 1;
        }
        n = n + 1;
    }
    r
}

fn sort_by_importance(cs: &[PatternCluster]) -> (r: Vec<PatternCluster>)
    requires
        clusters_valid(cluster_views(cs@)),
    ensures
        cluster_views(r@) == by_importance(cluster_views(cs@)),
        clusters_valid(cluster_views(r@)),
{
    let ghost views = cluster_views(cs@);
    let mut keys: Vec<i128> = Vec::new();
    let mut n: usize = 0;
    while n < cs.len()
        invariant
            n <= cs@.len(),
            views == cluster_views(cs@),
            keys@.len() == n,
            forall|k: int| 0 <= k < n ==> #[trigger] keys@[k] == importance_keys(views)[k],
        decreases cs@.len() - n,
    {
        keys.push(count_more_important(cs, n) as i128);
        n = n + 1;
    }
    assert(keys@ =~= importance_keys(views));
    arrange(cs, keys.as_slice())
}

fn is_outdone(cs: &[PatternCluster], i: usize) -> (r: bool)
    requires
        i < cs@.len(),
        clusters_valid(cluster_views(cs@)),
    ensures
        r == outdone(cluster_views(cs@), i as int),
{
    let ghost views = cluster_views(cs@);
    let mut j: usize = 0;
    assert(views[i as int] == cs@[i as int]@);
    assert(cluster_valid(views[i as int]));
    while j < cs.len()
        invariant
            j <= cs@.len(),
            i < cs@.len(),
            views == cluster_views(cs@),
            views[i as int] == cs@[i as int]@,
            cluster_valid(views[i as int]),
            forall|k: int|
                0 <= k < j && k != i ==> !((#[trigger] views[k]).pattern == views[i as int].pattern
                    && views[k].amount > 2 * views[i as int].amount && views[k].bpm
                    > views[i as int].bpm),
        decreases cs@.len() - j,
    {
        assert(views[j as int] == cs@[j as int]@);
        if j != i && cs[j].pattern == cs[i].pattern && cs[j].amount > 2 * cs[i].amount && cs[j].bpm
            > cs[i].bpm {
            assert(views[j as int].pattern == views[i as int].pattern);
            return true;
        }
        j = j + 1;
    }
    false
}

fn prune(cs: &[PatternCluster]) -> (r: Vec<PatternCluster>)
    requires
        clusters_valid(cluster_views(cs@)),
    ensures
        cluster_views(r@) == pruned(cluster_views(cs@), 6),
        clusters_valid(cluster_views(r@)),
        r@.len() <= 18,
{
    let ghost views = cluster_views(cs@);
    let mut out: Vec<PatternCluster> = Vec::new();
    let mut k: usize = 0;
    assert(cluster_views(out@) =~= pruned(views, 0));
    while k < 6
        invariant
            k <= 6,
            views == cluster_views(cs@),
            clusters_valid(views),
            cluster_views(out@) == pruned(views, k as nat),
            clusters_valid(cluster_views(out@)),
            out@.len() <= 3 * k,
        decreases 6 - k,
    {
        let pattern = ManiaPattern::from_index(k);
        let ghost before = cluster_views(out@);
        let mut taken: usize = 0;
        let mut n: usize = 0;
        assert(before + foremost(views, pattern, 0) =~= before);
        while n < cs.len()
            invariant
                n <= cs@.len(),
                views == cluster_views(cs@),
                clusters_valid(views),
                taken == foremost(views, pattern, n as nat).len(),
                taken <= 3,
                cluster_views(out@) == before + foremost(views, pattern, n as nat),
                clusters_valid(cluster_views(out@)),
                out@.len() == before.len() + taken,
            decreases cs@.len() - n,
        {
            assert(views[n as int] == cs@[n as int]@);
            if taken < 3 && cs[n].pattern == pattern && !is_outdone(cs, n) {
                let ghost held = cluster_views(out@);
                out.push(copy_cluster(&cs[n]));
                taken = taken + 1;
                proof {
                    assert(cluster_views(out@) =~= held.push(views[n as int]));
                    assert(cluster_views(out@) =~= before + foremost(
                        views,
                        pattern,
                        (n + 1) as nat,
                    ));
                    assert forall|i: int| 0 <= i < cluster_views(out@).len() implies cluster_valid(
                        #[trigger] cluster_views(out@)[i],
                    ) by {
                        if i < held.len() {
                            assert(cluster_views(out@)[i] == held[i]);
                        } else {
                            assert(cluster_valid(views[n as int]));
                        }
                    }
                }
            }
            n = n + 1;
        }
        k = k + 1;
    }
    out
}

/// Whether a cluster is more than half as important as the first.
pub open spec fn matters(first: ClusterView, c: ClusterView) -> bool {
    2 * c.importance > first.importance && first.importance > 0
}

/// How many clusters from the first on are more than half as important as it.
pub open spec fn important_count(cs: Seq<ClusterView>, n: nat) -> nat
    decreases cs.len() - n,
{
    if n < cs.len() && matters(cs[0], cs[n as int]) {
        important_count(cs, n + 1)
    } else {
        n
    }
}

/// The name of a cluster: its most frequent kind if that is not rare, else
/// its pattern.
pub open spec fn cluster_name(c: ClusterView) -> Seq<char> {
    let kinds = c.specific_types;
    if kinds.len() > 0 && 20 * kinds[0].1.num > kinds[0].1.den {
        kinds[0].0.name()
    } else if kinds.len() >= 2 && kinds[0].0 == Subtype::Jumpstream && kinds[1].0
        == Subtype::Handstream && kinds[0].1.num > 0 && 5 * (kinds[1].1.num * kinds[0].1.den) > 2
        * (kinds[0].1.num * kinds[1].1.den) {
        "Jumpstream/Handstream"@
    } else {
        c.pattern.name()
    }
}

/// The category of a chart with such clusters, the most important first: the
/// name of the first, marked where its rows are uneven. There is none where
/// the first has no importance.
pub open spec fn category_of(cs: Seq<ClusterView>) -> Option<Seq<char>> {
    if cs.len() == 0 {
        Some("Uncategorised"@)
    } else if cs[0].importance <= 0 {
        None
    } else if cs[0].mixed {
        Some(cluster_name(cs[0]) + " Tech"@)
    } else {
        Some(cluster_name(cs[0]))
    }
}

fn name_cluster(c: &PatternCluster) -> (r: &'static str)
    requires
        shares_valid(c@.specific_types),
    ensures
        r@ == cluster_name(c@),
{
    let kinds = &c.specific_types;
    if kinds.len() > 0 {
        assert(0 <= c@.specific_types[0].1.num);
        let (first, share) = kinds[0];
        if 20 * share.num > share.den {
            return first.as_str();
        }
        if kinds.len() >= 2 {
            assert(0 <= c@.specific_types[1].1.num);
            let (second, other) = kinds[1];
            proof {
                let (a, b, c, d) = (
                    share.num as int,
                    share.den as int,
                    other.num as int,
                    other.den as int,
                );
                assert((2 * a) * d == 2 * (a * d)) by (nonlinear_arith);
                assert((5 * c) * b == 5 * (c * b)) by (nonlinear_arith);
            }
            if first == Subtype::Jumpstream && second == Subtype::Handstream && share.num > 0
                && fraction_below(2 * share.num, share.den, 5 * other.num, other.den) {
                return "Jumpstream/Handstream";
            }
        }
    }
    c.pattern.as_str()
}

/// The category of a chart with such clusters, the most important first.
pub fn categorise_chart(ordered_clusters: &[PatternCluster]) -> (r: Option<String>)
    requires
        forall|i: int|
            0 <= i < ordered_clusters@.len() ==> shares_valid(
                (#[trigger] ordered_clusters@[i])@.specific_types,
            ),
    ensures
        match r {
            Some(text) => category_of(cluster_views(ordered_clusters@)) == Some(text@),
            None => category_of(cluster_views(ordered_clusters@)) is None,
        },
{
    if ordered_clusters.len() == 0 {
        return Some("Uncategorised".to_owned());
    }
    let first = &ordered_clusters[0];
    assert(cluster_views(ordered_clusters@)[0] == first@);
    if !Big::from_u128(0).below(&first.importance) {
        return None;
    }
    let mut name = name_cluster(first).to_owned();
    if first.mixed {
        name.append(" Tech");
    }
    Some(name)
}

/// What a chart shows on the whole.
#[derive(Clone, Debug)]
pub struct MmaReport {
    /// The clusters that the chart is told by, the most important first.
    pub clusters: Vec<PatternCluster>,
    /// The stretches that the clusters were gathered from.
    pub patterns: Vec<FoundPattern>,
    pub category: String,
    pub ln_percent: Ratio,
    pub hb_row_ratio: Ratio,
    pub mode: ManiaModeFamily,
    /// How long the notes move at unusual speeds, in ticks, where it can be
    /// told.
    pub sv_amount: Option<Wide>,
    /// From the first row to the last, in milliseconds, where rows have times.
    pub duration: Option<i64>,
}

/// An [`MmaReport`] as a value.
#[verifier::ext_equal]
pub struct ReportView {
    pub clusters: Seq<ClusterView>,
    pub patterns: Seq<FoundPattern>,
    pub category: Seq<char>,
    pub ln_percent: Ratio,
    pub hb_row_ratio: Ratio,
    pub mode: ManiaModeFamily,
    pub sv_amount: Option<int>,
    pub duration: Option<int>,
}

impl View for MmaReport {
    type V = ReportView;

    open spec fn view(&self) -> ReportView {
        ReportView {
            clusters: cluster_views(self.clusters@),
            patterns: self.patterns@,
            category: self.category@,
            ln_percent: self.ln_percent,
            hb_row_ratio: self.hb_row_ratio,
            mode: self.mode,
            sv_amount: match self.sv_amount {
                Some(t) => Some(t@),
                None => None,
            },
            duration: match self.duration {
                Some(t) => Some(t as int),
                None => None,
            },
        }
    }
}

/// Why a chart gives no report.
#[derive(Clone, Copy, Debug, PartialEq, Eq, Structural)]
pub enum ReportError {
    /// The most important cluster has no importance.
    Unimportant,
}

/// The report of a chart.
pub open spec fn report_of(c: ChartView) -> Result<ReportView, ReportError> {
    let patterns = stretches_of(c);
    let clusters = main_clusters(patterns, mode_of(c));
    match category_of(clusters) {
        Some(category) => Ok(
            ReportView {
                clusters,
                patterns,
                category,
                ln_percent: hold_share(c),
                hb_row_ratio: mixed_share(c),
                mode: mode_of(c),
                sv_amount: sv_amount(c),
                duration: if c.timed {
                    Some(c.duration())
                } else {
                    None
                },
            },
        ),
        None => Err(ReportError::Unimportant),
    }
}

impl MmaReport {
    /// The clusters from the first on that are more than half as important as
    /// it.
    pub fn important_clusters(&self) -> (r: &[PatternCluster])
        requires
            clusters_valid(self@.clusters),
        ensures
            r@ == self.clusters@.take(important_count(self@.clusters, 0) as int),
    {
        let ghost views = self@.clusters;
        let mut n: usize = 0;
        while n < self.clusters.len() && matters_beside(&self.clusters[0], &self.clusters[n])
            invariant
                n <= self.clusters@.len(),
                views == self@.clusters,
                clusters_valid(views),
                forall|i: int| 0 <= i < views.len() ==> #[trigger] views[i] == self.clusters@[i]@,
                important_count(views, 0) == important_count(views, n as nat),
            decreases self.clusters@.len() - n,
        {
            n = n + 1;
        }
        let r = vstd::slice::slice_subrange(self.clusters.as_slice(), 0, n);
        assert(r@ =~= self.clusters@.take(n as int));
        r
    }
}

fn matters_beside(first: &PatternCluster, c: &PatternCluster) -> (r: bool)
    requires
        cluster_valid(first@),
        cluster_valid(c@),
    ensures
        r == matters(first@, c@),
{
    first.importance.below(&c.importance.plus(&c.importance)) && Big::from_u128(0).below(
        &first.importance,
    )
}

/// Tells what a chart shows on the whole.
pub fn from_chart(chart: &Chart) -> (r: Result<MmaReport, ReportError>)
    requires
        chart@.valid(),
        chart@.keys <= u32::MAX,
    ensures
        match r {
            Ok(report) => report_of(chart@) == Ok::<ReportView, ReportError>(report@)
                && clusters_valid(report@.clusters) && all_valid(report@.patterns)
                && report@.clusters.len() <= 18
                && in_order(report@.clusters) && few_each(report@.clusters),
            Err(x) => report_of(chart@) == Err::<ReportView, ReportError>(x),
        },
{
    let holds = ln_percent(chart);
    let mixed = hb_row_ratio(chart);
    let mode = resolve_mode(holds, mixed);
    let found = find(chart);
    let patterns = keep_counted(found.as_slice(), mode);
    let all = specific_clusters(patterns.as_slice(), mode);
    assert forall|i: int| 0 <= i < cluster_views(all@).len() implies cluster_valid(
        #[trigger] cluster_views(all@)[i],
    ) by {
        assert(cluster_valid(all@[i]@));
    }
    let swift = keep_brisk(all.as_slice());
    let large = sort_by_amount(swift.as_slice());
    let front = prune(large.as_slice());
    let clusters = sort_by_importance(front.as_slice());
    proof {
        law_arranged_by_importance(cluster_views(front@));
        law_three_clusters_of_each(patterns@, mode);
    }
    assert forall|i: int| 0 <= i < clusters@.len() implies shares_valid(
        (#[trigger] clusters@[i])@.specific_types,
    ) by {
        assert(cluster_valid(cluster_views(clusters@)[i]));
    }
    match categorise_chart(clusters.as_slice()) {
        Some(category) => {
            let report = MmaReport {
                clusters,
                patterns,
                category,
                ln_percent: holds,
                hb_row_ratio: mixed,
                mode,
                sv_amount: sv_time(chart),
                duration: if chart.timed {
                    Some(chart.duration())
                } else {
                    None
                },
            };
            Ok(report)
        },
        None => Err(ReportError::Unimportant),
    }
}

} // verus!
