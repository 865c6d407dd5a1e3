//! How stretches are gathered, which clusters a chart is told by, and how it is
//! called, told by the stretches themselves.

use crate::chart::{ChartView, NoteType, RowView};
use crate::clustering::{
    bpms_of, cluster_of, clusters_of, first_near, group_count, group_of, group_sum, has_release,
    is_dense, is_near, kind_count, kinds_seen, members, openers, opens, same_cluster, spans_of,
    tempos, ClusterView, BPM_LIMIT,
};
use crate::config::full_weight;
use crate::counting::{how_many, lemma_count, sum_of};
use crate::cover::{lasts_over, lemma_kinds_seen, lemma_union};
use crate::finder::{all_valid, stretch_valid, FoundPattern, Subtype};
use crate::intervals::{covered, within_span, BOUND};
use crate::order::{is_stable_order, law_sorting_is_stable, sorted_order};
use crate::outline::is_share;
use crate::primitives::{count_kind, kind_total};
use crate::summary::{mixed_rows, report_of};
use crate::types::{ManiaModeFamily, ManiaPattern};
use vstd::prelude::*;

verus! {

/// Whether a column of a row holds something of a kind.
pub open spec fn is_cell(row: RowView, column: int, kind: NoteType) -> bool {
    row.data[column] == kind
}

/// How many columns of a row hold something of a kind.
pub open spec fn cells(row: RowView, kind: NoteType) -> nat {
    how_many(row.data.len(), |column: int| is_cell(row, column, kind))
}

/// How many notes of a chart are holds.
pub open spec fn all_holds(c: ChartView) -> int {
    sum_of(c.notes.len(), |i: int| cells(c.notes[i], NoteType::HoldHead) as int)
}

/// How many notes of a chart are taps.
pub open spec fn all_taps(c: ChartView) -> int {
    sum_of(c.notes.len(), |i: int| cells(c.notes[i], NoteType::Normal) as int)
}

/// How many rows of a chart start holds and taps at once.
pub open spec fn all_mixed(c: ChartView) -> int {
    how_many(
        c.notes.len(),
        |i: int|
            cells(c.notes[i], NoteType::HoldHead) > 0 && cells(c.notes[i], NoteType::Normal) > 0,
    ) as int
}

proof fn lemma_cells(row: RowView, kind: NoteType, n: nat)
    requires
        n <= row.data.len(),
    ensures
        count_kind(row.data, kind, n) == how_many(n, |column: int| is_cell(row, column, kind)),
        count_kind(row.data, kind, n) <= n,
    decreases n,
{
    if n > 0 {
        lemma_cells(row, kind, (n - 1) as nat);
    }
}

proof fn lemma_kind_total(rows: Seq<RowView>, kind: NoteType, n: nat, keys: nat)
    requires
        n <= rows.len(),
        forall|i: int| 0 <= i < rows.len() ==> (#[trigger] rows[i]).data.len() == keys,
    ensures
        kind_total(rows, kind, n) == sum_of(n, |i: int| cells(rows[i], kind) as int),
        kind_total(rows, kind, n) <= n * keys,
    decreases n,
{
    if n > 0 {
        lemma_kind_total(rows, kind, (n - 1) as nat, keys);
        lemma_cells(rows[n - 1], kind, keys);
        assert((n - 1) * keys + keys == n * keys) by (nonlinear_arith);
        assert(rows[n - 1].data.len() == keys);
    }
}

proof fn lemma_mixed_rows(rows: Seq<RowView>, n: nat)
    requires
        n <= rows.len(),
    ensures
        mixed_rows(rows, n) == how_many(
            n,
            |i: int|
                cells(rows[i], NoteType::HoldHead) > 0 && cells(rows[i], NoteType::Normal) > 0,
        ),
        mixed_rows(rows, n) <= n,
    decreases n,
{
    if n > 0 {
        let row = rows[n - 1];
        lemma_mixed_rows(rows, (n - 1) as nat);
        lemma_holds(row, NoteType::HoldHead);
        lemma_holds(row, NoteType::Normal);
    }
}

proof fn lemma_holds(row: RowView, kind: NoteType)
    ensures
        row.data.contains(kind) <==> cells(row, kind) > 0,
{
    let p = |column: int| is_cell(row, column, kind);
    lemma_count(row.data.len(), p);
    if row.data.contains(kind) {
        let k = choose|k: int| 0 <= k < row.data.len() && row.data[k] == kind;
        assert(p(k));
    }
    if cells(row, kind) > 0 {
        let k = choose|k: int| 0 <= k < row.data.len() && #[trigger] p(k);
        assert(row.data[k] == kind);
    }
}

/// The report of a chart says which share of its notes are holds and which share
/// of its rows start holds and taps at once. At most 15 of 100 notes as holds
/// make the family RC, at least 90 the family LN; in between a tenth of mixed
/// rows or more make the family HB, fewer the family MIX.
pub proof fn law_share_of_holds_decides_mode(c: ChartView)
    requires
        c.valid(),
        c.keys <= u32::MAX,
        c.notes.len() <= u64::MAX,
    ensures
        report_of(c) matches Ok(r) ==> {
            let holds = all_holds(c);
            let notes = all_holds(c) + all_taps(c);
            let rows = c.notes.len() as int;
            &&& is_share(r.ln_percent, holds, notes)
            &&& is_share(r.hb_row_ratio, all_mixed(c), rows)
            &&& r.duration == (if c.timed {
                Some(c.notes.last().time - c.notes[0].time)
            } else {
                None
            })
            &&& notes > 0 ==> {
                &&& r.mode == ManiaModeFamily::Rc <==> 100 * holds <= 15 * notes
                &&& r.mode == ManiaModeFamily::Ln <==> 100 * holds >= 90 * notes
                &&& r.mode == ManiaModeFamily::Hb <==> 15 * notes < 100 * holds < 90 * notes && 10
                    * all_mixed(c) >= rows
                &&& r.mode == ManiaModeFamily::Mix <==> 15 * notes < 100 * holds < 90 * notes && 10
                    * all_mixed(c) < rows
            }
        },
{
    let n = c.notes.len();
    lemma_kind_total(c.notes, NoteType::HoldHead, n, c.keys);
    lemma_kind_total(c.notes, NoteType::Normal, n, c.keys);
    lemma_mixed_rows(c.notes, n);
    let k = c.keys;
    assert(n * k <= 0x1_0000_0000_0000_0000 * 0x1_0000_0000) by (nonlinear_arith)
        requires
            n <= 0xffff_ffff_ffff_ffff,
            k <= 0xffff_ffff,
    ;
}

/// Whether a stretch belongs to a cluster: same pattern, same tempo, mixed or
/// not as the cluster is.
pub open spec fn belongs(ps: Seq<FoundPattern>, i: int, c: ClusterView) -> bool {
    ps[i].pattern == c.pattern && ps[i].mixed == c.mixed && bpms_of(ps)[i] == c.bpm
}

proof fn lemma_openers(ps: Seq<FoundPattern>, bpms: Seq<int>, n: nat)
    requires
        n <= ps.len(),
    ensures
        forall|k: int|
            0 <= k < openers(ps, bpms, n).len() ==> 0 <= #[trigger] openers(ps, bpms, n)[k] < n
                && opens(ps, bpms, openers(ps, bpms, n)[k]),
        forall|k: int, l: int|
            0 <= k < l < openers(ps, bpms, n).len() ==> #[trigger] openers(ps, bpms, n)[k]
                < #[trigger] openers(ps, bpms, n)[l],
    decreases n,
{
    if n > 0 {
        let m = (n - 1) as nat;
        lemma_openers(ps, bpms, m);
        let before = openers(ps, bpms, m);
        let all = openers(ps, bpms, n);
        assert forall|k: int| 0 <= k < all.len() implies 0 <= #[trigger] all[k] < n && opens(
            ps,
            bpms,
            all[k],
        ) by {
            if k < before.len() {
                assert(all[k] == before[k]);
            }
        }
        assert forall|k: int, l: int| 0 <= k < l < all.len() implies #[trigger] all[k]
            < #[trigger] all[l] by {
            assert(all[k] == before[k]);
            if l < before.len() {
                assert(all[l] == before[l]);
            }
        }
    }
}

proof fn lemma_opener_of(ps: Seq<FoundPattern>, bpms: Seq<int>, n: nat, i: int) -> (k: int)
    requires
        0 <= i < n <= ps.len(),
        bpms.len() == ps.len(),
    ensures
        0 <= k < openers(ps, bpms, n).len(),
        same_cluster(ps, bpms, openers(ps, bpms, n)[k], i),
    decreases n, i,
{
    let m = (n - 1) as nat;
    let before = openers(ps, bpms, m);
    let all = openers(ps, bpms, n);
    if i < m {
        let k = lemma_opener_of(ps, bpms, m, i);
        assert(all[k] == before[k]);
        k
    } else if opens(ps, bpms, i) {
        assert(all[before.len() as int] == i);
        before.len() as int
    } else {
        let j = choose|j: int| 0 <= j < i && #[trigger] same_cluster(ps, bpms, j, i);
        let k = lemma_opener_of(ps, bpms, m, j);
        assert(all[k] == before[k]);
        k
    }
}

/// Every stretch belongs to a cluster, and clusters differ in pattern, tempo or
/// in being mixed.
pub proof fn law_every_stretch_has_its_cluster(ps: Seq<FoundPattern>, mode: ManiaModeFamily, i: int)
    requires
        0 <= i < ps.len(),
    ensures
        ({
            let cs = clusters_of(ps, mode);
            &&& exists|k: int| 0 <= k < cs.len() && belongs(ps, i, #[trigger] cs[k])
            &&& forall|k: int, l: int|
                0 <= k < l < cs.len() ==> (#[trigger] cs[k]).pattern != (#[trigger] cs[l]).pattern
                    || cs[k].mixed != cs[l].mixed || cs[k].bpm != cs[l].bpm
        }),
{
    let bpms = bpms_of(ps);
    let hs = openers(ps, bpms, ps.len());
    let cs = clusters_of(ps, mode);
    lemma_openers(ps, bpms, ps.len());
    let k = lemma_opener_of(ps, bpms, ps.len(), i);
    assert(cs[k] == cluster_of(ps, mode, hs[k]));
    assert(belongs(ps, i, cs[k]));
    assert forall|k: int, l: int| 0 <= k < l < cs.len() implies (#[trigger] cs[k]).pattern != (
    #[trigger] cs[l]).pattern || cs[k].mixed != cs[l].mixed || cs[k].bpm != cs[l].bpm by {
        let (a, b) = (hs[k], hs[l]);
        assert(a < b);
        assert(opens(ps, bpms, b));
        assert(!same_cluster(ps, bpms, a, b));
    }
}

proof fn lemma_members(ps: Seq<FoundPattern>, mode: ManiaModeFamily, h: int, n: nat, kind: Subtype)
    requires
        0 <= h < ps.len(),
        n <= ps.len(),
    ensures
        ({
            let c = cluster_of(ps, mode, h);
            let ms = members(ps, bpms_of(ps), h, n);
            &&& ms.len() == how_many(n, |i: int| belongs(ps, i, c))
            &&& kind_count(ms, kind, ms.len()) == how_many(
                n,
                |i: int| belongs(ps, i, c) && ps[i].specific_type == Some(kind),
            )
            &&& forall|t: int| #[trigger]
                covered(spans_of(ms), t) <==> exists|i: int|
                    0 <= i < n && #[trigger] belongs(ps, i, c) && lasts_over(ps[i], t)
        }),
    decreases n,
{
    let bpms = bpms_of(ps);
    let c = cluster_of(ps, mode, h);
    let ms = members(ps, bpms, h, n);
    if n > 0 {
        let m = (n - 1) as nat;
        lemma_members(ps, mode, h, m, kind);
        let before = members(ps, bpms, h, m);
        if belongs(ps, m as int, c) {
            assert(ms =~= before.push(ps[m as int]));
            lemma_kind_front(before, ps[m as int], kind, before.len());
            assert forall|t: int| #[trigger] covered(spans_of(ms), t) <==> exists|i: int|
                0 <= i < n && #[trigger] belongs(ps, i, c) && lasts_over(ps[i], t) by {
                let (a, b) = (spans_of(before), spans_of(ms));
                if covered(a, t) {
                    let k = choose|k: int| 0 <= k < a.len() && within_span(#[trigger] a[k], t);
                    assert(b[k] == a[k]);
                    assert(within_span(b[k], t));
                }
                if covered(b, t) {
                    let k = choose|k: int| 0 <= k < b.len() && within_span(#[trigger] b[k], t);
                    if k < a.len() {
                        assert(b[k] == a[k]);
                        assert(within_span(a[k], t));
                    } else {
                        assert(belongs(ps, m as int, c) && lasts_over(ps[m as int], t));
                    }
                }
                if lasts_over(ps[m as int], t) {
                    assert(within_span(b[a.len() as int], t));
                }
            }
        } else {
            assert(ms == before);
            assert forall|t: int| #[trigger] covered(spans_of(ms), t) <==> exists|i: int|
                0 <= i < n && #[trigger] belongs(ps, i, c) && lasts_over(ps[i], t) by {
                if exists|i: int| 0 <= i < n && #[trigger] belongs(ps, i, c) && lasts_over(ps[i], t) {
                    let i = choose|i: int|
                        0 <= i < n && #[trigger] belongs(ps, i, c) && lasts_over(ps[i], t);
                    assert(i < m);
                }
            }
        }
    }
}

proof fn lemma_kind_front(a: Seq<FoundPattern>, p: FoundPattern, kind: Subtype, n: nat)
    requires
        n <= a.len(),
    ensures
        kind_count(a.push(p), kind, n) == kind_count(a, kind, n),
    decreases n,
{
    if n > 0 {
        lemma_kind_front(a, p, kind, (n - 1) as nat);
    }
}

/// The amount of a cluster is the number of milliseconds over which one of its
/// stretches lasts.
pub proof fn law_clusters_cover_their_stretches(
    ps: Seq<FoundPattern>,
    mode: ManiaModeFamily,
    k: int,
)
    requires
        all_valid(ps),
        0 <= k < clusters_of(ps, mode).len(),
    ensures
        ({
            let c = clusters_of(ps, mode)[k];
            c.amount == how_many(
                100_000_000_000_000_000,
                |t: int|
                    exists|i: int|
                        0 <= i < ps.len() && #[trigger] belongs(ps, i, c) && lasts_over(ps[i], t),
            )
        }),
{
    let bpms = bpms_of(ps);
    lemma_openers(ps, bpms, ps.len());
    let h = openers(ps, bpms, ps.len())[k];
    let c = cluster_of(ps, mode, h);
    lemma_members(ps, mode, h, ps.len(), Subtype::Rolls);
    let spans = spans_of(members(ps, bpms, h, ps.len()));
    let p = |t: int|
        exists|i: int|
            0 <= i < ps.len() && #[trigger] belongs(ps, i, c) && lasts_over(ps[i], t);
    assert forall|t: int| #[trigger] covered(spans, t) implies 0 <= t < BOUND by {
        let i = choose|i: int|
            0 <= i < ps.len() && #[trigger] belongs(ps, i, c) && lasts_over(ps[i], t);
        assert(stretch_valid(ps[i]));
    }
    lemma_union(spans, BOUND as int, p);
}

/// The kinds of a cluster are those of its stretches, each once and the most
/// frequent first, with the share of stretches that are of the kind.
pub proof fn law_clusters_share_their_kinds(
    ps: Seq<FoundPattern>,
    mode: ManiaModeFamily,
    k: int,
)
    requires
        ps.len() <= u64::MAX,
        0 <= k < clusters_of(ps, mode).len(),
    ensures
        ({
            let c = clusters_of(ps, mode)[k];
            let kinds = c.specific_types;
            &&& forall|a: int|
                0 <= a < kinds.len() ==> (#[trigger] kinds[a]).1.den == how_many(
                    ps.len(),
                    |i: int| belongs(ps, i, c),
                ) && kinds[a].1.num == how_many(
                    ps.len(),
                    |i: int| belongs(ps, i, c) && ps[i].specific_type == Some(kinds[a].0),
                )
            &&& forall|a: int, b: int|
                0 <= a < b < kinds.len() ==> (#[trigger] kinds[a]).0 != (#[trigger] kinds[b]).0
                    && kinds[a].1.num >= kinds[b].1.num
        }),
{
    let bpms = bpms_of(ps);
    lemma_openers(ps, bpms, ps.len());
    let h = openers(ps, bpms, ps.len())[k];
    let c = cluster_of(ps, mode, h);
    let ms = members(ps, bpms, h, ps.len());
    let seen = kinds_seen(ms, ms.len());
    lemma_members(ps, mode, h, ps.len(), Subtype::Rolls);
    lemma_count(ps.len(), |i: int| belongs(ps, i, c));
    lemma_kinds_seen(ms, ms.len());
    let keys = seen.map_values(|x: Subtype| (-(kind_count(ms, x, ms.len()) as int)) as i128);
    law_sorting_is_stable(keys, keys.len());
    let order = sorted_order(keys);
    assert(is_stable_order(keys, order, keys.len()));
    let kinds = c.specific_types;
    assert forall|a: int| 0 <= a < kinds.len() implies (#[trigger] kinds[a]).1.den == how_many(
        ps.len(),
        |i: int| belongs(ps, i, c),
    ) && kinds[a].1.num == how_many(
        ps.len(),
        |i: int| belongs(ps, i, c) && ps[i].specific_type == Some(kinds[a].0),
    ) by {
        lemma_members(ps, mode, h, ps.len(), kinds[a].0);
        lemma_count(
            ps.len(),
            |i: int| belongs(ps, i, c) && ps[i].specific_type == Some(kinds[a].0),
        );
    }
    assert forall|a: int, b: int| 0 <= a < b < kinds.len() implies (#[trigger] kinds[a]).0 != (
    #[trigger] kinds[b]).0 && kinds[a].1.num >= kinds[b].1.num by {
        assert(order[a] != order[b]);
        assert(keys[order[a]] <= keys[order[b]]);
        assert(seen[order[a]] != seen[order[b]]);
        lemma_members(ps, mode, h, ps.len(), kinds[a].0);
        lemma_members(ps, mode, h, ps.len(), kinds[b].0);
        lemma_count(
            ps.len(),
            |i: int| belongs(ps, i, c) && ps[i].specific_type == Some(kinds[a].0),
        );
        lemma_count(
            ps.len(),
            |i: int| belongs(ps, i, c) && ps[i].specific_type == Some(kinds[b].0),
        );
    }
}

/// The importance of a cluster is its amount by its weight and its tempo, in
/// parts of which three thousand make one. The weight is that of its pattern and
/// most frequent kind; with releases it counts four fifths where any stretch is
/// of a density or wildcard pattern.
pub proof fn law_importance_weighs_amounts(ps: Seq<FoundPattern>, mode: ManiaModeFamily, k: int)
    requires
        0 <= k < clusters_of(ps, mode).len(),
    ensures
        ({
            let c = clusters_of(ps, mode)[k];
            let kind = if c.specific_types.len() > 0 {
                Some(c.specific_types[0].0)
            } else {
                None
            };
            let plain = full_weight(c.pattern, kind, mode);
            let released = exists|a: int|
                0 <= a < c.specific_types.len() && (#[trigger] c.specific_types[a]).0
                    == Subtype::Release;
            let dense = exists|i: int|
                0 <= i < ps.len() && ((#[trigger] ps[i]).pattern == ManiaPattern::Density
                    || ps[i].pattern == ManiaPattern::Wildcard);
            let w = c.rating_multiplier;
            &&& !(released && dense) ==> w == plain
            &&& (released && dense && 0 <= plain.num <= 1000 && 0 < plain.den <= 1000) ==> 5 * (
            w.num * plain.den) == 4 * (plain.num * w.den)
            &&& 3000int % (w.den as int) == 0 && w.den > 0 ==> c.importance * w.den == 3000
                * c.amount * w.num * c.bpm
        }),
{
    let bpms = bpms_of(ps);
    lemma_openers(ps, bpms, ps.len());
    let h = openers(ps, bpms, ps.len())[k];
    let c = cluster_of(ps, mode, h);
    let w = c.rating_multiplier;
    assert(c == clusters_of(ps, mode)[k]);
    if w.den > 0 && 3000int % (w.den as int) == 0 {
        let d = w.den as int;
        let q = 3000int / d;
        assert(q * d == 3000) by (nonlinear_arith)
            requires
                3000int % d == 0,
                d > 0,
                q == 3000int / d,
        ;
        let (a, n, b) = (c.amount, w.num as int, c.bpm);
        assert((a * (n * q) * b) * d == 3000 * a * n * b) by (nonlinear_arith)
            requires
                q * d == 3000,
        ;
    }
    let kind = if c.specific_types.len() > 0 {
        Some(c.specific_types[0].0)
    } else {
        None
    };
    let plain = full_weight(c.pattern, kind, mode);
    if has_release(c.specific_types) && is_dense(ps) && 0 <= plain.num <= 1000 && 0 < plain.den
        <= 1000 {
        let (x, y) = (plain.num as int, plain.den as int);
        assert(5 * ((x * 4) * y) == 4 * (x * (y * 5))) by (nonlinear_arith);
    }
}

/// The tempos of stretches: each is the beat of a stretch that is not mixed, any
/// two lie five milliseconds or more apart, and every stretch that is not mixed
/// lies less than that off one of them.
pub proof fn law_tempos_lie_apart(ps: Seq<FoundPattern>, n: nat)
    requires
        n <= ps.len(),
    ensures
        ({
            let ts = tempos(ps, n);
            &&& forall|a: int, b: int|
                0 <= a < b < ts.len() ==> #[trigger] ts[a] - #[trigger] ts[b] >= 300 || ts[b]
                    - ts[a] >= 300
            &&& forall|a: int|
                0 <= a < ts.len() ==> exists|i: int|
                    0 <= i < n && !(#[trigger] ps[i]).mixed && ps[i].ms_per_beat == #[trigger] ts[a]
        }),
    decreases n,
{
    if n > 0 {
        let m = (n - 1) as nat;
        law_tempos_lie_apart(ps, m);
        let before = tempos(ps, m);
        let ts = tempos(ps, n);
        let v = ps[m as int].ms_per_beat;
        crate::clustering::lemma_first_near(before, v);
        assert forall|a: int, b: int| 0 <= a < b < ts.len() implies #[trigger] ts[a]
            - #[trigger] ts[b] >= 300 || ts[b] - ts[a] >= 300 by {
            assert(ts[a] == before[a]);
            if b < before.len() {
                assert(ts[b] == before[b]);
            } else {
                assert(!is_near(before[a], v));
            }
        }
        assert forall|a: int| 0 <= a < ts.len() implies exists|i: int|
            0 <= i < n && !(#[trigger] ps[i]).mixed && ps[i].ms_per_beat == #[trigger] ts[a] by {
            if a < before.len() {
                assert(ts[a] == before[a]);
                let i = choose|i: int|
                    0 <= i < m && !(#[trigger] ps[i]).mixed && ps[i].ms_per_beat == before[a];
                assert(!ps[i].mixed);
            } else {
                assert(!ps[m as int].mixed);
            }
        }
    }
}

/// Whether `a` is the first of the tempos that a beat lies less than five
/// milliseconds off.
pub open spec fn first_tempo(ts: Seq<i64>, beat: i64, a: int) -> bool {
    &&& 0 <= a < ts.len()
    &&& -300 < ts[a] - beat < 300
    &&& forall|b: int| 0 <= b < a ==> #[trigger] ts[b] - beat >= 300 || beat - ts[b] >= 300
}

/// Whether stretches `i` and `j` share a tempo: mixed ones share it by pattern,
/// others by the first tempo that they are near.
pub open spec fn shares_tempo(ps: Seq<FoundPattern>, ts: Seq<i64>, i: int, j: int) -> bool {
    if ps[i].mixed {
        ps[j].mixed && ps[j].pattern == ps[i].pattern
    } else {
        !ps[j].mixed && exists|a: int| #[trigger]
            first_tempo(ts, ps[i].ms_per_beat, a) && first_tempo(ts, ps[j].ms_per_beat, a)
    }
}

proof fn lemma_shares_tempo(ps: Seq<FoundPattern>, i: int, j: int)
    requires
        0 <= i < ps.len(),
        0 <= j < ps.len(),
    ensures
        ({
            let ts = tempos(ps, ps.len());
            shares_tempo(ps, ts, i, j) <==> group_of(ts, ps[j]) == group_of(ts, ps[i])
        }),
{
    let ts = tempos(ps, ps.len());
    crate::clustering::lemma_first_near(ts, ps[i].ms_per_beat);
    crate::clustering::lemma_first_near(ts, ps[j].ms_per_beat);
    let (x, y) = (first_near(ts, ps[i].ms_per_beat), first_near(ts, ps[j].ms_per_beat));
    if !ps[i].mixed {
        crate::clustering::law_stretches_are_near_their_tempo(ps, ps.len(), i);
        assert(first_tempo(ts, ps[i].ms_per_beat, x)) by {
            assert forall|b: int| 0 <= b < x implies #[trigger] ts[b] - ps[i].ms_per_beat >= 300
                || ps[i].ms_per_beat - ts[b] >= 300 by {
                assert(!is_near(ts[b], ps[i].ms_per_beat));
            }
        }
        if !ps[j].mixed {
            crate::clustering::law_stretches_are_near_their_tempo(ps, ps.len(), j);
            assert(first_tempo(ts, ps[j].ms_per_beat, y)) by {
                assert forall|b: int| 0 <= b < y implies #[trigger] ts[b] - ps[j].ms_per_beat >= 300
                    || ps[j].ms_per_beat - ts[b] >= 300 by {
                    assert(!is_near(ts[b], ps[j].ms_per_beat));
                }
            }
            assert forall|a: int| #[trigger] first_tempo(ts, ps[i].ms_per_beat, a) implies a == x by {
                if a < x {
                    assert(!is_near(ts[a], ps[i].ms_per_beat));
                } else if x < a {
                    assert(ts[x] - ps[i].ms_per_beat >= 300 || ps[i].ms_per_beat - ts[x] >= 300);
                }
            }
            assert forall|a: int| #[trigger] first_tempo(ts, ps[j].ms_per_beat, a) implies a == y by {
                if a < y {
                    assert(!is_near(ts[a], ps[j].ms_per_beat));
                } else if y < a {
                    assert(ts[y] - ps[j].ms_per_beat >= 300 || ps[j].ms_per_beat - ts[y] >= 300);
                }
            }
        }
    }
}

proof fn lemma_group(ps: Seq<FoundPattern>, i: int, n: nat)
    requires
        0 <= i < ps.len(),
        n <= ps.len(),
    ensures
        ({
            let ts = tempos(ps, ps.len());
            let group = group_of(ts, ps[i]);
            &&& group_sum(ts, ps, group, n) == sum_of(
                n,
                |j: int|
                    if shares_tempo(ps, ts, i, j) {
                        ps[j].ms_per_beat as int
                    } else {
                        0
                    },
            )
            &&& group_count(ts, ps, group, n) == how_many(n, |j: int| shares_tempo(ps, ts, i, j))
        }),
    decreases n,
{
    if n > 0 {
        lemma_group(ps, i, (n - 1) as nat);
        lemma_shares_tempo(ps, i, n - 1);
    }
}

/// The tempo of a stretch, in beats per minute, is that of the mean beat of the
/// stretches that share it, rounded to the nearest; zero where beats have no
/// length. Beats count sixtieths of a millisecond.
pub proof fn law_tempo_is_of_the_mean_beat(ps: Seq<FoundPattern>, i: int)
    requires
        0 <= i < ps.len(),
    ensures
        ({
            let ts = tempos(ps, ps.len());
            let bpm = bpms_of(ps)[i];
            let sum = sum_of(
                ps.len(),
                |j: int|
                    if shares_tempo(ps, ts, i, j) {
                        ps[j].ms_per_beat as int
                    } else {
                        0
                    },
            );
            let count = how_many(ps.len(), |j: int| shares_tempo(ps, ts, i, j)) as int;
            &&& sum <= 0 ==> bpm == 0
            &&& sum > 0 && bpm < 0x7fff_ffff_ffff_ffff ==> (2 * bpm - 1) * sum <= 2 * (3_600_000
                * count) < (2 * bpm + 1) * sum
            &&& bpm <= 0x7fff_ffff_ffff_ffff
        }),
{
    lemma_group(ps, i, ps.len());
    let ts = tempos(ps, ps.len());
    let group = group_of(ts, ps[i]);
    let sum = group_sum(ts, ps, group, ps.len());
    let count = group_count(ts, ps, group, ps.len()) as int;
    if sum > 0 {
        let q = (7_200_000 * count + sum) / (2 * sum);
        assert((2 * q - 1) * sum <= 2 * (3_600_000 * count) < (2 * q + 1) * sum)
            by (nonlinear_arith)
            requires
                sum > 0,
                q == (7_200_000 * count + sum) / (2 * sum),
        ;
        assert(bpms_of(ps)[i] == crate::number::least(BPM_LIMIT as int, q));
    }
}

} // verus!
