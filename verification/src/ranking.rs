//! The kinds within a bar in the order of their weight.

use crate::big::Big;
use crate::clustering::{cluster_valid, ClusterView};
use crate::profile::{
    bar_kinds, kind_views, lemma_place, place_of, with_cluster, BarKind, BarKindView, Term,
};
use crate::summary::clusters_valid;
use crate::types::ManiaPattern;
use vstd::prelude::*;
use vstd::slice::slice_to_vec;

verus! {

/// The denominator of the weight of terms: the product of theirs.
pub open spec fn weight_den(terms: Seq<Term>) -> int
    decreases terms.len(),
{
    if terms.len() == 0 {
        1
    } else {
        weight_den(terms.drop_last()) * terms.last().share.den
    }
}

/// The numerator of the weight of terms, which is the sum of the shares of
/// their amounts.
pub open spec fn weight_num(terms: Seq<Term>) -> int
    decreases terms.len(),
{
    if terms.len() == 0 {
        0
    } else {
        let t = terms.last();
        weight_num(terms.drop_last()) * t.share.den + t.share.num * t.amount * weight_den(
            terms.drop_last(),
        )
    }
}

/// Whether a kind weighs more than another.
pub open spec fn heavier(a: BarKindView, b: BarKindView) -> bool {
    weight_num(a.terms) * weight_den(b.terms) > weight_num(b.terms) * weight_den(a.terms)
}

/// Where a kind goes among ranked ones: behind the last that it does not
/// outweigh.
pub open spec fn rank_slot(sorted: Seq<BarKindView>, k: BarKindView) -> int
    decreases sorted.len(),
{
    if sorted.len() == 0 || !heavier(k, sorted.last()) {
        sorted.len() as int
    } else {
        rank_slot(sorted.drop_last(), k)
    }
}

/// The first `n` kinds, the heaviest first; equal ones stay in order.
pub open spec fn ranked(kinds: Seq<BarKindView>, n: nat) -> Seq<BarKindView>
    decreases n,
{
    if n == 0 {
        Seq::empty()
    } else {
        let before = ranked(kinds, (n - 1) as nat);
        before.insert(rank_slot(before, kinds[n - 1]), kinds[n - 1])
    }
}

/// Whether a term is a share of an amount.
pub open spec fn term_valid(t: Term) -> bool {
    &&& 0 <= t.share.num <= t.share.den
    &&& 0 < t.share.den
    &&& 0 <= t.amount
}

/// Whether all terms are valid.
pub open spec fn terms_valid(terms: Seq<Term>) -> bool {
    forall|i: int| 0 <= i < terms.len() ==> term_valid(#[trigger] terms[i])
}

/// Whether all kinds have valid terms.
pub open spec fn kinds_valid(kinds: Seq<BarKindView>) -> bool {
    forall|i: int| 0 <= i < kinds.len() ==> terms_valid((#[trigger] kinds[i]).terms)
}

proof fn lemma_weight_den(terms: Seq<Term>)
    requires
        terms_valid(terms),
    ensures
        weight_den(terms) > 0,
        weight_num(terms) >= 0,
    decreases terms.len(),
{
    if terms.len() > 0 {
        let front = terms.drop_last();
        assert forall|i: int| 0 <= i < front.len() implies term_valid(#[trigger] front[i]) by {
            assert(term_valid(terms[i]));
        }
        lemma_weight_den(front);
        assert(term_valid(terms[terms.len() - 1]));
        let (d, e, n) = (weight_den(front), terms.last().share.den as int, weight_num(front));
        let (p, a) = (terms.last().share.num as int, terms.last().amount as int);
        assert(d * e > 0) by (nonlinear_arith)
            requires
                d > 0,
                e > 0,
        ;
        assert(n * e + p * a * d >= 0) by (nonlinear_arith)
            requires
                n >= 0,
                e > 0,
                p >= 0,
                a >= 0,
                d > 0,
        ;
    }
}

/// The numerator and the denominator of the weight of terms.
fn weigh(terms: &[Term]) -> (r: (Big, Big))
    requires
        terms_valid(terms@),
    ensures
        r.0@ == weight_num(terms@),
        r.1@ == weight_den(terms@),
{
    let mut num = Big::from_u128(0);
    let mut den = Big::from_u128(1);
    let mut n: usize = 0;
    assert(terms@.take(0) =~= Seq::<Term>::empty());
    while n < terms.len()
        invariant
            n <= terms@.len(),
            terms_valid(terms@),
            num@ == weight_num(terms@.take(n as int)),
            den@ == weight_den(terms@.take(n as int)),
        decreases terms@.len() - n,
    {
        let t = terms[n];
        assert(term_valid(terms@[n as int]));
        proof {
            assert(terms@.take(n + 1).drop_last() =~= terms@.take(n as int));
            assert(terms@.take(n + 1).last() == t);
            let (d, p, a) = (den@, t.share.num as int, t.amount as int);
            assert((d * p) * a == p * a * d) by (nonlinear_arith);
        }
        let part = den.times_word(t.share.num as u128).times_word(t.amount as u128);
        num = num.times_word(t.share.den as u128).plus(&part);
        den = den.times_word(t.share.den as u128);
        n = n + 1;
    }
    assert(terms@.take(n as int) =~= terms@);
    (num, den)
}

fn outweighs(a: &BarKind, b: &BarKind) -> (r: bool)
    requires
        terms_valid(a@.terms),
        terms_valid(b@.terms),
    ensures
        r == heavier(a@, b@),
{
    let (x, d) = weigh(a.terms.as_slice());
    let (y, e) = weigh(b.terms.as_slice());
    y.times(&d).below(&x.times(&e))
}

fn copy_kind(k: &BarKind) -> (r: BarKind)
    ensures
        r@ == k@,
{
    BarKind { kind: k.kind, terms: slice_to_vec(k.terms.as_slice()) }
}

/// Ranks kinds by weight.
pub(crate) fn rank_kinds(kinds: &[BarKind]) -> (r: Vec<BarKind>)
    requires
        kinds_valid(kind_views(kinds@)),
    ensures
        kind_views(r@) == ranked(kind_views(kinds@), kinds@.len()),
{
    let ghost views = kind_views(kinds@);
    let mut out: Vec<BarKind> = Vec::new();
    let mut n: usize = 0;
    assert(kind_views(out@) =~= ranked(views, 0));
    while n < kinds.len()
        invariant
            n <= kinds@.len(),
            views == kind_views(kinds@),
            kinds_valid(views),
            kind_views(out@) == ranked(views, n as nat),
            kinds_valid(kind_views(out@)),
        decreases kinds@.len() - n,
    {
        let ghost before = kind_views(out@);
        assert(views[n as int] == kinds@[n as int]@);
        assert(terms_valid(views[n as int].terms));
        let mut k: usize = out.len();
        assert(before.take(k as int) =~= before);
        assert forall|i: int| 0 <= i < before.len() implies terms_valid((#[trigger] out@[i])@.terms) by {
            assert(terms_valid(before[i].terms));
        }
        while k > 0 && outweighs(&kinds[n], &out[k - 1])
            invariant
                k <= out@.len(),
                n < kinds@.len(),
                views == kind_views(kinds@),
                views[n as int] == kinds@[n as int]@,
                terms_valid(views[n as int].terms),
                before == kind_views(out@),
                kinds_valid(before),
                forall|i: int| 0 <= i < before.len() ==> #[trigger] before[i] == out@[i]@,
                forall|i: int| 0 <= i < before.len() ==> terms_valid((#[trigger] out@[i])@.terms),
                rank_slot(before, views[n as int]) == rank_slot(
                    before.take(k as int),
                    views[n as int],
                ),
            decreases k,
        {
            assert(before.take(k as int).last() == before[k - 1]);
            assert(before.take(k as int).drop_last() =~= before.take(k - 1));
            k = k - 1;
        }
        proof {
            if k > 0 {
                assert(before.take(k as int).last() == before[k - 1]);
            }
            assert(rank_slot(before.take(k as int), views[n as int]) == k);
        }
        let copied = copy_kind(&kinds[n]);
        let ghost held = out@;
        out.insert(k, copied);
        proof {
            let after = kind_views(out@);
            assert(after =~= before.insert(k as int, views[n as int])) by {
                assert forall|i: int| 0 <= i < after.len() implies #[trigger] after[i]
                    == before.insert(k as int, views[n as int])[i] by {
                    if i < k {
                        assert(out@[i] == held[i]);
                    } else if i > k {
                        assert(out@[i] == held[i - 1]);
                    }
                }
            }
            assert forall|i: int| 0 <= i < after.len() implies terms_valid((#[trigger] after[i]).terms) by {
                if i < k {
                    assert(terms_valid(before[i].terms));
                } else if i > k {
                    assert(terms_valid(before[i - 1].terms));
                }
            }
        }
        n = n + 1;
    }
    out
}

proof fn lemma_with_cluster(kinds: Seq<BarKindView>, c: ClusterView, n: nat)
    requires
        cluster_valid(c),
        n <= c.specific_types.len(),
        kinds_valid(kinds),
    ensures
        kinds_valid(with_cluster(kinds, c, n)),
    decreases n,
{
    if n > 0 {
        let m = (n - 1) as nat;
        lemma_with_cluster(kinds, c, m);
        let before = with_cluster(kinds, c, m);
        let (kind, share) = c.specific_types[m as int];
        let term = Term { share, amount: c.amount as i64 };
        let after = with_cluster(kinds, c, n);
        let k = place_of(before, kind);
        lemma_place(before, kind);
        assert(term_valid(term)) by {
            assert(0 <= c.specific_types[m as int].1.num);
        }
        assert forall|i: int| 0 <= i < after.len() implies terms_valid(
            (#[trigger] after[i]).terms,
        ) by {
            if k < before.len() && i == k {
                let terms = before[k].terms.push(term);
                assert(terms_valid(before[k].terms));
                assert forall|x: int| 0 <= x < terms.len() implies term_valid(
                    #[trigger] terms[x],
                ) by {
                    if x < before[k].terms.len() {
                        assert(term_valid(before[k].terms[x]));
                    }
                }
            } else if i < before.len() {
                assert(after[i] == before[i]);
            } else {
                assert(after[i].terms =~= seq![term]);
                assert(term_valid(after[i].terms[0]));
            }
        }
    }
}

/// The terms of a bar are shares of amounts.
pub(crate) proof fn lemma_bar_kinds(cs: Seq<ClusterView>, pattern: ManiaPattern, n: nat)
    requires
        clusters_valid(cs),
        n <= cs.len(),
    ensures
        kinds_valid(bar_kinds(cs, pattern, n)),
    decreases n,
{
    if n > 0 {
        let m = (n - 1) as nat;
        lemma_bar_kinds(cs, pattern, m);
        assert(cluster_valid(cs[m as int]));
        if cs[m as int].pattern == pattern {
            lemma_with_cluster(
                bar_kinds(cs, pattern, m),
                cs[m as int],
                cs[m as int].specific_types.len(),
            );
        }
    }
}

proof fn lemma_heavier_chain(a: BarKindView, b: BarKindView, c: BarKindView)
    requires
        terms_valid(a.terms),
        terms_valid(b.terms),
        terms_valid(c.terms),
        !heavier(b, a),
        !heavier(c, b),
    ensures
        !heavier(c, a),
{
    lemma_weight_den(a.terms);
    lemma_weight_den(b.terms);
    lemma_weight_den(c.terms);
    let (x, d) = (weight_num(a.terms), weight_den(a.terms));
    let (y, e) = (weight_num(b.terms), weight_den(b.terms));
    let (z, f) = (weight_num(c.terms), weight_den(c.terms));
    assert(z * d <= x * f) by (nonlinear_arith)
        requires
            y * d <= x * e,
            z * e <= y * f,
            d > 0,
            e > 0,
            f > 0,
    {
        assert((z * e) * d <= (y * f) * d);
        assert((y * d) * f <= (x * e) * f);
        assert((z * d) * e <= (x * f) * e);
    }
}

proof fn lemma_rank_slot(sorted: Seq<BarKindView>, k: BarKindView)
    ensures
        0 <= rank_slot(sorted, k) <= sorted.len(),
        rank_slot(sorted, k) > 0 ==> !heavier(k, sorted[rank_slot(sorted, k) - 1]),
        forall|i: int| rank_slot(sorted, k) <= i < sorted.len() ==> heavier(k, #[trigger] sorted[i]),
    decreases sorted.len(),
{
    if sorted.len() > 0 && heavier(k, sorted.last()) {
        lemma_rank_slot(sorted.drop_last(), k);
        let p = rank_slot(sorted, k);
        assert forall|i: int| p <= i < sorted.len() implies heavier(k, #[trigger] sorted[i]) by {
            if i < sorted.len() - 1 {
                assert(sorted.drop_last()[i] == sorted[i]);
            }
        }
        if p > 0 {
            assert(sorted.drop_last()[p - 1] == sorted[p - 1]);
        }
    }
}

/// Whether no kind outweighs one before it.
pub open spec fn falling(kinds: Seq<BarKindView>) -> bool {
    forall|i: int, j: int|
        0 <= i < j < kinds.len() ==> !heavier(#[trigger] kinds[j], #[trigger] kinds[i])
}

/// Ranking puts the heaviest kinds first.
pub proof fn law_ranking_orders_kinds(kinds: Seq<BarKindView>, n: nat)
    requires
        n <= kinds.len(),
        forall|i: int| 0 <= i < kinds.len() ==> terms_valid((#[trigger] kinds[i]).terms),
    ensures
        falling(ranked(kinds, n)),
        ranked(kinds, n).len() == n,
        forall|i: int|
            0 <= i < ranked(kinds, n).len() ==> terms_valid((#[trigger] ranked(kinds, n)[i]).terms),
    decreases n,
{
    if n > 0 {
        let m = (n - 1) as nat;
        law_ranking_orders_kinds(kinds, m);
        let before = ranked(kinds, m);
        let k = kinds[m as int];
        let p = rank_slot(before, k);
        lemma_rank_slot(before, k);
        let after = before.insert(p, k);
        assert forall|i: int| 0 <= i < after.len() implies terms_valid(
            (#[trigger] after[i]).terms,
        ) by {
            if i < p {
                assert(after[i] == before[i]);
            } else if i > p {
                assert(after[i] == before[i - 1]);
            }
        }
        assert forall|i: int, j: int| 0 <= i < j < after.len() implies !heavier(
            #[trigger] after[j],
            #[trigger] after[i],
        ) by {
            if j < p {
                assert(!heavier(before[j], before[i]));
            } else if j == p {
                if i < p - 1 {
                    assert(!heavier(before[p - 1], before[i]));
                    lemma_heavier_chain(before[i], before[p - 1], k);
                }
            } else {
                assert(after[j] == before[j - 1]);
                if i == p {
                    assert(heavier(k, before[j - 1]));
                } else {
                    let x = if i < p {
                        i
                    } else {
                        i - 1
                    };
                    assert(after[i] == before[x]);
                    assert(!heavier(before[j - 1], before[x]));
                }
            }
        }
    }
}

} // verus!
