//! Counting and adding up, for statements about whole charts and files.

use crate::order::{is_stable_order, law_sorting_is_stable, lemma_onto, sorted_order};
use vstd::prelude::*;

verus! {

/// How many of the first `n` places satisfy `p`.
pub open spec fn how_many(n: nat, p: spec_fn(int) -> bool) -> nat
    decreases n,
{
    if n == 0 {
        0
    } else {
        how_many((n - 1) as nat, p) + (if p(n - 1) {
            1nat
        } else {
            0nat
        })
    }
}

/// The sum of `f` over the first `n` places.
pub open spec fn sum_of(n: nat, f: spec_fn(int) -> int) -> int
    decreases n,
{
    if n == 0 {
        0
    } else {
        sum_of((n - 1) as nat, f) + f(n - 1)
    }
}

/// Predicates that agree count the same.
pub proof fn lemma_counts_agree(n: nat, p: spec_fn(int) -> bool, q: spec_fn(int) -> bool)
    requires
        forall|i: int| 0 <= i < n ==> #[trigger] p(i) == q(i),
    ensures
        how_many(n, p) == how_many(n, q),
    decreases n,
{
    if n > 0 {
        lemma_counts_agree((n - 1) as nat, p, q);
        assert(p(n - 1) == q(n - 1));
    }
}

/// Functions that agree add up to the same.
pub proof fn lemma_sums_agree(n: nat, f: spec_fn(int) -> int, g: spec_fn(int) -> int)
    requires
        forall|i: int| 0 <= i < n ==> #[trigger] f(i) == g(i),
    ensures
        sum_of(n, f) == sum_of(n, g),
    decreases n,
{
    if n > 0 {
        lemma_sums_agree((n - 1) as nat, f, g);
        assert(f(n - 1) == g(n - 1));
    }
}

/// A count is at most the number of places; it is zero where none counts, and
/// full where all do.
pub proof fn lemma_count(n: nat, p: spec_fn(int) -> bool)
    ensures
        how_many(n, p) <= n,
        how_many(n, p) == 0 <==> forall|i: int| 0 <= i < n ==> !#[trigger] p(i),
        how_many(n, p) == n <==> forall|i: int| 0 <= i < n ==> #[trigger] p(i),
    decreases n,
{
    if n > 0 {
        lemma_count((n - 1) as nat, p);
        assert(p(n - 1) || !p(n - 1));
        if how_many(n, p) == 0 {
            assert forall|i: int| 0 <= i < n implies !#[trigger] p(i) by {
                if i < n - 1 {
                    assert(how_many((n - 1) as nat, p) == 0);
                }
            }
        }
        if how_many(n, p) == n {
            assert forall|i: int| 0 <= i < n implies #[trigger] p(i) by {
                if i < n - 1 {
                    assert(how_many((n - 1) as nat, p) == n - 1);
                }
            }
        }
    }
}

/// Where two predicates exclude each other and imply a third, their counts add
/// up to no more than its count, and to just that where one of them holds
/// whenever the third does.
pub proof fn lemma_counts_add(
    n: nat,
    p: spec_fn(int) -> bool,
    q: spec_fn(int) -> bool,
    r: spec_fn(int) -> bool,
)
    requires
        forall|i: int| 0 <= i < n && #[trigger] p(i) ==> !q(i) && r(i),
        forall|i: int| 0 <= i < n && #[trigger] q(i) ==> r(i),
    ensures
        how_many(n, p) + how_many(n, q) <= how_many(n, r),
        (forall|i: int| 0 <= i < n && #[trigger] r(i) ==> p(i) || q(i)) ==> how_many(n, p)
            + how_many(n, q) == how_many(n, r),
    decreases n,
{
    if n > 0 {
        lemma_counts_add((n - 1) as nat, p, q, r);
        assert(p(n - 1) || !p(n - 1));
        assert(q(n - 1) || !q(n - 1));
        assert(r(n - 1) || !r(n - 1));
    }
}

/// A predicate that implies another counts no more.
pub proof fn lemma_counts_grow(n: nat, p: spec_fn(int) -> bool, q: spec_fn(int) -> bool)
    requires
        forall|i: int| 0 <= i < n && #[trigger] p(i) ==> q(i),
    ensures
        how_many(n, p) <= how_many(n, q),
    decreases n,
{
    if n > 0 {
        lemma_counts_grow((n - 1) as nat, p, q);
        assert(p(n - 1) || !p(n - 1));
    }
}

/// The places that count, as a set.
pub open spec fn places(n: nat, p: spec_fn(int) -> bool) -> Set<int> {
    Set::new(|i: int| 0 <= i < n && p(i))
}

/// A count is the size of a set.
pub proof fn lemma_count_is_size(n: nat, p: spec_fn(int) -> bool)
    ensures
        places(n, p).finite(),
        places(n, p).len() == how_many(n, p),
    decreases n,
{
    if n == 0 {
        assert(places(n, p) =~= Set::empty());
    } else {
        let m = (n - 1) as nat;
        lemma_count_is_size(m, p);
        if p(n - 1) {
            assert(places(n, p) =~= places(m, p).insert(n - 1));
        } else {
            assert(places(n, p) =~= places(m, p));
        }
    }
}

/// What stands at place `k` of the sorted keys: no more than `k` keys are
/// smaller, and more than `k` are no larger.
pub proof fn lemma_rank(keys: Seq<i128>, k: int)
    requires
        0 <= k < keys.len(),
    ensures
        ({
            let at = sorted_order(keys)[k];
            &&& 0 <= at < keys.len()
            &&& how_many(keys.len(), |i: int| keys[i] < keys[at]) <= k
            &&& how_many(keys.len(), |i: int| keys[i] <= keys[at]) > k
        }),
{
    let n = keys.len();
    let order = sorted_order(keys);
    law_sorting_is_stable(keys, n);
    assert(is_stable_order(keys, order, n));
    lemma_onto(order, n);
    let at = order[k];
    let less = |i: int| keys[i] < keys[at];
    let most = |i: int| keys[i] <= keys[at];
    lemma_count_is_size(n, less);
    lemma_count_is_size(n, most);
    let front = order.take(k);
    front.lemma_cardinality_of_set();
    assert(places(n, less).subset_of(front.to_set())) by {
        assert forall|x: int| places(n, less).contains(x) implies front.to_set().contains(x) by {
            assert(order.contains(x));
            let j = choose|j: int| 0 <= j < order.len() && order[j] == x;
            if j >= k {
                assert(keys[order[k]] <= keys[order[j]]);
            }
            assert(front[j] == x);
        }
    }
    vstd::set_lib::lemma_len_subset(places(n, less), front.to_set());
    let whole = order.take(k + 1);
    assert(whole.no_duplicates()) by {
        assert forall|i: int, j: int| 0 <= i < whole.len() && 0 <= j < whole.len() && i
            != j implies whole[i] != whole[j] by {
            if i < j {
                assert(order[i] != order[j]);
            } else {
                assert(order[j] != order[i]);
            }
        }
    }
    whole.unique_seq_to_set();
    assert(whole.to_set().subset_of(places(n, most))) by {
        assert forall|x: int| whole.to_set().contains(x) implies places(n, most).contains(x) by {
            let j = choose|j: int| 0 <= j < whole.len() && whole[j] == x;
            if j < k {
                assert(keys[order[j]] <= keys[order[k]]);
            }
        }
    }
    vstd::set_lib::lemma_len_subset(whole.to_set(), places(n, most));
}

} // verus!
