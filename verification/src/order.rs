//! Stable sorting by integer keys.

use vstd::prelude::*;

verus! {

/// Where a new entry with key `k` goes: behind the last entry whose key is at
/// most `k`.
pub open spec fn slot(keys: Seq<i128>, order: Seq<int>, k: i128) -> int
    decreases order.len(),
{
    if order.len() == 0 || keys[order.last()] <= k {
        order.len() as int
    } else {
        slot(keys, order.drop_last(), k)
    }
}

/// The first `n` positions of `keys` in the order of their keys; equal keys
/// stay in the order of their positions.
pub open spec fn order_of(keys: Seq<i128>, n: nat) -> Seq<int>
    decreases n,
{
    if n == 0 {
        Seq::empty()
    } else {
        let m = (n - 1) as nat;
        let before = order_of(keys, m);
        before.insert(slot(keys, before, keys[m as int]), m as int)
    }
}

/// All positions of `keys` in the order of their keys.
pub open spec fn sorted_order(keys: Seq<i128>) -> Seq<int> {
    order_of(keys, keys.len())
}

/// Whether the first `n` positions occur in `order`, each once, with keys that
/// never fall, and positions that rise where keys are equal.
pub open spec fn is_stable_order(keys: Seq<i128>, order: Seq<int>, n: nat) -> bool {
    &&& order.len() == n
    &&& forall|i: int| 0 <= i < n ==> 0 <= #[trigger] order[i] < n
    &&& forall|i: int, j: int| 0 <= i < j < n ==> order[i] != order[j]
    &&& forall|i: int, j: int|
        0 <= i < j < n ==> {
            ||| keys[#[trigger] order[i]] < keys[#[trigger] order[j]]
            ||| keys[order[i]] == keys[order[j]] && order[i] < order[j]
        }
}

pub(crate) proof fn lemma_slot(keys: Seq<i128>, order: Seq<int>, k: i128)
    ensures
        0 <= slot(keys, order, k) <= order.len(),
        slot(keys, order, k) > 0 ==> keys[order[slot(keys, order, k) - 1]] <= k,
        forall|i: int| slot(keys, order, k) <= i < order.len() ==> keys[#[trigger] order[i]] > k,
    decreases order.len(),
{
    if order.len() > 0 && keys[order.last()] > k {
        lemma_slot(keys, order.drop_last(), k);
        let p = slot(keys, order, k);
        assert forall|i: int| p <= i < order.len() implies keys[#[trigger] order[i]] > k by {
            if i < order.len() - 1 {
                assert(order.drop_last()[i] == order[i]);
            }
        }
        if p > 0 {
            assert(order.drop_last()[p - 1] == order[p - 1]);
        }
    }
}

/// Sorting keeps every position once, brings the keys into order, and keeps
/// positions with equal keys in order.
pub proof fn law_sorting_is_stable(keys: Seq<i128>, n: nat)
    requires
        n <= keys.len(),
    ensures
        is_stable_order(keys, order_of(keys, n), n),
    decreases n,
{
    if n > 0 {
        let m = (n - 1) as nat;
        law_sorting_is_stable(keys, m);
        let before = order_of(keys, m);
        let k = keys[m as int];
        let p = slot(keys, before, k);
        lemma_slot(keys, before, k);
        let after = before.insert(p, m as int);
        assert forall|i: int, j: int| 0 <= i < j < n implies {
            ||| keys[#[trigger] after[i]] < keys[#[trigger] after[j]]
            ||| keys[after[i]] == keys[after[j]] && after[i] < after[j]
        } by {
            if j == p {
                if i < p - 1 {
                    assert(keys[before[i]] <= keys[before[p - 1]]);
                }
            }
        }
        assert forall|i: int, j: int| 0 <= i < j < n implies after[i] != after[j] by {
            if i == p {
                assert(after[j] == before[j - 1]);
            } else if j == p {
                assert(after[i] == before[i]);
            }
        }
    }
}

/// Two stable orders of the same keys are the same.
pub proof fn law_stable_order_is_unique(keys: Seq<i128>, a: Seq<int>, b: Seq<int>, n: nat)
    requires
        n <= keys.len(),
        is_stable_order(keys, a, n),
        is_stable_order(keys, b, n),
    ensures
        a == b,
{
    lemma_onto(a, n);
    lemma_onto(b, n);
    assert forall|i: int| 0 <= i < n implies a[i] == b[i] by {
        lemma_agree(keys, a, b, n, i);
    }
    assert(a =~= b);
}

/// Distinct positions below `n`, `n` of them, are all the positions below `n`.
pub proof fn lemma_onto(a: Seq<int>, n: nat)
    requires
        a.len() == n,
        forall|i: int| 0 <= i < n ==> 0 <= #[trigger] a[i] < n,
        forall|i: int, j: int| 0 <= i < j < n ==> a[i] != a[j],
    ensures
        forall|x: int| 0 <= x < n ==> #[trigger] a.contains(x),
{
    let all = vstd::set_lib::set_int_range(0, n as int);
    vstd::set_lib::lemma_int_range(0, n as int);
    a.unique_seq_to_set();
    assert(a.to_set().subset_of(all));
    vstd::set_lib::lemma_subset_equality(a.to_set(), all);
    assert forall|x: int| 0 <= x < n implies #[trigger] a.contains(x) by {
        assert(all.contains(x));
        assert(a.to_set().contains(x));
    }
}

proof fn lemma_agree(keys: Seq<i128>, a: Seq<int>, b: Seq<int>, n: nat, i: int)
    requires
        n <= keys.len(),
        is_stable_order(keys, a, n),
        is_stable_order(keys, b, n),
        forall|x: int| 0 <= x < n ==> #[trigger] a.contains(x),
        forall|x: int| 0 <= x < n ==> #[trigger] b.contains(x),
        0 <= i < n,
    ensures
        a[i] == b[i],
    decreases i,
{
    assert forall|j: int| 0 <= j < i implies a[j] == b[j] by {
        lemma_agree(keys, a, b, n, j);
    }
    if a[i] != b[i] {
        assert(b.contains(a[i]));
        assert(a.contains(b[i]));
        let p = choose|p: int| 0 <= p < n && b[p] == a[i];
        let q = choose|q: int| 0 <= q < n && a[q] == b[i];
        if p < i {
            assert(a[p] == b[p]);
            assert(false);
        }
        if q < i {
            assert(a[q] == b[q]);
            assert(false);
        }
        assert(i < p && i < q);
        assert(keys[b[i]] <= keys[b[p]]);
        assert(keys[a[i]] <= keys[a[q]]);
    }
}

/// Positions as integers.
pub open spec fn positions(v: Seq<usize>) -> Seq<int> {
    Seq::new(v.len(), |i: int| v[i] as int)
}

/// The positions of `keys` in the order of their keys.
pub fn sort_order(keys: &[i128]) -> (r: Vec<usize>)
    ensures
        positions(r@) == sorted_order(keys@),
        is_stable_order(keys@, positions(r@), keys@.len()),
        r@.len() == keys@.len(),
        forall|i: int| 0 <= i < r@.len() ==> #[trigger] r@[i] < keys@.len(),
{
    let mut out: Vec<usize> = Vec::new();
    let mut n: usize = 0;
    assert(positions(out@) =~= Seq::<int>::empty());
    while n < keys.len()
        invariant
            n <= keys@.len(),
            positions(out@) == order_of(keys@, n as nat),
            out@.len() == n,
            forall|i: int| 0 <= i < n ==> #[trigger] out@[i] < n,
        decreases keys@.len() - n,
    {
        let k = keys[n];
        let ghost before = positions(out@);
        let mut p: usize = out.len();
        assert(before.take(p as int) =~= before);
        while p > 0 && keys[out[p - 1]] > k
            invariant
                p <= out@.len(),
                n < keys@.len(),
                out@.len() == n,
                forall|i: int| 0 <= i < n ==> #[trigger] out@[i] < n,
                before == positions(out@),
                slot(keys@, before, k) == slot(keys@, before.take(p as int), k),
            decreases p,
        {
            assert(before.take(p as int).drop_last() =~= before.take(p - 1));
            assert(before.take(p as int).last() == out@[p - 1]);
            p = p - 1;
        }
        proof {
            if p > 0 {
                assert(before.take(p as int).last() == out@[p - 1]);
            }
            assert(slot(keys@, before, k) == p);
        }
        let ghost old_out = out@;
        out.insert(p, n);
        n = n + 1;
        assert(positions(out@) =~= before.insert(p as int, n - 1));
        assert forall|i: int| 0 <= i < n implies #[trigger] out@[i] < n by {
            if i < p {
                assert(out@[i] == old_out[i]);
            } else if i > p {
                assert(out@[i] == old_out[i - 1]);
            }
        }
    }
    proof {
        law_sorting_is_stable(keys@, keys@.len());
    }
    out
}

} // verus!
