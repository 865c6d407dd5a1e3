//! How often each key occurs in a list.

use vstd::prelude::*;

verus! {

/// How often a key occurs.
pub open spec fn occurrences(keys: Seq<u32>, key: int) -> nat
    decreases keys.len(),
{
    if keys.len() == 0 {
        0
    } else {
        occurrences(keys.drop_last(), key) + (if keys.last() == key {
            1nat
        } else {
            0
        })
    }
}

/// How many keys lie above a value.
pub open spec fn above(keys: Seq<u32>, after: int) -> nat
    decreases keys.len(),
{
    if keys.len() == 0 {
        0
    } else {
        above(keys.drop_last(), after) + (if keys.last() > after {
            1nat
        } else {
            0
        })
    }
}

/// The least key above a value.
pub open spec fn next_key(keys: Seq<u32>, after: int) -> Option<int>
    decreases keys.len(),
{
    if keys.len() == 0 {
        None
    } else {
        let rest = next_key(keys.drop_last(), after);
        let k = keys.last() as int;
        if k > after && (rest matches Some(r) ==> k < r) {
            Some(k)
        } else {
            rest
        }
    }
}

/// The keys above one are the next key, as often as it occurs, and those above it.
pub proof fn lemma_next_key(keys: Seq<u32>, after: int)
    ensures
        next_key(keys, after) matches Some(k) ==> k > after && above(keys, k) + occurrences(keys, k)
            == above(keys, after) && occurrences(keys, k) > 0,
        next_key(keys, after) is None ==> above(keys, after) == 0,
    decreases keys.len(),
{
    if keys.len() > 0 {
        let front = keys.drop_last();
        lemma_next_key(front, after);
        let k = keys.last() as int;
        if let Some(r) = next_key(front, after) {
            if after < k < r {
                lemma_above(front, after, k, r);
            }
        } else {
            if k > after {
                lemma_above(front, after, k, k + 1);
            }
        }
    }
}

proof fn lemma_above(keys: Seq<u32>, after: int, k: int, r: int)
    requires
        after < k < r,
        next_key(keys, after) matches Some(n) ==> n >= r,
    ensures
        above(keys, k) == above(keys, after),
        occurrences(keys, k) == 0,
    decreases keys.len(),
{
    if keys.len() > 0 {
        lemma_above(keys.drop_last(), after, k, r);
    }
}

/// How often each key above a value occurs, in the order of the keys.
pub open spec fn tally_from(keys: Seq<u32>, after: int) -> Seq<nat>
    decreases above(keys, after),
{
    match next_key(keys, after) {
        Some(k) => {
            proof {
                lemma_next_key(keys, after);
            }
            seq![occurrences(keys, k)] + tally_from(keys, k)
        },
        None => Seq::empty(),
    }
}

/// How often each key occurs, in the order of the keys.
pub open spec fn tally(keys: Seq<u32>) -> Seq<nat> {
    tally_from(keys, -1)
}

/// The sum of a list.
pub open spec fn sum(s: Seq<nat>) -> nat
    decreases s.len(),
{
    if s.len() == 0 {
        0
    } else {
        s[0] + sum(s.skip(1))
    }
}

/// Each key is counted once: the counts add up to the length of the list, and
/// none is zero.
pub proof fn law_tally_counts_each_once(keys: Seq<u32>)
    ensures
        sum(tally(keys)) == keys.len(),
        forall|i: int| 0 <= i < tally(keys).len() ==> #[trigger] tally(keys)[i] > 0,
{
    lemma_tally_from(keys, -1);
    lemma_all_above(keys);
}

proof fn lemma_all_above(keys: Seq<u32>)
    ensures
        above(keys, -1) == keys.len(),
    decreases keys.len(),
{
    if keys.len() > 0 {
        lemma_all_above(keys.drop_last());
    }
}

proof fn lemma_tally_from(keys: Seq<u32>, after: int)
    ensures
        sum(tally_from(keys, after)) == above(keys, after),
        forall|i: int|
            0 <= i < tally_from(keys, after).len() ==> #[trigger] tally_from(keys, after)[i] > 0,
    decreases above(keys, after),
{
    lemma_next_key(keys, after);
    if let Some(k) = next_key(keys, after) {
        lemma_tally_from(keys, k);
        let t = tally_from(keys, after);
        assert(t.skip(1) =~= tally_from(keys, k));
        assert forall|i: int| 0 <= i < t.len() implies #[trigger] t[i] > 0 by {
            if i > 0 {
                assert(t[i] == tally_from(keys, k)[i - 1]);
            }
        }
    }
}

/// Counts as natural numbers.
pub open spec fn counts(v: Seq<usize>) -> Seq<nat> {
    v.map_values(|n: usize| n as nat)
}

/// How often each key occurs, in the order of the keys.
pub fn count_keys(keys: &[u32]) -> (r: Vec<usize>)
    ensures
        counts(r@) == tally(keys@),
{
    let mut out: Vec<usize> = Vec::new();
    let mut after: i64 = -1;
    assert(counts(out@) + tally_from(keys@, -1) =~= tally(keys@));
    loop
        invariant
            counts(out@) + tally_from(keys@, after as int) == tally(keys@),
        decreases above(keys@, after as int),
    {
        proof {
            lemma_next_key(keys@, after as int);
        }
        let (next, n) = first_key(keys, after);
        if n == 0 {
            assert(counts(out@) + tally_from(keys@, after as int) =~= counts(out@));
            return out;
        }
        let ghost before = counts(out@);
        out.push(n);
        proof {
            assert(counts(out@) =~= before.push(n as nat));
            assert(counts(out@) + tally_from(keys@, next as int) =~= before + tally_from(
                keys@,
                after as int,
            ));
        }
        after = next;
    }
}

/// The least key above a value, and how often it occurs.
fn first_key(keys: &[u32], after: i64) -> (r: (i64, usize))
    ensures
        match next_key(keys@, after as int) {
            Some(k) => r.0 == k && r.1 == occurrences(keys@, k) && r.1 > 0,
            None => r.1 == 0,
        },
{
    let mut key: i64 = after;
    let mut n: usize = 0;
    let mut i: usize = 0;
    assert(keys@.take(0) =~= Seq::<u32>::empty());
    while i < keys.len()
        invariant
            i <= keys@.len(),
            n <= i,
            match next_key(keys@.take(i as int), after as int) {
                Some(k) => key == k && n == occurrences(keys@.take(i as int), k) && n > 0 && k
                    > after,
                None => n == 0,
            },
        decreases keys@.len() - i,
    {
        let k: i64 = keys[i] as i64;
        proof {
            let shown = keys@.take(i as int);
            assert(keys@.take(i + 1).drop_last() =~= shown);
            assert(keys@.take(i + 1).last() == k);
            if let Some(r) = next_key(shown, after as int) {
                if after < k < r {
                    lemma_above(shown, after as int, k as int, r);
                }
            } else if k > after {
                lemma_above(shown, after as int, k as int, k + 1);
            }
        }
        if k > after {
            if n == 0 || k < key {
                key = k;
                n = 1;
            } else if k == key {
                n = n + 1;
            }
        }
        i = i + 1;
    }
    assert(keys@.take(i as int) =~= keys@);
    (key, n)
}

/// The keys above a value, in order, each once.
spec fn distinct_above(keys: Seq<u32>, after: int) -> Seq<int>
    decreases above(keys, after),
{
    match next_key(keys, after) {
        Some(k) => {
            proof {
                lemma_next_key(keys, after);
            }
            seq![k] + distinct_above(keys, k)
        },
        None => Seq::empty(),
    }
}

proof fn lemma_no_key_between(keys: Seq<u32>, after: int, u: int)
    requires
        after < u,
        next_key(keys, after) matches Some(k) ==> u < k,
    ensures
        occurrences(keys, u) == 0,
    decreases keys.len(),
{
    if keys.len() > 0 {
        lemma_no_key_between(keys.drop_last(), after, u);
    }
}

proof fn lemma_distinct_above(keys: Seq<u32>, after: int)
    ensures
        tally_from(keys, after) == distinct_above(keys, after).map_values(
            |k: int| occurrences(keys, k),
        ),
        forall|i: int|
            0 <= i < distinct_above(keys, after).len() ==> after < #[trigger] distinct_above(
                keys,
                after,
            )[i],
        distinct_above(keys, after).no_duplicates(),
        forall|k: int| #[trigger]
            distinct_above(keys, after).contains(k) <==> k > after && occurrences(keys, k) > 0,
    decreases above(keys, after),
{
    let all = distinct_above(keys, after);
    lemma_next_key(keys, after);
    match next_key(keys, after) {
        Some(n) => {
            lemma_distinct_above(keys, n);
            let rest = distinct_above(keys, n);
            assert(all =~= seq![n] + rest);
            assert(tally_from(keys, after) =~= all.map_values(|k: int| occurrences(keys, k)));
            assert forall|i: int| 0 <= i < all.len() implies after < #[trigger] all[i] by {
                if i > 0 {
                    assert(all[i] == rest[i - 1]);
                }
            }
            assert forall|i: int, j: int|
                0 <= i < all.len() && 0 <= j < all.len() && i != j implies all[i] != all[j] by {
                if i > 0 {
                    assert(all[i] == rest[i - 1]);
                }
                if j > 0 {
                    assert(all[j] == rest[j - 1]);
                }
            }
            assert forall|k: int| #[trigger] all.contains(k) <==> k > after && occurrences(keys, k)
                > 0 by {
                if all.contains(k) {
                    let i = choose|i: int| 0 <= i < all.len() && all[i] == k;
                    if i > 0 {
                        assert(rest[i - 1] == k);
                        assert(rest.contains(k));
                    }
                }
                if k > after && occurrences(keys, k) > 0 {
                    if k < n {
                        lemma_no_key_between(keys, after, k);
                    } else if k == n {
                        assert(all[0] == k);
                    } else {
                        assert(rest.contains(k));
                        let i = choose|i: int| 0 <= i < rest.len() && rest[i] == k;
                        assert(all[i + 1] == k);
                    }
                }
            }
        },
        None => {
            assert(tally_from(keys, after) =~= all.map_values(|k: int| occurrences(keys, k)));
            assert forall|k: int| #[trigger] all.contains(k) <==> k > after && occurrences(keys, k)
                > 0 by {
                if k > after {
                    lemma_no_key_between(keys, after, k);
                }
            }
        },
    }
}

/// Lists of the same things, each once, give the same values in some order.
proof fn lemma_same_values(s: Seq<int>, t: Seq<int>, g: spec_fn(int) -> nat)
    requires
        s.no_duplicates(),
        t.no_duplicates(),
        forall|k: int| #[trigger] s.contains(k) <==> t.contains(k),
    ensures
        s.map_values(g).to_multiset() == t.map_values(g).to_multiset(),
    decreases s.len(),
{
    broadcast use vstd::seq_lib::group_to_multiset_ensures;

    if s.len() == 0 {
        if t.len() > 0 {
            assert(t.contains(t[0]));
            assert(s.contains(t[0]));
        }
        assert(s.map_values(g) =~= t.map_values(g));
    } else {
        let x = s.last();
        assert(s.contains(x));
        let j = choose|j: int| 0 <= j < t.len() && t[j] == x;
        let (a, b) = (s.drop_last(), t.remove(j));
        assert(b.no_duplicates());
        assert forall|k: int| #[trigger] a.contains(k) <==> b.contains(k) by {
            if a.contains(k) {
                let i = choose|i: int| 0 <= i < a.len() && a[i] == k;
                assert(s[i] == k);
                assert(s.contains(k));
                let n = choose|n: int| 0 <= n < t.len() && t[n] == k;
                assert(n != j);
                if n < j {
                    assert(b[n] == k);
                } else {
                    assert(b[n - 1] == k);
                }
            }
            if b.contains(k) {
                let n = choose|n: int| 0 <= n < b.len() && b[n] == k;
                let m = if n < j {
                    n
                } else {
                    n + 1
                };
                assert(t[m] == k);
                assert(t.contains(k));
                assert(s.contains(k));
                let i = choose|i: int| 0 <= i < s.len() && s[i] == k;
                assert(k != x);
                assert(a[i] == k);
            }
        }
        lemma_same_values(a, b, g);
        assert(s.map_values(g) =~= a.map_values(g).push(g(x)));
        let whole = t.map_values(g);
        assert(whole.remove(j) =~= b.map_values(g));
        assert(whole[j] == g(x));
        assert(whole.remove(j).to_multiset() =~= whole.to_multiset().remove(g(x)));
        assert(whole.to_multiset().count(g(x)) > 0) by {
            assert(whole.contains(whole[j]));
        }
        assert(s.map_values(g).to_multiset() =~= whole.to_multiset());
    }
}

/// Whether two lists have equal keys at the same places.
pub open spec fn alike(a: Seq<u32>, b: Seq<u32>) -> bool {
    &&& a.len() == b.len()
    &&& forall|i: int, j: int|
        0 <= i < a.len() && 0 <= j < a.len() ==> ((#[trigger] a[i] == #[trigger] a[j]) <==> (b[i]
            == b[j]))
}

proof fn lemma_alike_occurrences(a: Seq<u32>, b: Seq<u32>, p: int, n: int)
    requires
        alike(a, b),
        0 <= p < a.len(),
        0 <= n <= a.len(),
    ensures
        occurrences(a.take(n), a[p] as int) == occurrences(b.take(n), b[p] as int),
    decreases n,
{
    if n > 0 {
        lemma_alike_occurrences(a, b, p, n - 1);
        assert(a.take(n).drop_last() =~= a.take(n - 1));
        assert(b.take(n).drop_last() =~= b.take(n - 1));
        assert((a[n - 1] == a[p]) <==> (b[n - 1] == b[p]));
    }
}

proof fn lemma_occurs(keys: Seq<u32>, k: int)
    ensures
        occurrences(keys, k) > 0 <==> exists|i: int| 0 <= i < keys.len() && #[trigger] keys[i] == k,
    decreases keys.len(),
{
    if keys.len() > 0 {
        let front = keys.drop_last();
        lemma_occurs(front, k);
        if occurrences(front, k) > 0 {
            let i = choose|i: int| 0 <= i < front.len() && #[trigger] front[i] == k;
            assert(keys[i] == k);
        }
        if keys.last() == k {
            assert(keys[keys.len() - 1] == k);
        }
        if exists|i: int| 0 <= i < keys.len() && #[trigger] keys[i] == k {
            let i = choose|i: int| 0 <= i < keys.len() && #[trigger] keys[i] == k;
            if i < front.len() {
                assert(front[i] == k);
            }
        }
    }
}

/// The place of a key in a list.
spec fn place_of(keys: Seq<u32>, k: int) -> int {
    choose|i: int| 0 <= i < keys.len() && #[trigger] keys[i] == k
}

/// What the keys are called does not matter: lists with equal keys at the same
/// places have the same counts, in some order.
pub proof fn law_tally_ignores_names(a: Seq<u32>, b: Seq<u32>)
    requires
        alike(a, b),
    ensures
        tally(a).to_multiset() == tally(b).to_multiset(),
{
    lemma_distinct_above(a, -1);
    lemma_distinct_above(b, -1);
    let (x, y) = (distinct_above(a, -1), distinct_above(b, -1));
    let f = |k: int| b[place_of(a, k)] as int;
    let z = x.map_values(f);
    assert forall|i: int| 0 <= i < x.len() implies 0 <= place_of(a, #[trigger] x[i]) < a.len()
        && a[place_of(a, x[i])] == x[i] by {
        assert(x.contains(x[i]));
        lemma_occurs(a, x[i]);
    }
    assert forall|i: int, j: int| 0 <= i < z.len() && 0 <= j < z.len() && i != j implies z[i]
        != z[j] by {
        assert(x[i] != x[j]);
        let (p, q) = (place_of(a, x[i]), place_of(a, x[j]));
        assert(a[p] != a[q]);
    }
    assert forall|k: int| #[trigger] z.contains(k) <==> y.contains(k) by {
        if z.contains(k) {
            let i = choose|i: int| 0 <= i < z.len() && z[i] == k;
            let p = place_of(a, x[i]);
            assert(b[p] == k);
            lemma_occurs(b, k);
        }
        if y.contains(k) {
            lemma_occurs(b, k);
            let p = choose|p: int| 0 <= p < b.len() && #[trigger] b[p] == k;
            let n = a[p] as int;
            lemma_occurs(a, n);
            assert(x.contains(n));
            let i = choose|i: int| 0 <= i < x.len() && x[i] == n;
            let q = place_of(a, x[i]);
            assert(a[q] == a[p]);
            assert(b[q] == b[p]);
            assert(z[i] == k);
        }
    }
    let g = |k: int| occurrences(b, k);
    lemma_same_values(z, y, g);
    assert(z.map_values(g) =~= x.map_values(|k: int| occurrences(a, k))) by {
        assert forall|i: int| 0 <= i < x.len() implies occurrences(b, z[i]) == occurrences(
            a,
            #[trigger] x[i],
        ) by {
            let p = place_of(a, x[i]);
            lemma_alike_occurrences(a, b, p, a.len() as int);
            assert(a.take(a.len() as int) =~= a);
            assert(b.take(b.len() as int) =~= b);
        }
    }
    assert(y.map_values(g) =~= y.map_values(|k: int| occurrences(b, k)));
}

} // verus!
