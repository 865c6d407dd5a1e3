//! What beats a chart has at a time, which of them lasts longest, and what its
//! parts are called and worth by them.

use crate::analyzer::url_of;
use crate::beatmap::LOCAL_IDS;
use crate::chart::{BpmData, TimeItem};
use crate::clustering::{bpm_at, label_of, ClusterView, BPM_LIMIT};
use crate::counting::sum_of;
use crate::figures::law_whole_numbers_are_read;
use crate::number::{
    decimal_text, digits_value, is_digit, law_decimal_text_reads_back, unsigned_up_to,
};
use crate::parser::{beat_span, is_told, longest_tempo};
use crate::primitives::{beat_at, beat_from, left_keys};
use crate::profile::Term;
use crate::ranking::{weight_den, weight_num};
use crate::rate::whole_text;
use crate::types::Ratio;
use vstd::prelude::*;

verus! {

/// Whether a tempo begins by a time, or nobody knows when.
pub open spec fn has_begun(items: Seq<TimeItem<BpmData>>, k: int, ms: int) -> bool {
    items[k].time matches Some(x) ==> x <= ms * 1_000_000_000_000
}

proof fn lemma_beat_at(items: Seq<TimeItem<BpmData>>, ms: int, n: nat, i: nat, current: i128)
    requires
        i <= n <= items.len(),
        forall|k: int| 0 <= k < n ==> #[trigger] has_begun(items, k, ms),
        n < items.len() ==> !has_begun(items, n as int, ms),
    ensures
        beat_from(items, ms * 1_000_000_000_000, i, current) == (if n == i {
            current
        } else {
            items[n - 1].data.ms_per_beat
        }),
    decreases n - i,
{
    if i < n {
        assert(has_begun(items, i as int, ms));
        lemma_beat_at(items, ms, n, i + 1, items[i as int].data.ms_per_beat);
    }
}

/// The beat at a time is that of the last tempo that has begun, where the first
/// `n` have and the next has not; before all it is that of the first, and half a
/// second where there are no tempos.
pub proof fn law_beat_is_the_last_begun(items: Seq<TimeItem<BpmData>>, ms: int, n: nat)
    requires
        n <= items.len(),
        forall|k: int| 0 <= k < n ==> #[trigger] has_begun(items, k, ms),
        n < items.len() ==> !has_begun(items, n as int, ms),
    ensures
        n > 0 ==> beat_at(items, ms) == items[n - 1].data.ms_per_beat,
        n == 0 && items.len() > 0 ==> beat_at(items, ms) == items[0].data.ms_per_beat,
        items.len() == 0 ==> beat_at(items, ms) == 500 * 1_000_000_000_000,
{
    if items.len() > 0 {
        lemma_beat_at(items, ms, n, 0, items[0].data.ms_per_beat);
    }
}

/// The hands share the keys: on three to ten the left one has no fewer than the
/// right and at most one more, on more of them no more and at most one fewer.
pub proof fn law_hands_share_the_keys(keys: nat)
    ensures
        3 <= keys <= 10 ==> left_keys(keys) <= keys && 0 <= left_keys(keys) - (keys - left_keys(keys))
            <= 1,
        keys > 10 ==> left_keys(keys) <= keys && 0 <= (keys - left_keys(keys)) - left_keys(keys) <= 1,
        keys <= 2 ==> left_keys(keys) == 1,
{
}

/// How long tempo `j` lasts if its beat is `beat`, and nothing otherwise: until
/// the next begins, the last one until the end.
pub open spec fn time_at(t: Seq<(Option<i128>, i128)>, end: int, beat: i128, j: int) -> int {
    if t[j].1 != beat {
        0
    } else if j + 1 < t.len() {
        t[j + 1].0->0 - t[j].0->0
    } else if end > t[j].0->0 {
        end - t[j].0->0
    } else {
        0
    }
}

/// Whether it is known of all tempos when they begin.
pub open spec fn all_timed(t: Seq<(Option<i128>, i128)>) -> bool {
    forall|j: int| 0 <= j < t.len() ==> (#[trigger] t[j]).0 is Some
}

proof fn lemma_beat_span(t: Seq<(Option<i128>, i128)>, end: int, beat: i128, n: nat)
    requires
        all_timed(t),
        n <= t.len(),
    ensures
        beat_span(t, end, beat, n) == Some(sum_of(n, |j: int| time_at(t, end, beat, j))),
    decreases n,
{
    if n > 0 {
        lemma_beat_span(t, end, beat, (n - 1) as nat);
        assert(t[n - 1].0 is Some);
        if n < t.len() {
            assert(t[n as int].0 is Some);
        }
    }
}

proof fn lemma_longest_tempo(t: Seq<(Option<i128>, i128)>, end: int, n: nat)
    requires
        all_timed(t),
        0 < n <= t.len(),
    ensures
        ({
            let best = longest_tempo(t, end, n);
            &&& 0 <= best < n
            &&& forall|k: int|
                0 <= k < n ==> beat_span(t, end, (#[trigger] t[k]).1, t.len())->0 <= beat_span(
                    t,
                    end,
                    t[best].1,
                    t.len(),
                )->0
            &&& forall|k: int|
                0 <= k < best ==> beat_span(t, end, (#[trigger] t[k]).1, t.len())->0 < beat_span(
                    t,
                    end,
                    t[best].1,
                    t.len(),
                )->0
        }),
    decreases n,
{
    if n > 1 {
        lemma_longest_tempo(t, end, (n - 1) as nat);
        assert forall|i: int| 0 <= i < n implies #[trigger] is_told(t, end, i) by {
            lemma_beat_span(t, end, t[i].1, t.len());
        }
    }
}

/// The tempo that counts for scrolling is the first whose beat is in force for
/// the longest time, all tempos with the same beat taken together.
pub proof fn law_longest_beat_counts(t: Seq<(Option<i128>, i128)>, end: int, k: int)
    requires
        all_timed(t),
        0 <= k < t.len(),
    ensures
        ({
            let best = longest_tempo(t, end, t.len());
            let most = sum_of(t.len(), |j: int| time_at(t, end, t[best].1, j));
            let other = sum_of(t.len(), |j: int| time_at(t, end, t[k].1, j));
            &&& 0 <= best < t.len()
            &&& other <= most
            &&& k < best ==> other < most
        }),
{
    let best = longest_tempo(t, end, t.len());
    lemma_longest_tempo(t, end, t.len());
    lemma_beat_span(t, end, t[best].1, t.len());
    lemma_beat_span(t, end, t[k].1, t.len());
}

/// A tempo at a clock rate is the tempo times the rate, to the nearest whole
/// number, as far as there is room.
pub proof fn law_tempo_at_a_rate(bpm: int, rate: Ratio)
    requires
        bpm >= 0,
        rate.num >= 0,
        rate.den > 0,
    ensures
        ({
            let r = bpm_at(bpm, rate);
            &&& 0 <= r <= BPM_LIMIT
            &&& 2 * r * rate.den <= 2 * bpm * rate.num + rate.den
            &&& r < BPM_LIMIT ==> 2 * bpm * rate.num + rate.den < 2 * (r + 1) * rate.den
            &&& rate.num == rate.den && bpm <= BPM_LIMIT ==> r == bpm
        }),
{
    let (d, x) = (rate.den as int, 2 * bpm * rate.num + rate.den);
    let q = x / (2 * d);
    let r = bpm_at(bpm, rate);
    assert(x >= 0) by (nonlinear_arith)
        requires
            x == 2 * bpm * rate.num + rate.den,
            bpm >= 0,
            rate.num >= 0,
            rate.den > 0,
    ;
    assert(q >= 0 && q * (2 * d) <= x < (q + 1) * (2 * d)) by (nonlinear_arith)
        requires
            q == x / (2 * d),
            x >= 0,
            d > 0,
    ;
    assert(2 * r * d <= 2 * q * d) by (nonlinear_arith)
        requires
            r <= q,
            d > 0,
    ;
    assert(2 * q * d == q * (2 * d) && 2 * (q + 1) * d == (q + 1) * (2 * d)) by (nonlinear_arith);
    if rate.num == rate.den {
        assert(q == bpm) by (nonlinear_arith)
            requires
                x == 2 * bpm * d + d,
                q == x / (2 * d),
                d > 0,
        ;
    }
}

/// A cluster is labelled by its tempo, in digits that read back as it, and the
/// name of its first kind, or of its pattern where it has none; a mixed one is
/// marked as such.
pub proof fn law_labels_name_tempo_and_kind(c: ClusterView, rate: Ratio)
    requires
        c.bpm >= 0,
        rate.num >= 0,
        rate.den > 0,
    ensures
        exists|digits: Seq<char>| #[trigger]
            unsigned_up_to(digits, u64::MAX) == Some(bpm_at(c.bpm, rate) as u64) && label_of(
                c,
                rate,
            ) == (if c.mixed {
                "~"@
            } else {
                Seq::empty()
            }) + digits + (if c.mixed {
                "BPM Mixed "@
            } else {
                "BPM "@
            }) + (if c.specific_types.len() > 0 {
                c.specific_types[0].0.name()
            } else {
                c.pattern.name()
            }),
{
    let v = bpm_at(c.bpm, rate);
    let digits = whole_text(v);
    law_tempo_at_a_rate(c.bpm, rate);
    law_decimal_text_reads_back(v as nat);
    assert(is_digit(digits[0]));
    assert(digits_value(digits) == v);
    law_whole_numbers_are_read(digits, u64::MAX);
    assert(Seq::empty() + digits =~= digits);
    assert(unsigned_up_to(digits, u64::MAX) == Some(v as u64));
}

/// A published beatmap has a page of its own, at the end of whose address stands
/// its identifier; a local one has none.
pub proof fn law_pages_end_with_identifiers(id: u64)
    ensures
        id >= 0x1_0000_0000_0000 ==> url_of(id).len() == 0,
        id < 0x1_0000_0000_0000 ==> exists|digits: Seq<char>| #[trigger]
            unsigned_up_to(digits, u64::MAX) == Some(id) && url_of(id) == "https://osu.ppy.sh/b/"@
                + digits,
{
    assert(LOCAL_IDS == 0x1_0000_0000_0000);
    let digits = decimal_text(id as nat);
    law_decimal_text_reads_back(id as nat);
    assert(is_digit(digits[0]));
    assert(digits_value(digits) == id);
    law_whole_numbers_are_read(digits, u64::MAX);
    assert(unsigned_up_to(digits, u64::MAX) == Some(id));
}

proof fn lemma_weight_den(a: Seq<Term>, b: Seq<Term>)
    ensures
        weight_den(a + b) == weight_den(a) * weight_den(b),
    decreases b.len(),
{
    let s = a + b;
    if b.len() == 0 {
        assert(s =~= a);
    } else {
        assert(s.drop_last() =~= a + b.drop_last());
        lemma_weight_den(a, b.drop_last());
        let (x, y, d) = (weight_den(a), weight_den(b.drop_last()), b.last().share.den as int);
        assert((x * y) * d == x * (y * d)) by (nonlinear_arith);
    }
}

/// The weight of a term is its share of its amount, and terms weigh together
/// what they weigh apart.
pub proof fn law_weights_add_up(a: Seq<Term>, b: Seq<Term>, t: Term)
    ensures
        weight_num(seq![t]) == t.share.num * t.amount && weight_den(seq![t]) == t.share.den,
        weight_den(a + b) == weight_den(a) * weight_den(b),
        weight_num(a + b) == weight_num(a) * weight_den(b) + weight_num(b) * weight_den(a),
        weight_num(Seq::empty()) == 0,
    decreases b.len(),
{
    let one = seq![t];
    assert(one.drop_last() =~= Seq::empty());
    assert(weight_den(Seq::empty()) == 1 && weight_num(Seq::empty()) == 0);
    assert(weight_num(one) == weight_num(one.drop_last()) * t.share.den + t.share.num * t.amount
        * weight_den(one.drop_last()));
    assert(weight_den(one) == weight_den(one.drop_last()) * t.share.den);
    lemma_weight_den(a, b);
    let s = a + b;
    if b.len() == 0 {
        assert(s =~= a);
    } else {
        let c = b.drop_last();
        assert(s.drop_last() =~= a + c);
        law_weights_add_up(a, c, t);
        let l = b.last();
        let (m, d) = (l.share.num * l.amount, l.share.den as int);
        let (na, da, nc, dc) = (weight_num(a), weight_den(a), weight_num(c), weight_den(c));
        assert(weight_num(s) == (na * dc + nc * da) * d + m * (da * dc));
        let (x, y) = (na * dc, nc * da);
        assert((x + y) * d == x * d + y * d) by (nonlinear_arith);
        assert((na * dc) * d == na * (dc * d)) by (nonlinear_arith);
        assert((nc * da) * d == (nc * d) * da) by (nonlinear_arith);
        assert(m * (da * dc) == (m * dc) * da) by (nonlinear_arith);
        let (v, w) = (nc * d, m * dc);
        assert((v + w) * da == v * da + w * da) by (nonlinear_arith);
    }
}

} // verus!
