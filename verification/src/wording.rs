//! How texts are cut: what trimming leaves and what splitting gives.

use crate::counting::how_many;
use crate::text::{
    begins_with, ends_in, is_white, lemma_position, position, split, trimmed, trimmed_end,
    trimmed_start,
};
use vstd::prelude::*;

verus! {

/// Whether all characters from `a` to before `b` are white space.
pub open spec fn all_white(s: Seq<char>, a: int, b: int) -> bool {
    forall|i: int| a <= i < b ==> is_white(#[trigger] s[i])
}

proof fn lemma_trimmed_start(s: Seq<char>) -> (a: int)
    ensures
        0 <= a <= s.len(),
        trimmed_start(s) == s.skip(a),
        all_white(s, 0, a),
        a < s.len() ==> !is_white(s[a]),
    decreases s.len(),
{
    if s.len() > 0 && is_white(s[0]) {
        let b = lemma_trimmed_start(s.skip(1));
        assert(s.skip(1).skip(b) =~= s.skip(b + 1));
        assert forall|i: int| 0 <= i < b + 1 implies is_white(#[trigger] s[i]) by {
            if i > 0 {
                assert(s.skip(1)[i - 1] == s[i]);
            }
        }
        if b + 1 < s.len() {
            assert(s.skip(1)[b] == s[b + 1]);
        }
        b + 1
    } else {
        assert(s.skip(0) =~= s);
        0
    }
}

proof fn lemma_trimmed_end(s: Seq<char>) -> (b: int)
    ensures
        0 <= b <= s.len(),
        trimmed_end(s) == s.take(b),
        all_white(s, b, s.len() as int),
        b > 0 ==> !is_white(s[b - 1]),
    decreases s.len(),
{
    if s.len() > 0 && is_white(s.last()) {
        let front = s.drop_last();
        let b = lemma_trimmed_end(front);
        assert(front.take(b) =~= s.take(b));
        assert forall|i: int| b <= i < s.len() implies is_white(#[trigger] s[i]) by {
            if i < front.len() {
                assert(front[i] == s[i]);
            }
        }
        if b > 0 {
            assert(front[b - 1] == s[b - 1]);
        }
        b
    } else {
        assert(s.take(s.len() as int) =~= s);
        s.len() as int
    }
}

/// Trimming takes white space off both ends of a text, and nothing else: what is
/// left begins and ends with another character, or is empty.
pub proof fn law_trimming_takes_white_space(s: Seq<char>)
    ensures
        exists|a: int, b: int|
            #![trigger s.subrange(a, b)]
            0 <= a <= b <= s.len() && trimmed(s) == s.subrange(a, b) && all_white(s, 0, a)
                && all_white(s, b, s.len() as int),
        trimmed(s).len() > 0 ==> !is_white(trimmed(s)[0]) && !is_white(trimmed(s).last()),
{
    let a = lemma_trimmed_start(s);
    let rest = s.skip(a);
    let b = lemma_trimmed_end(rest);
    assert(rest.take(b) =~= s.subrange(a, a + b));
    assert forall|i: int| a + b <= i < s.len() implies is_white(#[trigger] s[i]) by {
        assert(rest[i - a] == s[i]);
    }
    if b > 0 {
        assert(rest[0] == s[a]);
        assert(rest.take(b)[0] == s[a]);
        assert(rest.take(b).last() == rest[b - 1]);
    }
    assert(all_white(s, a + b, s.len() as int));
    assert(trimmed(s) == s.subrange(a, a + b));
}

/// White space is the tab to the carriage return, the space, and what the
/// character tables list besides.
pub proof fn law_white_space()
    ensures
        is_white(' ') && is_white('\t') && is_white('\n') && is_white('\r'),
        forall|c: char| #[trigger]
            is_white(c) ==> c <= ' ' || c == '\u{85}' || c == '\u{a0}' || c == '\u{1680}'
                || '\u{2000}' <= c <= '\u{3000}',
        forall|c: char| '!' <= c <= '~' ==> !#[trigger] is_white(c),
{
}

/// Splitting gives pieces without the separator, one more than there are
/// separators.
pub proof fn law_pieces_hold_no_separator(s: Seq<char>, sep: char)
    ensures
        split(s, sep).len() == how_many(s.len(), |i: int| s[i] == sep) + 1,
        forall|k: int, i: int|
            0 <= k < split(s, sep).len() && 0 <= i < split(s, sep)[k].len() ==> #[trigger] split(
                s,
                sep,
            )[k][i] != sep,
    decreases s.len(),
{
    lemma_position(s, sep);
    let p = position(s, sep);
    let all = split(s, sep);
    lemma_count_until(s, sep, p as nat);
    if p < s.len() {
        let rest = s.skip(p + 1);
        law_pieces_hold_no_separator(rest, sep);
        lemma_count_from(s, sep, p + 1, rest.len());
        assert forall|k: int, i: int| 0 <= k < all.len() && 0 <= i < all[k].len() implies #[trigger] all[k][i]
            != sep by {
            if k == 0 {
                assert(all[0] == s.take(p));
            } else {
                assert(all[k] == split(rest, sep)[k - 1]);
            }
        }
    } else {
        assert(all =~= seq![s]);
    }
}

proof fn lemma_count_until(s: Seq<char>, sep: char, n: nat)
    requires
        n <= s.len(),
        forall|i: int| 0 <= i < n ==> s[i] != sep,
    ensures
        how_many(n, |i: int| s[i] == sep) == 0,
    decreases n,
{
    if n > 0 {
        lemma_count_until(s, sep, (n - 1) as nat);
    }
}

proof fn lemma_count_from(s: Seq<char>, sep: char, a: int, n: nat)
    requires
        0 < a,
        a + n <= s.len(),
        s[a - 1] == sep,
        forall|i: int| 0 <= i < a - 1 ==> s[i] != sep,
    ensures
        how_many((a + n) as nat, |i: int| s[i] == sep) == how_many(
            n,
            |i: int| s.skip(a)[i] == sep,
        ) + 1,
    decreases n,
{
    if n > 0 {
        lemma_count_from(s, sep, a, (n - 1) as nat);
        assert(s.skip(a)[n - 1] == s[a + n - 1]);
    } else {
        lemma_count_until(s, sep, (a - 1) as nat);
    }
}

/// A text begins with another just where that one and some more make it up, and
/// ends with it likewise.
pub proof fn law_beginnings_and_ends(s: Seq<char>, t: Seq<char>, more: Seq<char>)
    ensures
        begins_with(t + more, t),
        ends_in(more + t, t),
        begins_with(s, t) ==> s == t + s.skip(t.len() as int),
        ends_in(s, t) ==> s == s.take(s.len() - t.len()) + t,
{
    assert((t + more).take(t.len() as int) =~= t);
    assert((more + t).skip(more.len() as int) =~= t);
    if begins_with(s, t) {
        assert(s =~= s.take(t.len() as int) + s.skip(t.len() as int));
    }
    if ends_in(s, t) {
        assert(s =~= s.take(s.len() - t.len()) + s.skip(s.len() - t.len()));
    }
}

} // verus!
