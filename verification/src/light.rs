//! What a file says it is before its notes are read, and which files are
//! analyzed.

use crate::mma::{
    key_number, light_metadata, mma_of, mode_number, read_meta, MetaSection, MmaError,
};
use crate::moving::lacks;
use crate::number::{decimal, unsigned_up_to, Number, TICKS};
use crate::parser::chart_of;
use crate::rate::at_rate;
use crate::sectioning::{assigns, lemma_assigns, lemma_position_of};
use crate::text::{begins_with, ends_in, position, split, trimmed};
use crate::types::ManiaGameMod;
use vstd::prelude::*;

verus! {

/// Whether line `i` stands in brackets.
pub open spec fn is_bracketed(lines: Seq<Seq<char>>, i: int) -> bool {
    begins_with(trimmed(lines[i]), "["@) && ends_in(trimmed(lines[i]), "]"@)
}

/// Whether the last line in brackets before line `i` is this header.
pub open spec fn is_under(lines: Seq<Seq<char>>, i: int, header: Seq<char>) -> bool {
    exists|j: int|
        0 <= j < i && #[trigger] is_bracketed(lines, j) && trimmed(lines[j]) == header
            && forall|k: int| j < k < i ==> !#[trigger] is_bracketed(lines, k)
}

/// Whether line `i` of a file assigns a key under a header.
pub open spec fn says(lines: Seq<Seq<char>>, i: int, header: Seq<char>, key: Seq<char>) -> bool {
    is_under(lines, i, header) && !is_bracketed(lines, i) && assigns(trimmed(lines[i]), key)
}

proof fn lemma_under(lines: Seq<Seq<char>>, n: int, header: Seq<char>)
    requires
        0 < n <= lines.len(),
    ensures
        is_bracketed(lines, n - 1) ==> (is_under(lines, n, header) <==> trimmed(lines[n - 1])
            == header),
        !is_bracketed(lines, n - 1) ==> (is_under(lines, n, header) <==> is_under(
            lines,
            n - 1,
            header,
        )),
{
    if is_under(lines, n, header) {
        let j = choose|j: int|
            0 <= j < n && #[trigger] is_bracketed(lines, j) && trimmed(lines[j]) == header
                && forall|k: int| j < k < n ==> !#[trigger] is_bracketed(lines, k);
        if is_bracketed(lines, n - 1) {
            assert(j == n - 1);
        } else {
            assert(is_bracketed(lines, j) && j < n - 1);
        }
    }
    if !is_bracketed(lines, n - 1) && is_under(lines, n - 1, header) {
        let j = choose|j: int|
            0 <= j < n - 1 && #[trigger] is_bracketed(lines, j) && trimmed(lines[j]) == header
                && forall|k: int| j < k < n - 1 ==> !#[trigger] is_bracketed(lines, k);
        assert(is_bracketed(lines, j));
    }
}

proof fn lemma_step(lines: Seq<Seq<char>>, n: int)
    requires
        0 < n <= lines.len(),
    ensures
        ({
            let (section, known) = read_meta(lines.take(n - 1));
            let (next, then_known) = read_meta(lines.take(n));
            let line = trimmed(lines[n - 1]);
            let value = trimmed(line.skip(position(line, ':') + 1));
            &&& next == (if is_bracketed(lines, n - 1) {
                if line == "[General]"@ {
                    MetaSection::General
                } else if line == "[Difficulty]"@ {
                    MetaSection::Difficulty
                } else {
                    MetaSection::Other
                }
            } else {
                section
            })
            &&& then_known.mode == (if !is_bracketed(lines, n - 1) && section == MetaSection::General
                && assigns(line, "Mode"@) {
                mode_number(value)
            } else {
                known.mode
            })
            &&& then_known.key_count == (if !is_bracketed(lines, n - 1) && section
                == MetaSection::Difficulty && assigns(line, "CircleSize"@) {
                key_number(value)
            } else {
                known.key_count
            })
        }),
{
    assert(lines.take(n).drop_last() =~= lines.take(n - 1));
    assert(lines.take(n).last() == lines[n - 1]);
    let line = trimmed(lines[n - 1]);
    lemma_assigns(line, "Mode"@);
    lemma_assigns(line, "CircleSize"@);
}

proof fn lemma_headers_differ()
    ensures
        "[General]"@ != "[Difficulty]"@,
{
    reveal_strlit("[General]");
    reveal_strlit("[Difficulty]");
    assert("[General]"@.len() == 9 && "[Difficulty]"@.len() == 12);
}

proof fn lemma_sections(lines: Seq<Seq<char>>, n: int)
    requires
        0 <= n <= lines.len(),
    ensures
        read_meta(lines.take(n)).0 == MetaSection::General <==> is_under(lines, n, "[General]"@),
        read_meta(lines.take(n)).0 == MetaSection::Difficulty <==> is_under(
            lines,
            n,
            "[Difficulty]"@,
        ),
    decreases n,
{
    lemma_headers_differ();
    if n > 0 {
        lemma_sections(lines, n - 1);
        lemma_step(lines, n);
        lemma_under(lines, n, "[General]"@);
        lemma_under(lines, n, "[Difficulty]"@);
    }
}

proof fn lemma_mode(lines: Seq<Seq<char>>, i: int, k: int, n: int)
    requires
        -1 <= i < n <= lines.len() || i == n - 1 == -1,
        forall|j: int| i < j < n ==> !#[trigger] says(lines, j, "[General]"@, "Mode"@),
        i >= 0 ==> says(lines, i, "[General]"@, "Mode"@) && 0 <= k < trimmed(lines[i]).len()
            && trimmed(lines[i])[k] == ':' && lacks(trimmed(lines[i]).take(k), ':'),
    ensures
        read_meta(lines.take(n)).1.mode == (if i >= 0 {
            mode_number(trimmed(trimmed(lines[i]).skip(k + 1)))
        } else {
            None
        }),
    decreases n,
{
    if n > 0 {
        lemma_step(lines, n);
        lemma_sections(lines, n - 1);
        if i == n - 1 {
            lemma_position_of(trimmed(lines[i]), k);
        } else {
            assert(!says(lines, n - 1, "[General]"@, "Mode"@));
            lemma_mode(lines, i, k, n - 1);
        }
    }
}

proof fn lemma_key_count(lines: Seq<Seq<char>>, i: int, k: int, n: int)
    requires
        -1 <= i < n <= lines.len() || i == n - 1 == -1,
        forall|j: int| i < j < n ==> !#[trigger] says(lines, j, "[Difficulty]"@, "CircleSize"@),
        i >= 0 ==> says(lines, i, "[Difficulty]"@, "CircleSize"@) && 0 <= k < trimmed(
            lines[i],
        ).len() && trimmed(lines[i])[k] == ':' && lacks(trimmed(lines[i]).take(k), ':'),
    ensures
        read_meta(lines.take(n)).1.key_count == (if i >= 0 {
            key_number(trimmed(trimmed(lines[i]).skip(k + 1)))
        } else {
            None
        }),
    decreases n,
{
    if n > 0 {
        lemma_step(lines, n);
        lemma_sections(lines, n - 1);
        if i == n - 1 {
            lemma_position_of(trimmed(lines[i]), k);
        } else {
            assert(!says(lines, n - 1, "[Difficulty]"@, "CircleSize"@));
            lemma_key_count(lines, i, k, n - 1);
        }
    }
}

/// Whether a number of keys is that of a text: the nearest, halves upwards, as
/// far as a byte goes.
pub open spec fn is_nearest(v: Seq<char>, keys: Option<u8>) -> bool {
    match decimal(v) {
        Some(Number::Ticks(t)) => keys matches Some(k) && {
            let unit = 1_000_000_000_000int;
            &&& t < 0 ==> k == 0
            &&& t >= 0 && k < 255 ==> (2 * k - 1) * unit <= 2 * t < (2 * k + 1) * unit
            &&& k == 255 ==> 2 * t >= 509 * unit
        },
        _ => keys is None,
    }
}

proof fn lemma_nearest(v: Seq<char>)
    ensures
        is_nearest(v, key_number(v)),
{
    assert(TICKS == 1_000_000_000_000);
}

/// The game mode of a file is what stands behind the first colon of the last
/// line `i` that assigns it under its header, where that is a byte; there is
/// none where no line does.
pub proof fn law_last_mode_counts(text: Seq<char>, i: int, k: int)
    requires
        ({
            let lines = split(text, '\n');
            &&& -1 <= i < lines.len()
            &&& forall|j: int|
                i < j < lines.len() ==> !#[trigger] says(lines, j, "[General]"@, "Mode"@)
            &&& i >= 0 ==> says(lines, i, "[General]"@, "Mode"@) && 0 <= k < trimmed(lines[i]).len()
                && trimmed(lines[i])[k] == ':' && lacks(trimmed(lines[i]).take(k), ':')
        }),
    ensures
        i < 0 ==> light_metadata(text).mode is None,
        i >= 0 ==> (match unsigned_up_to(trimmed(trimmed(split(text, '\n')[i]).skip(k + 1)), 255) {
            Some(v) => light_metadata(text).mode == Some(v as u8),
            None => light_metadata(text).mode is None,
        }),
{
    let lines = split(text, '\n');
    lemma_mode(lines, i, k, lines.len() as int);
    assert(lines.take(lines.len() as int) =~= lines);
}

/// The number of keys that a file says to have is the number behind the first
/// colon of the last line `i` that assigns it under its header, to the nearest
/// whole one; there is none where no line does.
pub proof fn law_last_key_count_counts(text: Seq<char>, i: int, k: int)
    requires
        ({
            let lines = split(text, '\n');
            &&& -1 <= i < lines.len()
            &&& forall|j: int|
                i < j < lines.len() ==> !#[trigger] says(
                    lines,
                    j,
                    "[Difficulty]"@,
                    "CircleSize"@,
                )
            &&& i >= 0 ==> says(lines, i, "[Difficulty]"@, "CircleSize"@) && 0 <= k < trimmed(
                lines[i],
            ).len() && trimmed(lines[i])[k] == ':' && lacks(trimmed(lines[i]).take(k), ':')
        }),
    ensures
        i < 0 ==> light_metadata(text).key_count is None,
        i >= 0 ==> is_nearest(
            trimmed(trimmed(split(text, '\n')[i]).skip(k + 1)),
            light_metadata(text).key_count,
        ),
{
    let lines = split(text, '\n');
    lemma_key_count(lines, i, k, lines.len() as int);
    assert(lines.take(lines.len() as int) =~= lines);
    if i >= 0 {
        lemma_nearest(trimmed(trimmed(lines[i]).skip(k + 1)));
    }
}

/// Only files of the right game mode with 4, 6 or 7 keys are analyzed, and an
/// analysis has the number of keys that the file says and its chart has. Each
/// other file is refused for the first of these that it lacks.
pub proof fn law_which_files_are_analyzed(text: Seq<char>, m: ManiaGameMod)
    ensures
        ({
            let (mode, keys) = (light_metadata(text).mode, light_metadata(text).key_count);
            let played = keys == Some(4u8) || keys == Some(6u8) || keys == Some(7u8);
            let r = mma_of(text, m);
            &&& mode != Some(3u8) <==> (r matches Err(MmaError::OtherMode))
            &&& mode == Some(3u8) && keys is None <==> (r matches Err(MmaError::NoKeyCount))
            &&& mode == Some(3u8) && keys is Some && !played <==> (r matches Err(
                MmaError::UnsupportedKeyCount(k),
            ) && keys == Some(k))
            &&& r matches Ok(a) ==> mode == Some(3u8) && played && keys == Some(a.key_count) && (
            at_rate(text, m.spec_rate()) matches Ok(moved) && chart_of(moved) matches Ok(c) && c.keys
                == a.key_count)
            &&& mode == Some(3u8) && played ==> match at_rate(text, m.spec_rate()) {
                Err(_) => (r matches Err(MmaError::NoHitObjects)),
                Ok(moved) => match chart_of(moved) {
                    Err(x) => (r matches Err(MmaError::Chart(y)) && y == x),
                    Ok(c) => c.keys != keys->0 <==> (r matches Err(
                        MmaError::KeyCountChanged { said, found },
                    ) && said == keys->0 && found == c.keys as usize),
                },
            }
        }),
{
}

} // verus!
