//! The names and marks of files and of the records in them.

use crate::figures::law_whole_numbers_are_read;
use crate::moving::lacks;
use crate::number::{
    decimal_text, digits_value, is_digit, law_decimal_text_reads_back, unsigned_up_to,
};
use crate::storage::{is_index_name, normalized_name, snapshot_of};
use crate::text::{begins_with, ends_in, lemma_position_is, position};
use vstd::prelude::*;

verus! {

proof fn lemma_digits(version: u32)
    ensures
        unsigned_up_to(decimal_text(version as nat), u64::MAX) == Some(version as u64),
        lacks(decimal_text(version as nat), ':'),
{
    let s = decimal_text(version as nat);
    law_decimal_text_reads_back(version as nat);
    assert(is_digit(s[0]));
    assert(digits_value(s) == version);
    law_whole_numbers_are_read(s, u64::MAX);
    assert forall|i: int| 0 <= i < s.len() implies #[trigger] s[i] != ':' by {
        assert(is_digit(s[i]));
    }
}

/// The records of a version of an algorithm are marked by both: the version
/// stands before the first colon, in digits, and the algorithm behind it.
pub proof fn law_snapshots_tell_version_and_algorithm(version: u32, algorithm: Seq<char>)
    ensures
        ({
            let s = snapshot_of(version, algorithm);
            let k = position(s, ':');
            &&& k < s.len()
            &&& unsigned_up_to(s.take(k), u64::MAX) == Some(version as u64)
            &&& s.skip(k + 1) == algorithm
        }),
{
    let digits = decimal_text(version as nat);
    let s = snapshot_of(version, algorithm);
    lemma_digits(version);
    reveal_strlit(":");
    assert forall|i: int| 0 <= i < digits.len() implies s[i] != ':' by {
        assert(s[i] == digits[i]);
    }
    lemma_position_is(s, ':', digits.len() as int);
    assert(s.take(digits.len() as int) =~= digits);
    assert(s.skip(digits.len() as int + 1) =~= algorithm);
}

/// The file with the normalized records of a version is named by it, in digits,
/// and so by no other.
pub proof fn law_files_are_named_by_version(a: u32, b: u32)
    ensures
        exists|digits: Seq<char>| #[trigger]
            unsigned_up_to(digits, u64::MAX) == Some(a as u64) && normalized_name(a)
                == "mania-features-v"@ + digits + ".bin"@,
        normalized_name(a) == normalized_name(b) ==> a == b,
{
    lemma_digits(a);
    lemma_digits(b);
    let (x, y) = (decimal_text(a as nat), decimal_text(b as nat));
    let (front, back) = ("mania-features-v"@, ".bin"@);
    assert(unsigned_up_to(x, u64::MAX) == Some(a as u64));
    let (s, t) = (normalized_name(a), normalized_name(b));
    assert(s.len() == front.len() + x.len() + back.len());
    assert(t.len() == front.len() + y.len() + back.len());
    assert(s.subrange(front.len() as int, (front.len() + x.len()) as int) =~= x);
    assert(t.subrange(front.len() as int, (front.len() + y.len()) as int) =~= y);
}

/// Names that start and end as those of indexes do are names of indexes or of
/// their checksums, whatever stands between; names that start otherwise, or end
/// otherwise, are not.
pub proof fn law_index_names_start_and_end_alike(x: Seq<char>, name: Seq<char>)
    ensures
        is_index_name("mania-v"@ + x + ".buckets"@),
        is_index_name("mania-v"@ + x + ".buckets.sha256"@),
        !begins_with(name, "mania-v"@) ==> !is_index_name(name),
        !ends_in(name, ".buckets"@) && !ends_in(name, ".buckets.sha256"@) ==> !is_index_name(name),
{
    let (a, b, c) = ("mania-v"@, ".buckets"@, ".buckets.sha256"@);
    let (s, t) = (a + x + b, a + x + c);
    assert(s.take(a.len() as int) =~= a && t.take(a.len() as int) =~= a);
    assert(s.skip(s.len() - b.len()) =~= b);
    assert(t.skip(t.len() - c.len()) =~= c);
}

} // verus!
