//! Sets of columns as bit masks: column `c` is bit `c`.

use vstd::prelude::*;

verus! {

/// The mask of one column.
pub open spec fn weight(c: int) -> u8 {
    if c == 0 {
        1u8
    } else if c == 1 {
        2u8
    } else if c == 2 {
        4u8
    } else if c == 3 {
        8u8
    } else if c == 4 {
        16u8
    } else if c == 5 {
        32u8
    } else if c == 6 {
        64u8
    } else {
        128u8
    }
}

/// Whether a mask holds a column.
pub open spec fn has(mask: u8, c: int) -> bool {
    mask & weight(c) != 0
}

/// `w` or nothing.
pub open spec fn bit(b: bool, w: u8) -> u8 {
    if b {
        w
    } else {
        0u8
    }
}

/// The mask of the columns that satisfy `p`.
pub open spec fn mask_of(p: spec_fn(int) -> bool) -> u8 {
    bit(p(0), 1u8) | bit(p(1), 2u8) | bit(p(2), 4u8) | bit(p(3), 8u8) | bit(p(4), 16u8) | bit(
        p(5),
        32u8,
    ) | bit(p(6), 64u8) | bit(p(7), 128u8)
}

/// One where `b` holds, else zero.
pub open spec fn one(b: bool) -> nat {
    if b {
        1
    } else {
        0
    }
}

/// How many columns a mask holds.
pub open spec fn ones(mask: u8) -> nat {
    one(has(mask, 0)) + one(has(mask, 1)) + one(has(mask, 2)) + one(has(mask, 3)) + one(
        has(mask, 4),
    ) + one(has(mask, 5)) + one(has(mask, 6)) + one(has(mask, 7))
}

/// The mask of a predicate holds the columns that satisfy it.
pub proof fn lemma_mask_of(p: spec_fn(int) -> bool)
    ensures
        forall|c: int| 0 <= c < 8 ==> #[trigger] has(mask_of(p), c) == p(c),
{
    let (b0, b1, b2, b3) = (bit(p(0), 1u8), bit(p(1), 2u8), bit(p(2), 4u8), bit(p(3), 8u8));
    let (b4, b5, b6, b7) = (bit(p(4), 16u8), bit(p(5), 32u8), bit(p(6), 64u8), bit(p(7), 128u8));
    let m = b0 | b1 | b2 | b3 | b4 | b5 | b6 | b7;
    assert(m & 1 == b0 && m & 2 == b1 && m & 4 == b2 && m & 8 == b3 && m & 16 == b4 && m & 32 == b5
        && m & 64 == b6 && m & 128 == b7) by (bit_vector)
        requires
            b0 == 0 || b0 == 1,
            b1 == 0 || b1 == 2,
            b2 == 0 || b2 == 4,
            b3 == 0 || b3 == 8,
            b4 == 0 || b4 == 16,
            b5 == 0 || b5 == 32,
            b6 == 0 || b6 == 64,
            b7 == 0 || b7 == 128,
            m == b0 | b1 | b2 | b3 | b4 | b5 | b6 | b7,
    ;
}

/// Masks that hold the same columns are the same.
pub proof fn lemma_same_mask(a: u8, b: u8)
    requires
        forall|c: int| 0 <= c < 8 ==> #[trigger] has(a, c) == has(b, c),
    ensures
        a == b,
{
    assert(has(a, 0) == has(b, 0));
    assert(has(a, 1) == has(b, 1));
    assert(has(a, 2) == has(b, 2));
    assert(has(a, 3) == has(b, 3));
    assert(has(a, 4) == has(b, 4));
    assert(has(a, 5) == has(b, 5));
    assert(has(a, 6) == has(b, 6));
    assert(has(a, 7) == has(b, 7));
    assert(a == b) by (bit_vector)
        requires
            (a & 1 != 0) == (b & 1 != 0),
            (a & 2 != 0) == (b & 2 != 0),
            (a & 4 != 0) == (b & 4 != 0),
            (a & 8 != 0) == (b & 8 != 0),
            (a & 16 != 0) == (b & 16 != 0),
            (a & 32 != 0) == (b & 32 != 0),
            (a & 64 != 0) == (b & 64 != 0),
            (a & 128 != 0) == (b & 128 != 0),
    ;
}

/// A union holds what either part holds.
pub proof fn lemma_union(a: u8, b: u8)
    ensures
        forall|c: int| #[trigger] has(a | b, c) == (has(a, c) || has(b, c)),
{
    assert forall|c: int| #[trigger] has(a | b, c) == (has(a, c) || has(b, c)) by {
        let w = weight(c);
        assert(((a | b) & w != 0) == (a & w != 0 || b & w != 0)) by (bit_vector);
    }
}

/// An intersection holds what both parts hold.
pub proof fn lemma_common(a: u8, b: u8)
    ensures
        forall|c: int| #[trigger] has(a & b, c) == (has(a, c) && has(b, c)),
{
    assert forall|c: int| #[trigger] has(a & b, c) == (has(a, c) && has(b, c)) by {
        let w = weight(c);
        assert(((a & b) & w != 0) == (a & w != 0 && b & w != 0)) by (bit_vector)
            requires
                w == 1 || w == 2 || w == 4 || w == 8 || w == 16 || w == 32 || w == 64 || w == 128,
        ;
    }
}

/// The mask of one column holds that column alone; the empty mask holds none.
pub proof fn lemma_weight()
    ensures
        forall|c: int, d: int|
            0 <= c < 8 && 0 <= d < 8 ==> #[trigger] has(weight(c), d) == (c == d),
        forall|c: int| !#[trigger] has(0u8, c),
{
    assert forall|c: int, d: int| 0 <= c < 8 && 0 <= d < 8 implies #[trigger] has(weight(c), d)
        == (c == d) by {
        let v = weight(c);
        let w = weight(d);
        assert((v & w != 0) == (v == w)) by (bit_vector)
            requires
                w == 1 || w == 2 || w == 4 || w == 8 || w == 16 || w == 32 || w == 64 || w == 128,
                v == 1 || v == 2 || v == 4 || v == 8 || v == 16 || v == 32 || v == 64 || v == 128,
        ;
    }
    assert forall|c: int| !#[trigger] has(0u8, c) by {
        let w = weight(c);
        assert(0u8 & w == 0) by (bit_vector);
    }
}

/// The mask of a column.
pub fn weigh(c: u8) -> (r: u8)
    requires
        c < 8,
    ensures
        r == weight(c as int),
{
    match c {
        0 => 1,
        1 => 2,
        2 => 4,
        3 => 8,
        4 => 16,
        5 => 32,
        6 => 64,
        _ => 128,
    }
}

/// Whether a mask holds a column.
pub fn holds(mask: u8, c: u8) -> (r: bool)
    requires
        c < 8,
    ensures
        r == has(mask, c as int),
{
    mask & weigh(c) != 0
}

/// How many columns a mask holds.
pub fn count(mask: u8) -> (r: u8)
    ensures
        r == ones(mask),
        r <= 8,
{
    let mut n: u8 = 0;
    if mask & 1 != 0 {
        n = n + 1;
    }
    if mask & 2 != 0 {
        n = n + 1;
    }
    if mask & 4 != 0 {
        n = n + 1;
    }
    if mask & 8 != 0 {
        n = n + 1;
    }
    if mask & 16 != 0 {
        n = n + 1;
    }
    if mask & 32 != 0 {
        n = n + 1;
    }
    if mask & 64 != 0 {
        n = n + 1;
    }
    if mask & 128 != 0 {
        n = n + 1;
    }
    n
}

} // verus!
