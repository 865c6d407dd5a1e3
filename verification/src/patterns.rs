//! Key patterns, and where rows show them.
//!
//! A matcher reads the first rows of a window and says how many of them show
//! its pattern; zero means that they do not.

use crate::primitives::{has_column, views, Direction, Primitive, PrimitiveView};
use vstd::prelude::*;

verus! {

/// How many rows a matcher may read.
pub const MATCHER_WINDOW: usize = 8;

/// Whether rows say how many columns they strike.
pub open spec fn consistent(w: Seq<PrimitiveView>) -> bool {
    forall|i: int| 0 <= i < w.len() ==> (#[trigger] w[i]).notes == w[i].raw_notes.len()
}

/// `n` rows if `b` holds, else none.
pub open spec fn rows_if(b: bool, n: nat) -> nat {
    if b {
        n
    } else {
        0
    }
}

pub(crate) fn if_rows(b: bool, n: usize) -> (r: usize)
    ensures
        r == rows_if(b, n as nat),
{
    if b {
        n
    } else {
        0
    }
}

/// Whether none of the first `n` rows repeats a column.
pub open spec fn no_jacks(w: Seq<PrimitiveView>, n: int) -> bool {
    forall|i: int| 0 <= i < n ==> (#[trigger] w[i]).jacks == 0
}

fn without_jacks(xs: &[Primitive], n: usize) -> (r: bool)
    requires
        n <= xs@.len(),
    ensures
        r == no_jacks(views(xs@), n as int),
{
    let ghost w = views(xs@);
    let mut i: usize = 0;
    while i < n
        invariant
            i <= n <= xs@.len(),
            w == views(xs@),
            forall|j: int| 0 <= j < i ==> (#[trigger] w[j]).jacks == 0,
        decreases n - i,
    {
        assert(w[i as int] == xs@[i as int]@);
        if xs[i].jacks != 0 {
            return false;
        }
        i = i + 1;
    }
    true
}

/// Whether two lists of columns are the same.
fn same_columns(a: &[usize], b: &[usize]) -> (r: bool)
    ensures
        r == (a@ == b@),
{
    if a.len() != b.len() {
        return false;
    }
    let mut i: usize = 0;
    while i < a.len()
        invariant
            i <= a@.len(),
            a@.len() == b@.len(),
            forall|j: int| 0 <= j < i ==> a@[j] == b@[j],
        decreases a@.len() - i,
    {
        if a[i] != b[i] {
            assert(a@[i as int] != b@[i as int]);
            return false;
        }
        i = i + 1;
    }
    assert(a@ =~= b@);
    true
}

/// Whether two lists of columns have one in common.
pub open spec fn meet(a: Seq<usize>, b: Seq<usize>) -> bool {
    exists|i: int| 0 <= i < a.len() && b.contains(#[trigger] a[i])
}

pub(crate) fn columns_meet(a: &[usize], b: &[usize]) -> (r: bool)
    ensures
        r == meet(a@, b@),
{
    let mut i: usize = 0;
    while i < a.len()
        invariant
            i <= a@.len(),
            forall|j: int| 0 <= j < i ==> !b@.contains(#[trigger] a@[j]),
        decreases a@.len() - i,
    {
        if has_column(b, a[i]) {
            assert(b@.contains(a@[i as int]));
            return true;
        }
        i = i + 1;
    }
    false
}

/// Five single notes without repeats that do not come back to where they began.
pub open spec fn stream_rows(w: Seq<PrimitiveView>) -> nat {
    rows_if(
        w.len() >= 5 && no_jacks(w, 5) && (forall|i: int|
            0 <= i < 5 ==> (#[trigger] w[i]).notes == 1) && w[0].raw_notes[0] != w[4].raw_notes[0],
        5,
    )
}

/// How many rows match [`stream_rows`].
pub fn core_stream(xs: &[Primitive]) -> (r: usize)
    requires
        consistent(views(xs@)),
    ensures
        r == stream_rows(views(xs@)),
{
    let ghost w = views(xs@);
    if xs.len() < 5 || !without_jacks(xs, 5) {
        return 0;
    }
    let mut i: usize = 0;
    while i < 5
        invariant
            i <= 5 <= xs@.len(),
            w == views(xs@),
            forall|j: int| 0 <= j < i ==> (#[trigger] w[j]).notes == 1,
        decreases 5 - i,
    {
        assert(w[i as int] == xs@[i as int]@);
        if xs[i].notes != 1 {
            return 0;
        }
        i = i + 1;
    }
    assert(w[0] == xs@[0]@ && w[4] == xs@[4]@);
    if_rows(xs[0].raw_notes[0] != xs[4].raw_notes[0], 5)
}

/// A row that repeats two columns or more, not too slowly.
pub open spec fn jack_rows(w: Seq<PrimitiveView>) -> nat {
    rows_if(w.len() > 0 && w[0].jacks > 1 && w[0].ms_per_beat < 2000, 1)
}

/// How many rows match [`jack_rows`].
pub fn core_jacks(xs: &[Primitive]) -> (r: usize)
    ensures
        r == jack_rows(views(xs@)),
{
    if_rows(xs.len() > 0 && xs[0].jacks > 1 && xs[0].ms_per_beat < 2000, 1)
}

/// A chord, and another within three rows, without repeats.
pub open spec fn chordstream_rows(w: Seq<PrimitiveView>) -> nat {
    rows_if(
        w.len() >= 4 && w[0].notes > 1 && no_jacks(w, 4) && (w[1].notes > 1 || w[2].notes > 1
            || w[3].notes > 1),
        4,
    )
}

/// How many rows match [`chordstream_rows`].
pub fn core_chordstream(xs: &[Primitive]) -> (r: usize)
    ensures
        r == chordstream_rows(views(xs@)),
{
    if_rows(
        xs.len() >= 4 && xs[0].notes > 1 && without_jacks(xs, 4) && (xs[1].notes > 1 || xs[2].notes
            > 1 || xs[3].notes > 1),
        4,
    )
}

/// Whether a row shows anything of a hold.
pub open spec fn shows_hold(p: PrimitiveView) -> bool {
    p.ln_heads.len() > 0 || p.ln_bodies.len() > 0 || p.ln_tails.len() > 0
}

pub(crate) fn hold_shown(p: &Primitive) -> (r: bool)
    ensures
        r == shows_hold(p@),
{
    p.ln_heads.len() > 0 || p.ln_bodies.len() > 0 || p.ln_tails.len() > 0
}

/// A row that shows anything of a hold.
pub open spec fn coordination_rows(w: Seq<PrimitiveView>) -> nat {
    rows_if(w.len() > 0 && shows_hold(w[0]), 1)
}

/// How many rows match [`coordination_rows`].
pub fn core_coordination(xs: &[Primitive]) -> (r: usize)
    ensures
        r == coordination_rows(views(xs@)),
{
    if_rows(xs.len() > 0 && hold_shown(&xs[0]), 1)
}

/// Whether the first row starts a hold.
pub open spec fn starts_hold(w: Seq<PrimitiveView>) -> bool {
    w.len() > 0 && w[0].ln_heads.len() > 0
}

pub(crate) fn is_ln_head_context(xs: &[Primitive]) -> (r: bool)
    ensures
        r == starts_hold(views(xs@)),
{
    xs.len() > 0 && xs[0].ln_heads.len() > 0
}

/// One row, if it starts a hold.
pub fn core_density(xs: &[Primitive]) -> (r: usize)
    ensures
        r == rows_if(starts_hold(views(xs@)), 1),
{
    if_rows(is_ln_head_context(xs), 1)
}

/// One row, if it starts a hold.
pub fn core_wildcard(xs: &[Primitive]) -> (r: usize)
    ensures
        r == rows_if(starts_hold(views(xs@)), 1),
{
    if_rows(is_ln_head_context(xs), 1)
}

/// A chord of three or more, and another that repeats part of it.
pub open spec fn chordjack_rows(w: Seq<PrimitiveView>) -> nat {
    rows_if(
        w.len() >= 2 && w[0].notes > 2 && w[1].notes > 1 && w[1].jacks >= 1 && (w[1].notes
            < w[0].notes || w[1].jacks < w[1].notes),
        2,
    )
}

pub(crate) fn is_chordjack(a: &Primitive, b: &Primitive) -> (r: bool)
    ensures
        r == (a.notes > 2 && b.notes > 1 && b.jacks >= 1 && (b.notes < a.notes || b.jacks
            < b.notes)),
{
    a.notes > 2 && b.notes > 1 && b.jacks >= 1 && (b.notes < a.notes || b.jacks < b.notes)
}

/// How many rows match [`chordjack_rows`].
pub fn jacks_chordjacks(xs: &[Primitive]) -> (r: usize)
    ensures
        r == chordjack_rows(views(xs@)),
{
    if_rows(xs.len() >= 2 && is_chordjack(&xs[0], &xs[1]), 2)
}

/// A repeat, and none in the next row.
pub open spec fn minijack_rows(w: Seq<PrimitiveView>) -> nat {
    rows_if(w.len() >= 2 && w[0].jacks > 0 && w[1].jacks == 0, 2)
}

/// How many rows match [`minijack_rows`].
pub fn jacks_minijacks(xs: &[Primitive]) -> (r: usize)
    ensures
        r == minijack_rows(views(xs@)),
{
    if_rows(xs.len() >= 2 && xs[0].jacks > 0 && xs[1].jacks == 0, 2)
}

/// Whether rows 1 to 4 all strike a column.
pub open spec fn kept(w: Seq<PrimitiveView>, column: usize) -> bool {
    forall|i: int| 1 <= i < 5 ==> (#[trigger] w[i]).raw_notes.contains(column)
}

/// Five rows with repeats, one column in all of them.
pub open spec fn longjack_rows(w: Seq<PrimitiveView>) -> nat {
    rows_if(
        w.len() >= 5 && (forall|i: int| 0 <= i < 5 ==> (#[trigger] w[i]).jacks > 0) && (exists|
            k: int,
        |
            0 <= k < w[0].raw_notes.len() && kept(w, #[trigger] w[0].raw_notes[k])),
        5,
    )
}

fn column_kept(xs: &[Primitive], column: usize) -> (r: bool)
    requires
        xs@.len() >= 5,
    ensures
        r == kept(views(xs@), column),
{
    let ghost w = views(xs@);
    let mut i: usize = 1;
    while i < 5
        invariant
            1 <= i <= 5 <= xs@.len(),
            w == views(xs@),
            forall|j: int| 1 <= j < i ==> (#[trigger] w[j]).raw_notes.contains(column),
        decreases 5 - i,
    {
        assert(w[i as int] == xs@[i as int]@);
        if !has_column(xs[i].raw_notes.as_slice(), column) {
            return false;
        }
        i = i + 1;
    }
    true
}

/// How many rows match [`longjack_rows`].
pub fn jacks_longjacks(xs: &[Primitive]) -> (r: usize)
    ensures
        r == longjack_rows(views(xs@)),
{
    let ghost w = views(xs@);
    if xs.len() < 5 {
        return 0;
    }
    let mut i: usize = 0;
    while i < 5
        invariant
            i <= 5 <= xs@.len(),
            w == views(xs@),
            forall|j: int| 0 <= j < i ==> (#[trigger] w[j]).jacks > 0,
        decreases 5 - i,
    {
        assert(w[i as int] == xs@[i as int]@);
        if xs[i].jacks == 0 {
            return 0;
        }
        i = i + 1;
    }
    assert(w[0] == xs@[0]@);
    let mut k: usize = 0;
    while k < xs[0].raw_notes.len()
        invariant
            5 <= xs@.len(),
            w == views(xs@),
            w[0].raw_notes == xs@[0].raw_notes@,
            k <= xs@[0].raw_notes@.len(),
            forall|j: int| 0 <= j < 5 ==> (#[trigger] w[j]).jacks > 0,
            forall|j: int| 0 <= j < k ==> !kept(w, #[trigger] w[0].raw_notes[j]),
        decreases xs@[0].raw_notes@.len() - k,
    {
        if column_kept(xs, xs[0].raw_notes[k]) {
            assert(kept(w, w[0].raw_notes[k as int]));
            return 5;
        }
        k = k + 1;
    }
    0
}

/// All four columns, then two rows without repeats.
pub open spec fn quadstream_rows(w: Seq<PrimitiveView>) -> nat {
    rows_if(w.len() >= 4 && w[0].notes == 4 && w[2].jacks == 0 && w[3].jacks == 0, 4)
}

/// How many rows match [`quadstream_rows`].
pub fn jacks_4k_quadstream(xs: &[Primitive]) -> (r: usize)
    ensures
        r == quadstream_rows(views(xs@)),
{
    if_rows(xs.len() >= 4 && xs[0].notes == 4 && xs[2].jacks == 0 && xs[3].jacks == 0, 4)
}

/// Whether a column of the first row occurs in the next two.
pub open spec fn runs_through(w: Seq<PrimitiveView>) -> bool {
    exists|k: int|
        0 <= k < w[0].raw_notes.len() && w[1].raw_notes.contains(#[trigger] w[0].raw_notes[k])
            && w[2].raw_notes.contains(w[0].raw_notes[k])
}

/// Two rows that each repeat one column, not the same through all three.
pub open spec fn glut_rows(w: Seq<PrimitiveView>) -> nat {
    rows_if(w.len() >= 3 && w[1].jacks == 1 && w[2].jacks == 1 && !runs_through(w), 3)
}

/// How many rows match [`glut_rows`].
pub fn jacks_4k_gluts(xs: &[Primitive]) -> (r: usize)
    ensures
        r == glut_rows(views(xs@)),
{
    let ghost w = views(xs@);
    if xs.len() < 3 || xs[1].jacks != 1 || xs[2].jacks != 1 {
        return 0;
    }
    assert(w[0] == xs@[0]@ && w[1] == xs@[1]@ && w[2] == xs@[2]@);
    let mut k: usize = 0;
    while k < xs[0].raw_notes.len()
        invariant
            3 <= xs@.len(),
            w == views(xs@),
            w[0] == xs@[0]@ && w[1] == xs@[1]@ && w[2] == xs@[2]@,
            k <= xs@[0].raw_notes@.len(),
            forall|j: int|
                0 <= j < k ==> !(w[1].raw_notes.contains(#[trigger] w[0].raw_notes[j])
                    && w[2].raw_notes.contains(w[0].raw_notes[j])),
        decreases xs@[0].raw_notes@.len() - k,
    {
        let column: usize = xs[0].raw_notes[k];
        if has_column(xs[1].raw_notes.as_slice(), column) && has_column(
            xs[2].raw_notes.as_slice(),
            column,
        ) {
            assert(w[1].raw_notes.contains(w[0].raw_notes[k as int]));
            return 0;
        }
        k = k + 1;
    }
    3
}

/// A chord of three, and four rows without repeats.
pub open spec fn handstream_rows(w: Seq<PrimitiveView>) -> nat {
    rows_if(w.len() >= 4 && w[0].notes == 3 && no_jacks(w, 4), 4)
}

/// How many rows match [`handstream_rows`].
pub fn chordstream_4k_handstream(xs: &[Primitive]) -> (r: usize)
    ensures
        r == handstream_rows(views(xs@)),
{
    if_rows(xs.len() >= 4 && xs[0].notes == 3 && without_jacks(xs, 4), 4)
}

/// A chord of two, a single note, and two rows of at most two notes, without
/// repeats.
pub open spec fn jumpstream_rows(w: Seq<PrimitiveView>) -> nat {
    rows_if(
        w.len() >= 4 && w[0].notes == 2 && w[1].notes == 1 && w[2].notes < 3 && w[3].notes < 3
            && no_jacks(w, 4),
        4,
    )
}

/// How many rows match [`jumpstream_rows`].
pub fn chordstream_4k_jumpstream(xs: &[Primitive]) -> (r: usize)
    ensures
        r == jumpstream_rows(views(xs@)),
{
    if_rows(
        xs.len() >= 4 && xs[0].notes == 2 && xs[1].notes == 1 && xs[2].notes < 3 && xs[3].notes < 3
            && without_jacks(xs, 4),
        4,
    )
}

/// Two chords of two between single notes, without repeats.
pub open spec fn double_jumpstream_rows(w: Seq<PrimitiveView>) -> nat {
    rows_if(
        w.len() >= 4 && w[0].notes == 1 && w[1].notes == 2 && w[2].notes == 2 && w[3].notes == 1
            && no_jacks(w, 4),
        4,
    )
}

/// How many rows match [`double_jumpstream_rows`].
pub fn chordstream_4k_double_jumpstream(xs: &[Primitive]) -> (r: usize)
    ensures
        r == double_jumpstream_rows(views(xs@)),
{
    if_rows(
        xs.len() >= 4 && xs[0].notes == 1 && xs[1].notes == 2 && xs[2].notes == 2 && xs[3].notes
            == 1 && without_jacks(xs, 4),
        4,
    )
}

/// Three chords of two between single notes, without repeats.
pub open spec fn triple_jumpstream_rows(w: Seq<PrimitiveView>) -> nat {
    rows_if(
        w.len() >= 5 && w[0].notes == 1 && w[1].notes == 2 && w[2].notes == 2 && w[3].notes == 2
            && w[4].notes == 1 && no_jacks(w, 5),
        4,
    )
}

/// How many rows match [`triple_jumpstream_rows`].
pub fn chordstream_4k_triple_jumpstream(xs: &[Primitive]) -> (r: usize)
    ensures
        r == triple_jumpstream_rows(views(xs@)),
{
    if_rows(
        xs.len() >= 5 && xs[0].notes == 1 && xs[1].notes == 2 && xs[2].notes == 2 && xs[3].notes
            == 2 && xs[4].notes == 1 && without_jacks(xs, 5),
        4,
    )
}

/// Four chords of two that roll.
pub open spec fn jumptrill_rows(w: Seq<PrimitiveView>) -> nat {
    rows_if(
        w.len() >= 4 && w[0].notes == 2 && w[1].notes == 2 && w[2].notes == 2 && w[3].notes == 2
            && w[1].roll && w[2].roll && w[3].roll,
        4,
    )
}

/// How many rows match [`jumptrill_rows`].
pub fn chordstream_4k_jumptrill(xs: &[Primitive]) -> (r: usize)
    ensures
        r == jumptrill_rows(views(xs@)),
{
    if_rows(
        xs.len() >= 4 && xs[0].notes == 2 && xs[1].notes == 2 && xs[2].notes == 2 && xs[3].notes
            == 2 && xs[1].roll && xs[2].roll && xs[3].roll,
        4,
    )
}

/// Three chords of two that neither repeat nor roll.
pub open spec fn splittrill_rows(w: Seq<PrimitiveView>) -> nat {
    rows_if(
        w.len() >= 3 && w[0].notes == 2 && w[1].notes == 2 && w[2].notes == 2 && w[1].jacks == 0
            && w[2].jacks == 0 && !w[1].roll && !w[2].roll,
        3,
    )
}

/// How many rows match [`splittrill_rows`].
pub fn chordstream_4k_splittrill(xs: &[Primitive]) -> (r: usize)
    ensures
        r == splittrill_rows(views(xs@)),
{
    if_rows(
        xs.len() >= 3 && xs[0].notes == 2 && xs[1].notes == 2 && xs[2].notes == 2 && xs[1].jacks
            == 0 && xs[2].jacks == 0 && !xs[1].roll && !xs[2].roll,
        3,
    )
}

/// Whether three rows all lie in one direction of the row before.
pub open spec fn all_toward(w: Seq<PrimitiveView>, d: Direction) -> bool {
    w[0].direction == d && w[1].direction == d && w[2].direction == d
}

/// Three single notes to one side.
pub open spec fn roll_rows(w: Seq<PrimitiveView>) -> nat {
    rows_if(
        w.len() >= 3 && w[0].notes == 1 && w[1].notes == 1 && w[2].notes == 1 && (all_toward(
            w,
            Direction::Left,
        ) || all_toward(w, Direction::Right)),
        3,
    )
}

/// How many rows match [`roll_rows`].
pub fn stream_4k_roll(xs: &[Primitive]) -> (r: usize)
    ensures
        r == roll_rows(views(xs@)),
{
    if_rows(
        xs.len() >= 3 && xs[0].notes == 1 && xs[1].notes == 1 && xs[2].notes == 1 && ((
        xs[0].direction == Direction::Left && xs[1].direction == Direction::Left && xs[2].direction
            == Direction::Left) || (xs[0].direction == Direction::Right && xs[1].direction
            == Direction::Right && xs[2].direction == Direction::Right)),
        3,
    )
}

/// Two rows that take turns twice, without repeats.
pub open spec fn trill_rows(w: Seq<PrimitiveView>) -> nat {
    rows_if(
        w.len() >= 4 && w[1].jacks == 0 && w[2].jacks == 0 && w[3].jacks == 0 && w[0].raw_notes
            == w[2].raw_notes && w[1].raw_notes == w[3].raw_notes,
        4,
    )
}

/// How many rows match [`trill_rows`].
pub fn stream_4k_trill(xs: &[Primitive]) -> (r: usize)
    ensures
        r == trill_rows(views(xs@)),
{
    if_rows(
        xs.len() >= 4 && xs[1].jacks == 0 && xs[2].jacks == 0 && xs[3].jacks == 0 && same_columns(
            xs[0].raw_notes.as_slice(),
            xs[2].raw_notes.as_slice(),
        ) && same_columns(xs[1].raw_notes.as_slice(), xs[3].raw_notes.as_slice()),
        4,
    )
}

/// Two rows that take turns once, without repeats.
pub open spec fn minitrill_rows(w: Seq<PrimitiveView>) -> nat {
    rows_if(
        w.len() >= 4 && w[1].jacks == 0 && w[2].jacks == 0 && w[0].raw_notes == w[2].raw_notes
            && w[1].raw_notes != w[3].raw_notes,
        4,
    )
}

/// How many rows match [`minitrill_rows`].
pub fn stream_4k_minitrill(xs: &[Primitive]) -> (r: usize)
    ensures
        r == minitrill_rows(views(xs@)),
{
    if_rows(
        xs.len() >= 4 && xs[1].jacks == 0 && xs[2].jacks == 0 && same_columns(
            xs[0].raw_notes.as_slice(),
            xs[2].raw_notes.as_slice(),
        ) && !same_columns(xs[1].raw_notes.as_slice(), xs[3].raw_notes.as_slice()),
        4,
    )
}

/// Two chords of two that neither repeat nor roll.
pub open spec fn double_stream_rows(w: Seq<PrimitiveView>) -> nat {
    rows_if(
        w.len() >= 2 && w[0].notes == 2 && w[1].notes == 2 && w[1].jacks == 0 && !w[1].roll,
        2,
    )
}

/// How many rows match [`double_stream_rows`].
pub fn chordstream_7k_double_streams(xs: &[Primitive]) -> (r: usize)
    ensures
        r == double_stream_rows(views(xs@)),
{
    if_rows(
        xs.len() >= 2 && xs[0].notes == 2 && xs[1].notes == 2 && xs[1].jacks == 0 && !xs[1].roll,
        2,
    )
}

/// Two chords without repeats.
pub open spec fn dense_chordstream_rows(w: Seq<PrimitiveView>) -> nat {
    rows_if(w.len() >= 2 && w[0].notes > 1 && w[1].notes > 1 && w[1].jacks == 0, 2)
}

/// How many rows match [`dense_chordstream_rows`].
pub fn chordstream_7k_dense_chordstream(xs: &[Primitive]) -> (r: usize)
    ensures
        r == dense_chordstream_rows(views(xs@)),
{
    if_rows(xs.len() >= 2 && xs[0].notes > 1 && xs[1].notes > 1 && xs[1].jacks == 0, 2)
}

/// A chord and a single note without a repeat.
pub open spec fn light_chordstream_rows(w: Seq<PrimitiveView>) -> nat {
    rows_if(w.len() >= 2 && w[0].notes > 1 && w[1].notes == 1 && w[1].jacks == 0, 2)
}

/// How many rows match [`light_chordstream_rows`].
pub fn chordstream_7k_light_chordstream(xs: &[Primitive]) -> (r: usize)
    ensures
        r == light_chordstream_rows(views(xs@)),
{
    if_rows(xs.len() >= 2 && xs[0].notes > 1 && xs[1].notes == 1 && xs[1].jacks == 0, 2)
}

/// Three chords that roll to one side.
pub open spec fn chord_roll_rows(w: Seq<PrimitiveView>) -> nat {
    rows_if(
        w.len() >= 3 && w[0].notes > 1 && w[1].notes > 1 && w[2].notes > 1 && w[1].roll && w[2].roll
            && ((w[1].direction == Direction::Left && w[2].direction == Direction::Left) || (
        w[1].direction == Direction::Right && w[2].direction == Direction::Right)),
        3,
    )
}

/// How many rows match [`chord_roll_rows`].
pub fn chordstream_7k_chord_roll(xs: &[Primitive]) -> (r: usize)
    ensures
        r == chord_roll_rows(views(xs@)),
{
    if_rows(
        xs.len() >= 3 && xs[0].notes > 1 && xs[1].notes > 1 && xs[2].notes > 1 && xs[1].roll
            && xs[2].roll && ((xs[1].direction == Direction::Left && xs[2].direction
            == Direction::Left) || (xs[1].direction == Direction::Right && xs[2].direction
            == Direction::Right)),
        3,
    )
}

/// Three chords of three or more, more than nine notes in all, that neither
/// repeat nor roll.
pub open spec fn bracket_rows(w: Seq<PrimitiveView>) -> nat {
    rows_if(
        w.len() >= 3 && w[0].notes > 2 && w[1].notes > 2 && w[2].notes > 2 && !w[1].roll
            && !w[2].roll && w[1].jacks == 0 && w[2].jacks == 0 && w[0].notes + w[1].notes
            + w[2].notes > 9,
        3,
    )
}

/// How many rows match [`bracket_rows`].
pub fn chordstream_7k_brackets(xs: &[Primitive]) -> (r: usize)
    ensures
        r == bracket_rows(views(xs@)),
{
    if_rows(
        xs.len() >= 3 && xs[0].notes > 2 && xs[1].notes > 2 && xs[2].notes > 2 && !xs[1].roll
            && !xs[2].roll && xs[1].jacks == 0 && xs[2].jacks == 0 && xs[0].notes as u128
            + xs[1].notes as u128 + xs[2].notes as u128 > 9,
        3,
    )
}

} // verus!
