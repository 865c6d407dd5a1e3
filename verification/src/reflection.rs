//! What the analysis makes of a file whose notes are those of another one, seen
//! from the other side and moved in time.

use crate::analyzer::{analyzed, identified};
use crate::beatmap::{
    columned, end_of, is_entry, is_long, is_object, law_parsed_is_valid, lemma_draft,
    lemma_objects_so_far, lemma_sound, object_key, parsed, place_of, read_line, read_lines,
    section_after, well_placed, DraftView, HitObject,
};
use crate::number::{decimal, ticks_in, LIMIT};
use crate::order::{law_sorting_is_stable, lemma_onto, sorted_order};
use crate::symmetry::{
    flipped, image, images, is_image, law_mirrored_beatmap_has_same_features, lemma_images,
    twin_strain,
};
use crate::text::{split, trimmed};
use crate::types::ManiaGameMod;
use vstd::prelude::*;

verus! {

/// The parts of a line.
pub open spec fn parts(line: Seq<char>) -> Seq<Seq<char>> {
    split(trimmed(line), ',')
}

/// The column of a note, given its line, in a beatmap with so many keys.
pub open spec fn column_in(line: Seq<char>, keys: int) -> int {
    place_of(decimal(parts(line)[0])->0) as int * keys / 128
}

/// When a note starts, given its line.
pub open spec fn start_in(line: Seq<char>) -> Option<i128> {
    ticks_in(parts(line)[2])
}

/// When a note ends, given its line.
pub open spec fn end_in(line: Seq<char>) -> int {
    let p = parts(line);
    let s = start_in(line)->0;
    if is_long(p[3]) && p.len() > 5 {
        end_of(p[5], s) as int
    } else {
        s as int
    }
}

/// Whether a line is the note of another line, seen from the other side if
/// `flip` and later by `d` ticks. How its numbers are written does not matter.
pub open spec fn line_image(
    a: Seq<char>,
    b: Seq<char>,
    keys: int,
    flip: bool,
    d: int,
) -> bool {
    &&& is_entry(trimmed(b))
    &&& parts(b).len() >= 5
    &&& decimal(parts(b)[0]) is Some
    &&& column_in(b, keys) == flipped(column_in(a, keys), keys, flip)
    &&& start_in(b) is Some && start_in(a) is Some
    &&& start_in(b)->0 == start_in(a)->0 + d
    &&& end_in(b) == end_in(a) + d
    &&& is_long(parts(b)[3]) == is_long(parts(a)[3])
}

/// Whether lines are those of another file, with an image of each note in its
/// place.
pub open spec fn lines_image(
    a: Seq<Seq<char>>,
    b: Seq<Seq<char>>,
    keys: int,
    flip: bool,
    d: int,
) -> bool {
    &&& a.len() == b.len()
    &&& forall|i: int|
        0 <= i < a.len() ==> if #[trigger] is_object(a, i) {
            line_image(a[i], b[i], keys, flip, d)
        } else {
            a[i] == b[i]
        }
}

/// Whether notes are, one by one, images of others before they are brought to
/// columns.
spec fn objects_image(
    a: Seq<HitObject>,
    b: Seq<HitObject>,
    keys: int,
    flip: bool,
    d: int,
) -> bool {
    &&& a.len() == b.len()
    &&& forall|i: int|
        0 <= i < a.len() ==> {
            &&& (#[trigger] b[i]).start == a[i].start + d
            &&& b[i].end == a[i].end + d
            &&& b[i].long_note == a[i].long_note
            &&& b[i].column as int * keys / 128 == flipped(a[i].column as int * keys / 128, keys, flip)
        }
}

/// Whether one draft is another one, but for its notes, which are images.
spec fn draft_image(a: DraftView, b: DraftView, keys: int, flip: bool, d: int) -> bool {
    &&& b == (DraftView { objects: b.objects, ..a })
    &&& objects_image(a.objects, b.objects, keys, flip, d)
}

proof fn lemma_drafts(
    a: Seq<Seq<char>>,
    b: Seq<Seq<char>>,
    keys: int,
    flip: bool,
    d: int,
)
    requires
        lines_image(a, b, keys, flip, d),
        read_lines(a) is Ok,
    ensures
        read_lines(b) is Ok,
        draft_image(read_lines(a)->Ok_0, read_lines(b)->Ok_0, keys, flip, d),
    decreases a.len(),
{
    if a.len() > 0 {
        let (f, g) = (a.drop_last(), b.drop_last());
        let n = a.len() - 1;
        assert forall|i: int| 0 <= i < f.len() implies if #[trigger] is_object(f, i) {
            line_image(f[i], g[i], keys, flip, d)
        } else {
            f[i] == g[i]
        } by {
            lemma_objects_so_far(a, i);
            assert(is_object(a, i) == is_object(f, i));
        }
        lemma_drafts(f, g, keys, flip, d);
        lemma_draft(f);
        let (x, y) = (read_lines(f)->Ok_0, read_lines(g)->Ok_0);
        assert(a.take(n) =~= f);
        assert(x.section == section_after(f));
        let line = trimmed(a[n]);
        assert(a.last() == a[n] && b.last() == b[n]);
        if is_object(a, n) {
            assert(line_image(a[n], b[n], keys, flip, d));
            let (p, q) = (read_lines(a)->Ok_0, read_lines(b)->Ok_0);
            assert(read_line(y, b[n]) is Ok);
            assert(p.objects.drop_last() =~= x.objects);
            assert(q.objects.drop_last() =~= y.objects);
            assert forall|i: int| 0 <= i < p.objects.len() implies {
                &&& (#[trigger] q.objects[i]).start == p.objects[i].start + d
                &&& q.objects[i].end == p.objects[i].end + d
                &&& q.objects[i].long_note == p.objects[i].long_note
                &&& q.objects[i].column as int * keys / 128 == flipped(
                    p.objects[i].column as int * keys / 128,
                    keys,
                    flip,
                )
            } by {
                if i < x.objects.len() {
                    assert(q.objects[i] == y.objects[i]);
                    assert(p.objects[i] == x.objects[i]);
                }
            }
            assert(q =~= (DraftView { objects: q.objects, ..p }));
        } else {
            assert(a[n] == b[n]);
            let (p, q) = (read_lines(a)->Ok_0, read_lines(b)->Ok_0);
            assert(p.objects == x.objects && q.objects == y.objects);
            assert(q =~= (DraftView { objects: q.objects, ..p }));
        }
    }
}

/// The notes of an image are images, however they are sorted.
proof fn lemma_sorted_images(
    a: Seq<HitObject>,
    b: Seq<HitObject>,
    keys: u8,
    flip: bool,
    d: int,
)
    requires
        objects_image(a, b, keys as int, flip, d),
        0 < keys <= 7,
        forall|i: int| 0 <= i < a.len() ==> well_placed(#[trigger] a[i], 128),
        forall|i: int| 0 <= i < b.len() ==> well_placed(#[trigger] b[i], 128),
    ensures
        ({
            let p = crate::beatmap::sorted_objects(a.map_values(|o: HitObject| columned(o, keys)));
            let q = crate::beatmap::sorted_objects(b.map_values(|o: HitObject| columned(o, keys)));
            &&& images(p, q, keys as int, flip, d)
            &&& forall|i: int|
                0 <= i < p.len() ==> -LIMIT <= (#[trigger] p[i]).start + d && p[i].end + d <= LIMIT
        }),
{
    let (x, y) = (
        a.map_values(|o: HitObject| columned(o, keys)),
        b.map_values(|o: HitObject| columned(o, keys)),
    );
    let (ks, ls) = (
        x.map_values(|o: HitObject| object_key(o)),
        y.map_values(|o: HitObject| object_key(o)),
    );
    law_sorting_is_stable(ks, ks.len());
    law_sorting_is_stable(ls, ls.len());
    let (s, t) = (sorted_order(ks), sorted_order(ls));
    lemma_onto(s, ks.len());
    lemma_onto(t, ls.len());
    let p = crate::beatmap::sorted_objects(x);
    let q = crate::beatmap::sorted_objects(y);
    let k = keys as int;
    assert forall|i: int| 0 <= i < a.len() implies #[trigger] y[i] == image(x[i], k, flip, d) by {
        let (u, v) = (a[i].column as int, b[i].column as int);
        assert(well_placed(a[i], 128) && well_placed(b[i], 128));
        assert(b[i].start == a[i].start + d);
        assert(0 <= u * k / 128 < k) by (nonlinear_arith)
            requires
                0 <= u < 128,
                k > 0,
        ;
        assert(0 <= v * k / 128 < k) by (nonlinear_arith)
            requires
                0 <= v < 128,
                k > 0,
        ;
    }
    assert forall|i: int| 0 <= i < p.len() implies q.contains(
        image(#[trigger] p[i], k, flip, d),
    ) by {
        let m = s[i];
        assert(t.contains(m));
        let j = choose|j: int| 0 <= j < t.len() && t[j] == m;
        assert(y[m] == image(x[m], k, flip, d));
        assert(q[j] == y[m] && p[i] == x[m]);
    }
    assert forall|j: int| 0 <= j < q.len() implies is_image(p, #[trigger] q[j], k, flip, d) by {
        let m = t[j];
        assert(s.contains(m));
        let i = choose|i: int| 0 <= i < s.len() && s[i] == m;
        assert(y[m] == image(x[m], k, flip, d));
        assert(q[j] == y[m] && p[i] == x[m]);
    }
    lemma_images(p, q, k, flip, d);
    assert forall|i: int| 0 <= i < p.len() implies -LIMIT <= (#[trigger] p[i]).start + d && p[i].end
        + d <= LIMIT by {
        let m = s[i];
        assert(well_placed(b[m], 128));
        assert(b[m].start == a[m].start + d && b[m].end == a[m].end + d);
        assert(p[i] == x[m]);
    }
}

/// A file can be read as well as the one that it is an image of, and what is
/// read of it is the same but for the notes, which are images.
pub proof fn law_image_is_read(
    a: Seq<char>,
    b: Seq<char>,
    first: Seq<u8>,
    second: Seq<u8>,
    flip: bool,
    d: int,
)
    requires
        parsed(a, first) is Ok,
        lines_image(
            split(a, '\n'),
            split(b, '\n'),
            parsed(a, first)->Ok_0.key_count as int,
            flip,
            d,
        ),
    ensures
        parsed(b, second) is Ok,
        ({
            let (p, q) = (parsed(a, first)->Ok_0, parsed(b, second)->Ok_0);
            &&& q.key_count == p.key_count
            &&& q.beat == p.beat
            &&& q.sv_changes == p.sv_changes
            &&& images(p.objects, q.objects, p.key_count as int, flip, d)
            &&& forall|i: int|
                0 <= i < p.objects.len() ==> -LIMIT <= (#[trigger] p.objects[i]).start + d
                    && p.objects[i].end + d <= LIMIT
        }),
{
    let (l, m) = (split(a, '\n'), split(b, '\n'));
    let keys = parsed(a, first)->Ok_0.key_count;
    law_parsed_is_valid(a, first);
    lemma_drafts(l, m, keys as int, flip, d);
    lemma_sound(l);
    lemma_sound(m);
    let (x, y) = (read_lines(l)->Ok_0, read_lines(m)->Ok_0);
    lemma_sorted_images(x.objects, y.objects, keys, flip, d);
    assert(x.objects.len() == y.objects.len());
}

/// A file whose notes are those of another one, seen from the other side if
/// `flip` and moved in time, is analyzed as that one is: with the same style,
/// facts, family and pattern, and each row asks the same of the hands, which
/// change places.
pub proof fn law_mirrored_file_has_same_features(
    a: Seq<char>,
    b: Seq<char>,
    first: Seq<u8>,
    second: Seq<u8>,
    source: Option<u64>,
    flip: bool,
    d: int,
    m: ManiaGameMod,
)
    requires
        analyzed(a, first, source, m) is Ok,
        lines_image(
            split(a, '\n'),
            split(b, '\n'),
            analyzed(a, first, source, m)->Ok_0.1.key_count as int,
            flip,
            d,
        ),
    ensures
        analyzed(b, second, source, m) is Ok,
        ({
            let (r, s) = (
                analyzed(a, first, source, m)->Ok_0.1,
                analyzed(b, second, source, m)->Ok_0.1,
            );
            &&& s.key_count == r.key_count
            &&& s.style == r.style
            &&& s.base == r.base
            &&& s.mode_family == r.mode_family
            &&& s.dominant_pattern == r.dominant_pattern
            &&& s.strain.len() == r.strain.len()
            &&& forall|i: int|
                0 <= i < r.strain.len() ==> twin_strain(
                    #[trigger] r.strain[i],
                    s.strain[i],
                    r.key_count as int,
                    flip,
                )
        }),
{
    law_image_is_read(a, b, first, second, flip, d);
    law_parsed_is_valid(a, first);
    law_parsed_is_valid(b, second);
    let (p, q) = (
        identified(parsed(a, first)->Ok_0, source),
        identified(parsed(b, second)->Ok_0, source),
    );
    assert(p.valid() && q.valid());
    law_mirrored_beatmap_has_same_features(p, q, flip, d, m);
}

} // verus!
