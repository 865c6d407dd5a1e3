//! Finding patterns in a chart.

use crate::chart::{Chart, ChartView, TIME_LIMIT};
use crate::hold_patterns::{
    column_lock_rows, coordination_column_lock, coordination_release, coordination_shield,
    dcs_density_rows, density_4k_handstream, density_4k_inverse, density_4k_jumpstream,
    density_7k_dense_chordstream, density_7k_double_streams, density_7k_light_chordstream,
    ds_density_rows, hs_density_rows, is_inverse, jacky_rows, js_density_rows, lcs_density_rows,
    release_rows, shield_rows, speedy_rows, wildcard_jack, wildcard_speed,
};
use crate::patterns::{
    bracket_rows, chord_roll_rows, chordjack_rows, chordstream_4k_handstream,
    chordstream_4k_jumpstream, chordstream_4k_jumptrill, chordstream_4k_splittrill,
    chordstream_7k_brackets, chordstream_7k_chord_roll, chordstream_7k_dense_chordstream,
    chordstream_7k_double_streams, chordstream_7k_light_chordstream, chordstream_rows, consistent,
    coordination_rows, core_chordstream, core_coordination, core_density, core_jacks, core_stream,
    core_wildcard, dense_chordstream_rows, double_stream_rows, glut_rows, handstream_rows,
    jack_rows, jacks_4k_gluts, jacks_4k_quadstream, jacks_chordjacks, jacks_longjacks,
    jacks_minijacks, jumpstream_rows, jumptrill_rows, light_chordstream_rows, longjack_rows,
    minijack_rows, minitrill_rows, quadstream_rows, roll_rows, rows_if, splittrill_rows,
    starts_hold, stream_4k_minitrill, stream_4k_roll, stream_4k_trill, stream_rows, trill_rows,
    MATCHER_WINDOW,
};
use crate::primitives::{
    calculate_primitives, primitives, primitives_upto, time_before, views, Primitive, PrimitiveView,
};
use crate::types::ManiaPattern;
use vstd::prelude::*;
use vstd::slice::slice_subrange;

verus! {

/// The kinds of pattern within the core patterns.
#[derive(Clone, Copy, Debug, PartialEq, Eq, Structural)]
pub enum Subtype {
    Rolls,
    Trills,
    Minitrills,
    Handstream,
    SplitTrill,
    Jumptrill,
    Jumpstream,
    Brackets,
    DoubleStream,
    DenseChordstream,
    LightChordstream,
    ChordRolls,
    Longjacks,
    Quadstream,
    Gluts,
    Chordjacks,
    Minijacks,
    ColumnLock,
    Release,
    Shield,
    JsDensity,
    HsDensity,
    DsDensity,
    LcsDensity,
    DcsDensity,
    Inverse,
    JackyWc,
    SpeedyWc,
}

impl Subtype {
    /// The name of a kind.
    pub open spec fn name(self) -> Seq<char> {
        match self {
            Subtype::Rolls => "Rolls"@,
            Subtype::Trills => "Trills"@,
            Subtype::Minitrills => "Minitrills"@,
            Subtype::Handstream => "Handstream"@,
            Subtype::SplitTrill => "Split Trill"@,
            Subtype::Jumptrill => "Jumptrill"@,
            Subtype::Jumpstream => "Jumpstream"@,
            Subtype::Brackets => "Brackets"@,
            Subtype::DoubleStream => "Double Stream"@,
            Subtype::DenseChordstream => "Dense Chordstream"@,
            Subtype::LightChordstream => "Light Chordstream"@,
            Subtype::ChordRolls => "Chord Rolls"@,
            Subtype::Longjacks => "Longjacks"@,
            Subtype::Quadstream => "Quadstream"@,
            Subtype::Gluts => "Gluts"@,
            Subtype::Chordjacks => "Chordjacks"@,
            Subtype::Minijacks => "Minijacks"@,
            Subtype::ColumnLock => "Column Lock"@,
            Subtype::Release => "Release"@,
            Subtype::Shield => "Shield"@,
            Subtype::JsDensity => "JS Density"@,
            Subtype::HsDensity => "HS Density"@,
            Subtype::DsDensity => "DS Density"@,
            Subtype::LcsDensity => "LCS Density"@,
            Subtype::DcsDensity => "DCS Density"@,
            Subtype::Inverse => "Inverse"@,
            Subtype::JackyWc => "Jacky WC"@,
            Subtype::SpeedyWc => "Speedy WC"@,
        }
    }

    /// The name of a kind.
    pub fn as_str(self) -> (r: &'static str)
        ensures
            r@ == self.name(),
    {
        match self {
            Subtype::Rolls => "Rolls",
            Subtype::Trills => "Trills",
            Subtype::Minitrills => "Minitrills",
            Subtype::Handstream => "Handstream",
            Subtype::SplitTrill => "Split Trill",
            Subtype::Jumptrill => "Jumptrill",
            Subtype::Jumpstream => "Jumpstream",
            Subtype::Brackets => "Brackets",
            Subtype::DoubleStream => "Double Stream",
            Subtype::DenseChordstream => "Dense Chordstream",
            Subtype::LightChordstream => "Light Chordstream",
            Subtype::ChordRolls => "Chord Rolls",
            Subtype::Longjacks => "Longjacks",
            Subtype::Quadstream => "Quadstream",
            Subtype::Gluts => "Gluts",
            Subtype::Chordjacks => "Chordjacks",
            Subtype::Minijacks => "Minijacks",
            Subtype::ColumnLock => "Column Lock",
            Subtype::Release => "Release",
            Subtype::Shield => "Shield",
            Subtype::JsDensity => "JS Density",
            Subtype::HsDensity => "HS Density",
            Subtype::DsDensity => "DS Density",
            Subtype::LcsDensity => "LCS Density",
            Subtype::DcsDensity => "DCS Density",
            Subtype::Inverse => "Inverse",
            Subtype::JackyWc => "Jacky WC",
            Subtype::SpeedyWc => "Speedy WC",
        }
    }
}

/// How many rows show a kind of pattern.
pub open spec fn kind_rows(kind: Subtype, w: Seq<PrimitiveView>) -> nat {
    match kind {
        Subtype::Rolls => roll_rows(w),
        Subtype::Trills => trill_rows(w),
        Subtype::Minitrills => minitrill_rows(w),
        Subtype::Handstream => handstream_rows(w),
        Subtype::SplitTrill => splittrill_rows(w),
        Subtype::Jumptrill => jumptrill_rows(w),
        Subtype::Jumpstream => jumpstream_rows(w),
        Subtype::Brackets => bracket_rows(w),
        Subtype::DoubleStream => double_stream_rows(w),
        Subtype::DenseChordstream => dense_chordstream_rows(w),
        Subtype::LightChordstream => light_chordstream_rows(w),
        Subtype::ChordRolls => chord_roll_rows(w),
        Subtype::Longjacks => longjack_rows(w),
        Subtype::Quadstream => quadstream_rows(w),
        Subtype::Gluts => glut_rows(w),
        Subtype::Chordjacks => chordjack_rows(w),
        Subtype::Minijacks => minijack_rows(w),
        Subtype::ColumnLock => column_lock_rows(w),
        Subtype::Release => release_rows(w),
        Subtype::Shield => shield_rows(w),
        Subtype::JsDensity => js_density_rows(w),
        Subtype::HsDensity => hs_density_rows(w),
        Subtype::DsDensity => ds_density_rows(w),
        Subtype::LcsDensity => lcs_density_rows(w),
        Subtype::DcsDensity => dcs_density_rows(w),
        Subtype::Inverse => rows_if(is_inverse(w), 5),
        Subtype::JackyWc => jacky_rows(w),
        Subtype::SpeedyWc => speedy_rows(w),
    }
}

/// How many rows show a kind of pattern.
pub fn match_kind(kind: Subtype, xs: &[Primitive]) -> (r: usize)
    ensures
        r == kind_rows(kind, views(xs@)),
{
    match kind {
        Subtype::Rolls => stream_4k_roll(xs),
        Subtype::Trills => stream_4k_trill(xs),
        Subtype::Minitrills => stream_4k_minitrill(xs),
        Subtype::Handstream => chordstream_4k_handstream(xs),
        Subtype::SplitTrill => chordstream_4k_splittrill(xs),
        Subtype::Jumptrill => chordstream_4k_jumptrill(xs),
        Subtype::Jumpstream => chordstream_4k_jumpstream(xs),
        Subtype::Brackets => chordstream_7k_brackets(xs),
        Subtype::DoubleStream => chordstream_7k_double_streams(xs),
        Subtype::DenseChordstream => chordstream_7k_dense_chordstream(xs),
        Subtype::LightChordstream => chordstream_7k_light_chordstream(xs),
        Subtype::ChordRolls => chordstream_7k_chord_roll(xs),
        Subtype::Longjacks => jacks_longjacks(xs),
        Subtype::Quadstream => jacks_4k_quadstream(xs),
        Subtype::Gluts => jacks_4k_gluts(xs),
        Subtype::Chordjacks => jacks_chordjacks(xs),
        Subtype::Minijacks => jacks_minijacks(xs),
        Subtype::ColumnLock => coordination_column_lock(xs),
        Subtype::Release => coordination_release(xs),
        Subtype::Shield => coordination_shield(xs),
        Subtype::JsDensity => density_4k_jumpstream(xs),
        Subtype::HsDensity => density_4k_handstream(xs),
        Subtype::DsDensity => density_7k_double_streams(xs),
        Subtype::LcsDensity => density_7k_light_chordstream(xs),
        Subtype::DcsDensity => density_7k_dense_chordstream(xs),
        Subtype::Inverse => density_4k_inverse(xs),
        Subtype::JackyWc => wildcard_jack(xs),
        Subtype::SpeedyWc => wildcard_speed(xs),
    }
}

/// How many rows show a core pattern.
pub open spec fn core_rows(core: ManiaPattern, w: Seq<PrimitiveView>) -> nat {
    match core {
        ManiaPattern::Stream => stream_rows(w),
        ManiaPattern::Chordstream => chordstream_rows(w),
        ManiaPattern::Jacks => jack_rows(w),
        ManiaPattern::Coordination => coordination_rows(w),
        ManiaPattern::Density => rows_if(starts_hold(w), 1),
        ManiaPattern::Wildcard => rows_if(starts_hold(w), 1),
    }
}

/// How many rows show a core pattern.
pub fn match_core(core: ManiaPattern, xs: &[Primitive]) -> (r: usize)
    requires
        consistent(views(xs@)),
    ensures
        r == core_rows(core, views(xs@)),
{
    match core {
        ManiaPattern::Stream => core_stream(xs),
        ManiaPattern::Chordstream => core_chordstream(xs),
        ManiaPattern::Jacks => core_jacks(xs),
        ManiaPattern::Coordination => core_coordination(xs),
        ManiaPattern::Density => core_density(xs),
        ManiaPattern::Wildcard => core_wildcard(xs),
    }
}

/// The kinds of a core pattern that charts with so many keys can show, those
/// that are preferred first.
pub open spec fn kinds_of(core: ManiaPattern, keys: int) -> Seq<Subtype> {
    match core {
        ManiaPattern::Stream => if keys == 4 {
            seq![Subtype::Rolls, Subtype::Trills, Subtype::Minitrills]
        } else {
            Seq::empty()
        },
        ManiaPattern::Chordstream => if keys == 4 {
            seq![Subtype::Handstream, Subtype::SplitTrill, Subtype::Jumptrill, Subtype::Jumpstream]
        } else if keys == 7 {
            seq![
                Subtype::Brackets,
                Subtype::DoubleStream,
                Subtype::DenseChordstream,
                Subtype::LightChordstream,
            ]
        } else {
            seq![
                Subtype::ChordRolls,
                Subtype::DoubleStream,
                Subtype::DenseChordstream,
                Subtype::LightChordstream,
            ]
        },
        ManiaPattern::Jacks => if keys == 4 {
            seq![
                Subtype::Longjacks,
                Subtype::Quadstream,
                Subtype::Gluts,
                Subtype::Chordjacks,
                Subtype::Minijacks,
            ]
        } else {
            seq![Subtype::Longjacks, Subtype::Chordjacks, Subtype::Minijacks]
        },
        ManiaPattern::Coordination => seq![Subtype::ColumnLock, Subtype::Shield, Subtype::Release],
        ManiaPattern::Density => if keys == 4 {
            seq![Subtype::Inverse, Subtype::JsDensity, Subtype::HsDensity]
        } else {
            seq![
                Subtype::Inverse,
                Subtype::DsDensity,
                Subtype::DcsDensity,
                Subtype::LcsDensity,
            ]
        },
        ManiaPattern::Wildcard => seq![Subtype::SpeedyWc, Subtype::JackyWc],
    }
}

/// The kinds of each core pattern.
#[derive(Clone, Debug)]
pub struct SpecificTable {
    pub stream: Vec<Subtype>,
    pub chordstream: Vec<Subtype>,
    pub jack: Vec<Subtype>,
    pub coordination: Vec<Subtype>,
    pub density: Vec<Subtype>,
    pub wildcard: Vec<Subtype>,
}

impl SpecificTable {
    /// The kinds that the table lists for a core pattern.
    pub open spec fn listed(&self, core: ManiaPattern) -> Seq<Subtype> {
        match core {
            ManiaPattern::Stream => self.stream@,
            ManiaPattern::Chordstream => self.chordstream@,
            ManiaPattern::Jacks => self.jack@,
            ManiaPattern::Coordination => self.coordination@,
            ManiaPattern::Density => self.density@,
            ManiaPattern::Wildcard => self.wildcard@,
        }
    }

    /// Whether this is the table for so many keys.
    pub open spec fn is_for(&self, keys: int) -> bool {
        forall|core: ManiaPattern| #[trigger] self.listed(core) == kinds_of(core, keys)
    }

    /// The kinds of a core pattern.
    pub fn for_core(&self, core: ManiaPattern) -> (r: &[Subtype])
        ensures
            r@ == self.listed(core),
    {
        match core {
            ManiaPattern::Stream => self.stream.as_slice(),
            ManiaPattern::Chordstream => self.chordstream.as_slice(),
            ManiaPattern::Jacks => self.jack.as_slice(),
            ManiaPattern::Coordination => self.coordination.as_slice(),
            ManiaPattern::Density => self.density.as_slice(),
            ManiaPattern::Wildcard => self.wildcard.as_slice(),
        }
    }
}

fn coordination_table() -> (r: Vec<Subtype>)
    ensures
        r@ == seq![Subtype::ColumnLock, Subtype::Shield, Subtype::Release],
{
    let r: Vec<Subtype> = vec![Subtype::ColumnLock, Subtype::Shield, Subtype::Release];
    assert(r@ =~= seq![Subtype::ColumnLock, Subtype::Shield, Subtype::Release]);
    r
}

fn wildcard_table() -> (r: Vec<Subtype>)
    ensures
        r@ == seq![Subtype::SpeedyWc, Subtype::JackyWc],
{
    let r: Vec<Subtype> = vec![Subtype::SpeedyWc, Subtype::JackyWc];
    assert(r@ =~= seq![Subtype::SpeedyWc, Subtype::JackyWc]);
    r
}

/// The kinds that charts with four keys can show.
pub fn specific_4k() -> (r: SpecificTable)
    ensures
        r.is_for(4),
{
    let r = SpecificTable {
        stream: vec![Subtype::Rolls, Subtype::Trills, Subtype::Minitrills],
        chordstream: vec![
            Subtype::Handstream,
            Subtype::SplitTrill,
            Subtype::Jumptrill,
            Subtype::Jumpstream,
        ],
        jack: vec![
            Subtype::Longjacks,
            Subtype::Quadstream,
            Subtype::Gluts,
            Subtype::Chordjacks,
            Subtype::Minijacks,
        ],
        coordination: coordination_table(),
        density: vec![Subtype::Inverse, Subtype::JsDensity, Subtype::HsDensity],
        wildcard: wildcard_table(),
    };
    assert(r.stream@ =~= kinds_of(ManiaPattern::Stream, 4));
    assert(r.chordstream@ =~= kinds_of(ManiaPattern::Chordstream, 4));
    assert(r.jack@ =~= kinds_of(ManiaPattern::Jacks, 4));
    assert(r.density@ =~= kinds_of(ManiaPattern::Density, 4));
    r
}

/// The kinds that charts with seven keys can show.
pub fn specific_7k() -> (r: SpecificTable)
    ensures
        r.is_for(7),
{
    let r = SpecificTable {
        stream: Vec::new(),
        chordstream: vec![
            Subtype::Brackets,
            Subtype::DoubleStream,
            Subtype::DenseChordstream,
            Subtype::LightChordstream,
        ],
        jack: vec![Subtype::Longjacks, Subtype::Chordjacks, Subtype::Minijacks],
        coordination: coordination_table(),
        density: vec![
            Subtype::Inverse,
            Subtype::DsDensity,
            Subtype::DcsDensity,
            Subtype::LcsDensity,
        ],
        wildcard: wildcard_table(),
    };
    assert(r.stream@ =~= kinds_of(ManiaPattern::Stream, 7));
    assert(r.chordstream@ =~= kinds_of(ManiaPattern::Chordstream, 7));
    assert(r.jack@ =~= kinds_of(ManiaPattern::Jacks, 7));
    assert(r.density@ =~= kinds_of(ManiaPattern::Density, 7));
    r
}

/// The kinds that other charts can show.
pub fn specific_other() -> (r: SpecificTable)
    ensures
        forall|keys: int| keys != 4 && keys != 7 ==> #[trigger] r.is_for(keys),
{
    let r = SpecificTable {
        stream: Vec::new(),
        chordstream: vec![
            Subtype::ChordRolls,
            Subtype::DoubleStream,
            Subtype::DenseChordstream,
            Subtype::LightChordstream,
        ],
        jack: vec![Subtype::Longjacks, Subtype::Chordjacks, Subtype::Minijacks],
        coordination: coordination_table(),
        density: vec![
            Subtype::Inverse,
            Subtype::DsDensity,
            Subtype::DcsDensity,
            Subtype::LcsDensity,
        ],
        wildcard: wildcard_table(),
    };
    assert(r.stream@ =~= kinds_of(ManiaPattern::Stream, 6));
    assert(r.chordstream@ =~= kinds_of(ManiaPattern::Chordstream, 6));
    assert(r.jack@ =~= kinds_of(ManiaPattern::Jacks, 6));
    assert(r.density@ =~= kinds_of(ManiaPattern::Density, 6));
    r
}

/// The kinds that charts with so many keys can show.
pub fn specific_table_for(keys: usize) -> (r: SpecificTable)
    ensures
        r.is_for(keys as int),
{
    if keys == 4 {
        specific_4k()
    } else if keys == 7 {
        specific_7k()
    } else {
        specific_other()
    }
}

/// A stretch of a chart that shows a pattern. Times are milliseconds since the
/// first row; the length of a beat counts sixtieths of a millisecond.
#[derive(Clone, Copy, Debug)]
pub struct FoundPattern {
    pub pattern: ManiaPattern,
    pub specific_type: Option<Subtype>,
    /// Whether rows follow each other unevenly.
    pub mixed: bool,
    pub start: i64,
    pub end: i64,
    pub ms_per_beat: i64,
}

/// The beat lengths of the first `n` rows, added up.
pub open spec fn beat_sum(w: Seq<PrimitiveView>, n: nat) -> int
    decreases n,
{
    if n == 0 {
        0
    } else {
        beat_sum(w, (n - 1) as nat) + w[n - 1].ms_per_beat
    }
}

/// Whether a beat length lies less than five milliseconds off the mean of `n`
/// that add up to `sum`.
pub open spec fn is_steady(p: PrimitiveView, n: int, sum: int) -> bool {
    -5 * n < n * p.ms_per_beat - sum < 5 * n
}

/// The smaller of two numbers of rows.
pub open spec fn fewer(a: nat, b: nat) -> nat {
    if a <= b {
        a
    } else {
        b
    }
}

/// The stretch that the first `n` rows of a window show.
pub open spec fn stretch(
    core: ManiaPattern,
    kind: Option<Subtype>,
    n: nat,
    w: Seq<PrimitiveView>,
    last: int,
) -> FoundPattern {
    let m = fewer(n, w.len());
    let sum = beat_sum(w, m);
    let next = if n < w.len() {
        w[n as int].time
    } else {
        last
    };
    let jack_end = w[0].time + w[0].ms_per_beat / 2;
    FoundPattern {
        pattern: core,
        specific_type: kind,
        mixed: !(forall|i: int|
            0 <= i < m ==> is_steady(#[trigger] w[i], m as int, sum)),
        start: w[0].time as i64,
        end: if core == ManiaPattern::Jacks && jack_end > next {
            jack_end as i64
        } else {
            next as i64
        },
        ms_per_beat: if core == ManiaPattern::Density && kind == Some(Subtype::Inverse) {
            0
        } else {
            (sum * 60 / m as int) as i64
        },
    }
}

/// The more of two numbers of rows.
pub open spec fn more(a: nat, b: nat) -> nat {
    if a >= b {
        a
    } else {
        b
    }
}

/// The stretches that a window shows of the first `k` kinds.
pub open spec fn kind_stretches(
    core: ManiaPattern,
    kinds: Seq<Subtype>,
    k: nat,
    w: Seq<PrimitiveView>,
    last: int,
) -> Seq<FoundPattern>
    decreases k,
{
    if k == 0 {
        Seq::empty()
    } else {
        let before = kind_stretches(core, kinds, (k - 1) as nat, w, last);
        let kind = kinds[k - 1];
        let n = kind_rows(kind, w);
        if n != 0 {
            before.push(stretch(core, Some(kind), more(core_rows(core, w), n), w, last))
        } else {
            before
        }
    }
}

/// The stretches that a window shows of a core pattern: one for each kind, or
/// one without a kind.
pub open spec fn core_stretches(
    core: ManiaPattern,
    keys: int,
    w: Seq<PrimitiveView>,
    last: int,
) -> Seq<FoundPattern> {
    let n = core_rows(core, w);
    let kinds = kinds_of(core, keys);
    let found = kind_stretches(core, kinds, kinds.len(), w, last);
    if n == 0 {
        Seq::empty()
    } else if found.len() == 0 {
        seq![stretch(core, None, n, w, last)]
    } else {
        found
    }
}

/// The stretches that a window shows of the first `n` core patterns.
pub open spec fn window_stretches(keys: int, w: Seq<PrimitiveView>, last: int, n: nat) -> Seq<
    FoundPattern,
>
    decreases n,
{
    if n == 0 {
        Seq::empty()
    } else {
        window_stretches(keys, w, last, (n - 1) as nat) + core_stretches(
            ManiaPattern::at(n - 1),
            keys,
            w,
            last,
        )
    }
}

/// The window of rows that starts at row `i`.
pub open spec fn window_at(all: Seq<PrimitiveView>, i: int) -> Seq<PrimitiveView> {
    all.subrange(i, fewer((i + MATCHER_WINDOW) as nat, all.len()) as int)
}

/// The stretches that the first `n` windows show.
pub open spec fn stretches(keys: int, all: Seq<PrimitiveView>, last: int, n: nat) -> Seq<
    FoundPattern,
>
    decreases n,
{
    if n == 0 {
        Seq::empty()
    } else {
        stretches(keys, all, last, (n - 1) as nat) + window_stretches(
            keys,
            window_at(all, n - 1),
            last,
            6,
        )
    }
}

/// The patterns of a chart.
pub open spec fn found_in(c: ChartView) -> Seq<FoundPattern> {
    let all = primitives(c);
    stretches(c.keys as int, all, c.duration(), all.len())
}

/// The latest time since the first row.
pub const SPAN_LIMIT: i64 = 20_000_000_000_000_000;

/// The longest beat of rows.
pub const BEAT_LIMIT: i64 = 80_000_000_000_000_000;

/// Whether rows say how many columns they strike and have times in range.
pub open spec fn in_bounds(w: Seq<PrimitiveView>) -> bool {
    &&& consistent(w)
    &&& forall|i: int|
        0 <= i < w.len() ==> 0 <= (#[trigger] w[i]).time <= SPAN_LIMIT && 0 <= w[i].ms_per_beat
            <= BEAT_LIMIT
}

/// Whether a stretch has times in range.
pub open spec fn stretch_valid(p: FoundPattern) -> bool {
    &&& 0 <= p.start <= SPAN_LIMIT
    &&& 0 <= p.end <= SPAN_LIMIT + BEAT_LIMIT
    &&& 0 <= p.ms_per_beat <= 60 * BEAT_LIMIT
}

proof fn lemma_rows_are_few(core: ManiaPattern, kind: Subtype, w: Seq<PrimitiveView>)
    ensures
        core_rows(core, w) <= 5,
        kind_rows(kind, w) <= 5,
{
}

fn make_stretch(
    core: ManiaPattern,
    kind: Option<Subtype>,
    n: usize,
    xs: &[Primitive],
    last: i64,
) -> (r: FoundPattern)
    requires
        in_bounds(views(xs@)),
        xs@.len() > 0,
        1 <= n <= 5,
        0 <= last <= SPAN_LIMIT,
    ensures
        r == stretch(core, kind, n as nat, views(xs@), last as int),
        stretch_valid(r),
{
    let ghost w = views(xs@);
    let m: usize = if n < xs.len() {
        n
    } else {
        xs.len()
    };
    let mut sum: i128 = 0;
    let mut i: usize = 0;
    while i < m
        invariant
            i <= m <= xs@.len(),
            w == views(xs@),
            in_bounds(w),
            sum == beat_sum(w, i as nat),
            0 <= sum <= i * 80_000_000_000_000_000,
        decreases m - i,
    {
        assert(w[i as int] == xs@[i as int]@);
        sum = sum + xs[i].ms_per_beat as i128;
        i = i + 1;
    }
    let count: i128 = m as i128;
    let mut even = true;
    let mut j: usize = 0;
    while j < m
        invariant
            j <= m <= xs@.len(),
            m <= 5,
            count == m,
            w == views(xs@),
            in_bounds(w),
            0 <= sum <= 400_000_000_000_000_000,
            even == (forall|k: int| 0 <= k < j ==> is_steady(#[trigger] w[k], m as int, sum as int)),
        decreases m - j,
    {
        assert(w[j as int] == xs@[j as int]@);
        let beat: i128 = xs[j].ms_per_beat as i128;
        proof {
            assert(0 <= count * beat <= 5 * 80_000_000_000_000_000) by (nonlinear_arith)
                requires
                    0 <= count <= 5,
                    0 <= beat <= 80_000_000_000_000_000,
            ;
        }
        let off: i128 = count * beat - sum;
        if !(-5 * count < off && off < 5 * count) {
            assert(!is_steady(w[j as int], m as int, sum as int));
            even = false;
        }
        j = j + 1;
    }
    assert(w[0] == xs@[0]@);
    let next: i64 = if n < xs.len() {
        assert(w[n as int] == xs@[n as int]@);
        xs[n].time
    } else {
        last
    };
    let jack_end: i64 = xs[0].time + xs[0].ms_per_beat / 2;
    let end: i64 = if core == ManiaPattern::Jacks && jack_end > next {
        jack_end
    } else {
        next
    };
    let inverse = match kind {
        Some(k) => k == Subtype::Inverse,
        None => false,
    };
    proof {
        let s = sum as int;
        let c = m as int;
        assert(0 <= s * 60 / c <= s * 60) by (nonlinear_arith)
            requires
                s >= 0,
                c >= 1,
        ;
        assert(s * 60 / c <= 60 * 80_000_000_000_000_000) by (nonlinear_arith)
            requires
                0 <= s <= c * 80_000_000_000_000_000,
                c >= 1,
        ;
    }
    let ms_per_beat: i64 = if core == ManiaPattern::Density && inverse {
        0
    } else {
        (sum * 60 / count) as i64
    };
    FoundPattern {
        pattern: core,
        specific_type: kind,
        mixed: !even,
        start: xs[0].time,
        end,
        ms_per_beat,
    }
}

/// Whether all stretches have times in range.
pub open spec fn all_valid(v: Seq<FoundPattern>) -> bool {
    forall|i: int| 0 <= i < v.len() ==> stretch_valid(#[trigger] v[i])
}

/// Adds the stretches that a window shows of a core pattern.
fn append_core_matches(
    out: &mut Vec<FoundPattern>,
    core: ManiaPattern,
    table: &SpecificTable,
    keys: usize,
    xs: &[Primitive],
    last: i64,
)
    requires
        in_bounds(views(xs@)),
        xs@.len() > 0,
        0 <= last <= SPAN_LIMIT,
        table.is_for(keys as int),
        all_valid(old(out)@),
    ensures
        final(out)@ == old(out)@ + core_stretches(core, keys as int, views(xs@), last as int),
        all_valid(final(out)@),
        final(out)@.len() <= old(out)@.len() + 5,
{
    let ghost w = views(xs@);
    let ghost before = out@;
    let core_n: usize = match_core(core, xs);
    proof {
        lemma_rows_are_few(core, Subtype::Rolls, w);
    }
    if core_n == 0 {
        assert(out@ =~= before + core_stretches(core, keys as int, w, last as int));
        return;
    }
    let kinds = table.for_core(core);
    let ghost all = kinds_of(core, keys as int);
    assert(kinds@ == all);
    assert(all.len() <= 5);
    let start: usize = out.len();
    let mut k: usize = 0;
    assert(before + kind_stretches(core, all, 0, w, last as int) =~= before);
    while k < kinds.len()
        invariant
            k <= kinds@.len() <= 5,
            kinds@ == all,
            in_bounds(w),
            w == views(xs@),
            xs@.len() > 0,
            0 <= last <= SPAN_LIMIT,
            1 <= core_n <= 5,
            core_n == core_rows(core, w),
            out@ == before + kind_stretches(core, all, k as nat, w, last as int),
            out@.len() <= before.len() + k,
            all_valid(out@),
        decreases kinds@.len() - k,
    {
        let n: usize = match_kind(kinds[k], xs);
        proof {
            lemma_rows_are_few(core, kinds@[k as int], w);
        }
        if n != 0 {
            let rows: usize = if core_n >= n {
                core_n
            } else {
                n
            };
            let found = make_stretch(core, Some(kinds[k]), rows, xs, last);
            let ghost held = out@;
            out.push(found);
            proof {
                assert(out@ =~= before + kind_stretches(core, all, (k + 1) as nat, w, last as int));
                assert forall|i: int| 0 <= i < out@.len() implies stretch_valid(
                    #[trigger] out@[i],
                ) by {
                    if i < held.len() {
                        assert(out@[i] == held[i]);
                    }
                }
            }
        }
        k = k + 1;
    }
    if out.len() == start {
        let found = make_stretch(core, None, core_n, xs, last);
        out.push(found);
        proof {
            assert(out@ =~= before + core_stretches(core, keys as int, w, last as int));
            assert forall|i: int| 0 <= i < out@.len() implies stretch_valid(#[trigger] out@[i]) by {
                if i < before.len() {
                    assert(out@[i] == before[i]);
                }
            }
        }
    }
}

/// Finds the patterns that rows show; `last` is the time of the last row.
pub fn match_rows(keys: usize, xs: &[Primitive], last: i64) -> (r: Vec<FoundPattern>)
    requires
        in_bounds(views(xs@)),
        0 <= last <= SPAN_LIMIT,
    ensures
        r@ == stretches(keys as int, views(xs@), last as int, xs@.len()),
        all_valid(r@),
        r@.len() <= 30 * xs@.len(),
{
    let table = specific_table_for(keys);
    let ghost all = views(xs@);
    let mut out: Vec<FoundPattern> = Vec::new();
    let mut i: usize = 0;
    while i < xs.len()
        invariant
            i <= xs@.len(),
            all == views(xs@),
            in_bounds(all),
            0 <= last <= SPAN_LIMIT,
            table.is_for(keys as int),
            out@ == stretches(keys as int, all, last as int, i as nat),
            all_valid(out@),
            out@.len() <= 30 * i,
        decreases xs@.len() - i,
    {
        let end: usize = if xs.len() - i > MATCHER_WINDOW {
            i + MATCHER_WINDOW
        } else {
            xs.len()
        };
        let window = slice_subrange(xs, i, end);
        let ghost w = views(window@);
        proof {
            assert(w =~= window_at(all, i as int));
            assert forall|j: int| 0 <= j < w.len() implies (#[trigger] w[j]) == all[i + j] by {}
            assert(in_bounds(w));
        }
        let ghost before = out@;
        let mut n: usize = 0;
        assert(before + window_stretches(keys as int, w, last as int, 0) =~= before);
        while n < 6
            invariant
                n <= 6,
                i < xs@.len(),
                in_bounds(w),
                w == views(window@),
                window@.len() > 0,
                0 <= last <= SPAN_LIMIT,
                table.is_for(keys as int),
                out@ == before + window_stretches(keys as int, w, last as int, n as nat),
                all_valid(out@),
                out@.len() <= 30 * i + 5 * n,
            decreases 6 - n,
        {
            let ghost held = out@;
            append_core_matches(&mut out, ManiaPattern::from_index(n), &table, keys, window, last);
            n = n + 1;
            assert(out@ =~= before + window_stretches(keys as int, w, last as int, n as nat));
        }
        i = i + 1;
        assert(out@ =~= stretches(keys as int, all, last as int, i as nat));
    }
    out
}

pub(crate) proof fn lemma_primitives_in_bounds(c: ChartView, n: nat)
    requires
        c.valid(),
        n <= c.notes.len(),
    ensures
        in_bounds(primitives_upto(c, n)),
    decreases n,
{
    if n > 1 {
        lemma_primitives_in_bounds(c, (n - 1) as nat);
        let before = primitives_upto(c, (n - 1) as nat);
        let all = primitives_upto(c, n);
        crate::primitives::lemma_time_before(c.notes, n - 1);
        let j = choose|j: int|
            0 <= j < n - 1 && time_before(c.notes, n - 1) == (#[trigger] c.notes[j]).time;
        assert(c.notes[j].time < c.notes[n - 1].time);
        assert(c.notes[0].time < c.notes[n - 1].time);
        assert(-TIME_LIMIT <= c.notes[j].time <= TIME_LIMIT);
        assert(-TIME_LIMIT <= c.notes[0].time <= TIME_LIMIT);
        assert(-TIME_LIMIT <= c.notes[n - 1].time <= TIME_LIMIT);
        assert forall|i: int| 0 <= i < all.len() implies 0 <= (#[trigger] all[i]).time
            <= SPAN_LIMIT && 0 <= all[i].ms_per_beat <= BEAT_LIMIT && all[i].notes
            == all[i].raw_notes.len() by {
            if i < before.len() {
                assert(all[i] == before[i]);
            }
        }
    }
}

/// Finds the patterns of a chart.
pub fn find(chart: &Chart) -> (r: Vec<FoundPattern>)
    requires
        chart@.valid(),
    ensures
        r@ == found_in(chart@),
        all_valid(r@),
        r@.len() <= 30 * chart@.notes.len(),
{
    let rows = calculate_primitives(chart);
    proof {
        lemma_primitives_in_bounds(chart@, chart@.notes.len());
        assert(in_bounds(Seq::<PrimitiveView>::empty()));
        assert(views(rows@).len() == rows@.len());
    }
    match_rows(chart.keys, rows.as_slice(), chart.duration())
}

} // verus!
