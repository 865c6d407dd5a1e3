//! Reading a beatmap file for analysis.

use crate::number::{
    decimal, lemma_decimal_bound, parse_decimal, parse_unsigned, read_ticks, ticks_in, unsigned_up_to, Number, LIMIT,
    TICKS,
};
use crate::codec::{digest, lossy_text, read_text, sha256};
use crate::order::{law_sorting_is_stable, positions, sort_order, sorted_order};
use crate::text::{
    begins_with, ends_in, ends_with, is_word, split, split_on, starts_with, string_of, texts,
    to_chars, trim, trimmed,
};
use vstd::prelude::*;
use vstd::slice::{slice_subrange, slice_to_vec};

verus! {

/// Why a beatmap cannot be analyzed.
#[derive(Clone, Debug)]
pub enum ManiaAnalyzeError {
    /// The file is not a usable beatmap; the text says why.
    Invalid(String),
    /// The beatmap belongs to another game mode.
    UnsupportedMode(u8),
    /// The beatmap has another number of keys than 4, 6 or 7.
    UnsupportedKeyCount(u8),
}

/// What a [`ManiaAnalyzeError`] says.
pub enum Fault {
    Invalid(Seq<char>),
    UnsupportedMode(u8),
    UnsupportedKeyCount(u8),
}

impl View for ManiaAnalyzeError {
    type V = Fault;

    open spec fn view(&self) -> Fault {
        match self {
            ManiaAnalyzeError::Invalid(text) => Fault::Invalid(text@),
            ManiaAnalyzeError::UnsupportedMode(mode) => Fault::UnsupportedMode(*mode),
            ManiaAnalyzeError::UnsupportedKeyCount(keys) => Fault::UnsupportedKeyCount(*keys),
        }
    }
}

impl ManiaAnalyzeError {
    fn invalid(text: &str) -> (r: ManiaAnalyzeError)
        ensures
            r@ == Fault::Invalid(text@),
    {
        ManiaAnalyzeError::Invalid(text.to_owned())
    }
}

/// A note: its column, and when it is pressed and let go, in ticks.
#[derive(Clone, Copy, Debug, PartialEq, Eq, Structural)]
pub struct HitObject {
    pub column: u8,
    pub start: i128,
    pub end: i128,
    pub long_note: bool,
}

/// The sections of a file that are read.
#[derive(Clone, Copy, Debug, PartialEq, Eq, Structural)]
pub enum Section {
    General,
    Metadata,
    Difficulty,
    TimingPoints,
    HitObjects,
    Other,
}

/// The section that a header opens.
pub open spec fn section_of(header: Seq<char>) -> Section {
    if header == "[General]"@ {
        Section::General
    } else if header == "[Metadata]"@ {
        Section::Metadata
    } else if header == "[Difficulty]"@ {
        Section::Difficulty
    } else if header == "[TimingPoints]"@ {
        Section::TimingPoints
    } else if header == "[HitObjects]"@ {
        Section::HitObjects
    } else {
        Section::Other
    }
}

fn section_from(header: &[char]) -> (r: Section)
    ensures
        r == section_of(header@),
{
    if is_word(header, "[General]") {
        Section::General
    } else if is_word(header, "[Metadata]") {
        Section::Metadata
    } else if is_word(header, "[Difficulty]") {
        Section::Difficulty
    } else if is_word(header, "[TimingPoints]") {
        Section::TimingPoints
    } else if is_word(header, "[HitObjects]") {
        Section::HitObjects
    } else {
        Section::Other
    }
}

/// What is known of a file after some of its lines.
#[verifier::ext_equal]
pub struct DraftView {
    pub section: Section,
    pub mode: Option<u8>,
    pub key_count: Option<u8>,
    pub beatmap_id: u64,
    pub beatmapset_id: u64,
    pub artist: Seq<char>,
    pub title: Seq<char>,
    pub version: Seq<char>,
    pub creator: Seq<char>,
    /// The lengths of a beat, in ticks, of the timing points that set one.
    pub beats: Seq<i128>,
    /// How many timing points change the scroll velocity.
    pub sv_changes: int,
    /// The notes, with places from 0 to 127 in place of columns.
    pub objects: Seq<HitObject>,
    /// Whether a note had a time that is no number or out of range.
    pub untimed: bool,
}

struct Draft {
    section: Section,
    mode: Option<u8>,
    key_count: Option<u8>,
    beatmap_id: u64,
    beatmapset_id: u64,
    artist: Vec<char>,
    title: Vec<char>,
    version: Vec<char>,
    creator: Vec<char>,
    beats: Vec<i128>,
    sv_changes: usize,
    objects: Vec<HitObject>,
    untimed: bool,
}

impl View for Draft {
    type V = DraftView;

    closed spec fn view(&self) -> DraftView {
        DraftView {
            section: self.section,
            mode: self.mode,
            key_count: self.key_count,
            beatmap_id: self.beatmap_id,
            beatmapset_id: self.beatmapset_id,
            artist: self.artist@,
            title: self.title@,
            version: self.version@,
            creator: self.creator@,
            beats: self.beats@,
            sv_changes: self.sv_changes as int,
            objects: self.objects@,
            untimed: self.untimed,
        }
    }
}

/// What is known before the first line.
pub open spec fn blank() -> DraftView {
    DraftView {
        section: Section::Other,
        mode: None,
        key_count: None,
        beatmap_id: 0,
        beatmapset_id: 0,
        artist: Seq::empty(),
        title: Seq::empty(),
        version: Seq::empty(),
        creator: Seq::empty(),
        beats: Seq::empty(),
        sv_changes: 0,
        objects: Seq::empty(),
        untimed: false,
    }
}

/// The text behind a prefix, without white space around it.
pub open spec fn value_of(line: Seq<char>, prefix: Seq<char>) -> Option<Seq<char>> {
    if begins_with(line, prefix) {
        Some(trimmed(line.skip(prefix.len() as int)))
    } else {
        None
    }
}

/// The text behind a prefix, without white space around it.
pub fn value_after<'a>(line: &'a [char], prefix: &str) -> (r: Option<&'a [char]>)
    ensures
        match r {
            Some(v) => value_of(line@, prefix@) == Some(v@),
            None => value_of(line@, prefix@) is None,
        },
{
    if !starts_with(line, prefix) {
        return None;
    }
    let n: usize = to_chars(prefix).len();
    let rest = slice_subrange(line, n, line.len());
    assert(rest@ =~= line@.skip(prefix@.len() as int));
    Some(trim(rest))
}

/// A line of the general section.
pub open spec fn read_general(d: DraftView, line: Seq<char>) -> DraftView {
    match value_of(line, "Mode:"@) {
        Some(v) => DraftView {
            mode: match unsigned_up_to(v, 255) {
                Some(m) => Some(m as u8),
                None => None,
            },
            ..d
        },
        None => d,
    }
}

/// The number in a text, or zero.
pub open spec fn id_of(v: Seq<char>) -> u64 {
    match unsigned_up_to(v, u64::MAX) {
        Some(id) => id,
        None => 0,
    }
}

/// A line of the metadata section.
pub open spec fn read_metadata(d: DraftView, line: Seq<char>) -> DraftView {
    if let Some(v) = value_of(line, "BeatmapID:"@) {
        DraftView { beatmap_id: id_of(v), ..d }
    } else if let Some(v) = value_of(line, "BeatmapSetID:"@) {
        DraftView { beatmapset_id: id_of(v), ..d }
    } else if let Some(v) = value_of(line, "Artist:"@) {
        DraftView { artist: v, ..d }
    } else if let Some(v) = value_of(line, "Title:"@) {
        DraftView { title: v, ..d }
    } else if let Some(v) = value_of(line, "Version:"@) {
        DraftView { version: v, ..d }
    } else if let Some(v) = value_of(line, "Creator:"@) {
        DraftView { creator: v, ..d }
    } else {
        d
    }
}

/// A number rounded to the nearest integer, halves up, and kept within a byte.
pub open spec fn rounded_byte(n: Number) -> u8 {
    match n {
        Number::NotANumber => 0,
        Number::Infinite(negative) => if negative {
            0
        } else {
            255
        },
        Number::Ticks(t) => if t <= 0 {
            0
        } else if (t + TICKS / 2) / (TICKS as int) >= 255 {
            255
        } else {
            ((t + TICKS / 2) / (TICKS as int)) as u8
        },
    }
}

/// A line of the difficulty section.
pub open spec fn read_difficulty(d: DraftView, line: Seq<char>) -> DraftView {
    match value_of(line, "CircleSize:"@) {
        Some(v) => DraftView {
            key_count: match decimal(v) {
                Some(n) => Some(rounded_byte(n)),
                None => None,
            },
            ..d
        },
        None => d,
    }
}

/// The length of a beat in ticks that a text gives; zero where it gives none.
pub open spec fn beat_of(s: Seq<char>) -> i128 {
    match ticks_in(s) {
        Some(t) => t,
        None => 0,
    }
}

/// A line of the timing section.
pub open spec fn read_timing(d: DraftView, line: Seq<char>) -> DraftView {
    let parts = split(line, ',');
    if parts.len() >= 7 {
        let beat = beat_of(parts[1]);
        let uninherited = trimmed(parts[6]) == "1"@;
        if uninherited && beat > 0 {
            DraftView { beats: d.beats.push(beat), ..d }
        } else if !uninherited && beat < 0 {
            DraftView { sv_changes: d.sv_changes + 1, ..d }
        } else {
            d
        }
    } else {
        d
    }
}

/// The place of a horizontal coordinate, from 0 to 127.
pub open spec fn place_of(x: Number) -> u8 {
    match x {
        Number::NotANumber => 0,
        Number::Infinite(negative) => if negative {
            0
        } else {
            127
        },
        Number::Ticks(t) => if t <= 0 {
            0
        } else if t >= 512 * TICKS {
            127
        } else {
            (t as int / (4 * TICKS)) as u8
        },
    }
}

/// Whether bit 7 of a note's kind is set.
pub open spec fn is_long(kind: Seq<char>) -> bool {
    match unsigned_up_to(kind, u32::MAX as u64) {
        Some(k) => (k / 128) % 2 == 1,
        None => false,
    }
}

/// When a long note with the extras `s` ends; never before its start.
pub open spec fn end_of(s: Seq<char>, start: i128) -> i128 {
    match ticks_in(split(s, ':')[0]) {
        Some(e) if e > start => e,
        _ => start,
    }
}

/// A line of the notes section: a list of at least five parts.
pub open spec fn read_object(d: DraftView, line: Seq<char>) -> Result<DraftView, Fault> {
    let parts = split(line, ',');
    if parts.len() < 5 {
        Ok(d)
    } else {
        match (decimal(parts[0]), decimal(parts[2])) {
            (None, _) => Err(Fault::Invalid("invalid hit object x coordinate"@)),
            (Some(_), None) => Err(Fault::Invalid("invalid hit object timestamp"@)),
            (Some(x), Some(start)) => {
                let long_note = is_long(parts[3]);
                match start.ticks() {
                    Some(s) => Ok(
                        DraftView {
                            objects: d.objects.push(
                                HitObject {
                                    column: place_of(x),
                                    start: s,
                                    end: if long_note && parts.len() > 5 {
                                        end_of(parts[5], s)
                                    } else {
                                        s
                                    },
                                    long_note,
                                },
                            ),
                            ..d
                        },
                    ),
                    None => Ok(DraftView { untimed: true, ..d }),
                }
            },
        }
    }
}

/// Whether a line opens a section.
pub open spec fn is_header(line: Seq<char>) -> bool {
    begins_with(line, "["@) && ends_in(line, "]"@)
}

/// One more line.
pub open spec fn read_line(d: DraftView, raw: Seq<char>) -> Result<DraftView, Fault> {
    let line = trimmed(raw);
    if line.len() == 0 || begins_with(line, "//"@) {
        Ok(d)
    } else if is_header(line) {
        Ok(DraftView { section: section_of(line), ..d })
    } else {
        match d.section {
            Section::General => Ok(read_general(d, line)),
            Section::Metadata => Ok(read_metadata(d, line)),
            Section::Difficulty => Ok(read_difficulty(d, line)),
            Section::TimingPoints => Ok(read_timing(d, line)),
            Section::HitObjects => read_object(d, line),
            Section::Other => Ok(d),
        }
    }
}

/// All lines, up to the first that is at fault.
pub open spec fn read_lines(lines: Seq<Seq<char>>) -> Result<DraftView, Fault>
    decreases lines.len(),
{
    if lines.len() == 0 {
        Ok(blank())
    } else {
        match read_lines(lines.drop_last()) {
            Ok(d) => read_line(d, lines.last()),
            Err(e) => Err(e),
        }
    }
}

impl Draft {
    fn new() -> (r: Draft)
        ensures
            r@ == blank(),
            r.sv_changes == 0,
    {
        let r = Draft {
            section: Section::Other,
            mode: None,
            key_count: None,
            beatmap_id: 0,
            beatmapset_id: 0,
            artist: Vec::new(),
            title: Vec::new(),
            version: Vec::new(),
            creator: Vec::new(),
            beats: Vec::new(),
            sv_changes: 0,
            objects: Vec::new(),
            untimed: false,
        };
        assert(r@ =~= blank());
        r
    }
}

impl Draft {
    fn general(&mut self, line: &[char])
        ensures
            final(self)@ == read_general(old(self)@, line@),
            final(self).sv_changes == old(self).sv_changes,
    {
        if let Some(v) = value_after(line, "Mode:") {
            self.mode = match parse_unsigned(v, 255) {
                Some(m) => Some(m as u8),
                None => None,
            };
        }
    }

    fn metadata(&mut self, line: &[char])
        ensures
            final(self)@ == read_metadata(old(self)@, line@),
            final(self).sv_changes == old(self).sv_changes,
    {
        if let Some(v) = value_after(line, "BeatmapID:") {
            self.beatmap_id = read_id(v);
        } else if let Some(v) = value_after(line, "BeatmapSetID:") {
            self.beatmapset_id = read_id(v);
        } else if let Some(v) = value_after(line, "Artist:") {
            self.artist = slice_to_vec(v);
        } else if let Some(v) = value_after(line, "Title:") {
            self.title = slice_to_vec(v);
        } else if let Some(v) = value_after(line, "Version:") {
            self.version = slice_to_vec(v);
        } else if let Some(v) = value_after(line, "Creator:") {
            self.creator = slice_to_vec(v);
        }
    }

    fn difficulty(&mut self, line: &[char])
        ensures
            final(self)@ == read_difficulty(old(self)@, line@),
            final(self).sv_changes == old(self).sv_changes,
    {
        if let Some(v) = value_after(line, "CircleSize:") {
            self.key_count = match parse_decimal(v) {
                Some(n) => Some(round_to_byte(n)),
                None => None,
            };
        }
    }

    fn timing(&mut self, line: &[char])
        requires
            old(self).sv_changes < usize::MAX,
        ensures
            final(self)@ == read_timing(old(self)@, line@),
            final(self).sv_changes <= old(self).sv_changes + 1,
    {
        let parts = split_on(line, ',');
        assert(texts(parts@).len() == parts@.len());
        if parts.len() >= 7 {
            assert(texts(parts@)[1] == parts@[1]@);
            assert(texts(parts@)[6] == parts@[6]@);
            let beat: i128 = match read_ticks(parts[1]) {
                Some(t) => t,
                None => 0,
            };
            let uninherited = is_word(trim(parts[6]), "1");
            if uninherited && beat > 0 {
                self.beats.push(beat);
            } else if !uninherited && beat < 0 {
                self.sv_changes = self.sv_changes + 1;
            }
        }
    }

    fn object(&mut self, line: &[char]) -> (r: Result<(), ManiaAnalyzeError>)
        ensures
            match r {
                Ok(_) => read_object(old(self)@, line@) == Ok::<DraftView, Fault>(final(self)@),
                Err(e) => read_object(old(self)@, line@) == Err::<DraftView, Fault>(e@),
            },
            final(self).sv_changes == old(self).sv_changes,
    {
        let parts = split_on(line, ',');
        assert(texts(parts@).len() == parts@.len());
        if parts.len() < 5 {
            return Ok(());
        }
        assert(texts(parts@)[0] == parts@[0]@);
        assert(texts(parts@)[2] == parts@[2]@);
        assert(texts(parts@)[3] == parts@[3]@);
        let x = match parse_decimal(parts[0]) {
            Some(x) => x,
            None => {
                return Err(ManiaAnalyzeError::invalid("invalid hit object x coordinate"));
            },
        };
        let start = match parse_decimal(parts[2]) {
            Some(start) => start,
            None => {
                return Err(ManiaAnalyzeError::invalid("invalid hit object timestamp"));
            },
        };
        let long_note = match parse_unsigned(parts[3], u32::MAX as u64) {
            Some(k) => (k / 128) % 2 == 1,
            None => false,
        };
        match start.to_ticks() {
            Some(s) => {
                let e: i128 = if long_note && parts.len() > 5 {
                    assert(texts(parts@)[5] == parts@[5]@);
                    end_from(parts[5], s)
                } else {
                    s
                };
                self.objects.push(
                    HitObject { column: place_from(x), start: s, end: e, long_note },
                );
            },
            None => {
                self.untimed = true;
            },
        }
        Ok(())
    }

    fn line(&mut self, raw: &[char]) -> (r: Result<(), ManiaAnalyzeError>)
        requires
            old(self).sv_changes < usize::MAX,
        ensures
            match r {
                Ok(_) => read_line(old(self)@, raw@) == Ok::<DraftView, Fault>(final(self)@),
                Err(e) => read_line(old(self)@, raw@) == Err::<DraftView, Fault>(e@),
            },
            final(self).sv_changes <= old(self).sv_changes + 1,
    {
        let line = trim(raw);
        if line.len() == 0 || starts_with(line, "//") {
            return Ok(());
        }
        if starts_with(line, "[") && ends_with(line, "]") {
            self.section = section_from(line);
            return Ok(());
        }
        match self.section {
            Section::General => self.general(line),
            Section::Metadata => self.metadata(line),
            Section::Difficulty => self.difficulty(line),
            Section::TimingPoints => self.timing(line),
            Section::HitObjects => {
                return self.object(line);
            },
            Section::Other => {},
        }
        Ok(())
    }
}

fn read_id(v: &[char]) -> (r: u64)
    ensures
        r == id_of(v@),
{
    match parse_unsigned(v, u64::MAX) {
        Some(id) => id,
        None => 0,
    }
}

fn round_to_byte(n: Number) -> (r: u8)
    requires
        n matches Number::Ticks(t) ==> t <= LIMIT,
    ensures
        r == rounded_byte(n),
{
    match n {
        Number::NotANumber => 0,
        Number::Infinite(negative) => if negative {
            0
        } else {
            255
        },
        Number::Ticks(t) => {
            if t <= 0 {
                return 0;
            }
            let v: i128 = (t + TICKS / 2) / TICKS;
            if v >= 255 {
                255
            } else {
                v as u8
            }
        },
    }
}

fn place_from(x: Number) -> (r: u8)
    ensures
        r == place_of(x),
{
    match x {
        Number::NotANumber => 0,
        Number::Infinite(negative) => if negative {
            0
        } else {
            127
        },
        Number::Ticks(t) => {
            if t <= 0 {
                0
            } else if t >= 512 * TICKS {
                127
            } else {
                (t / (4 * TICKS)) as u8
            }
        },
    }
}

fn end_from(s: &[char], start: i128) -> (r: i128)
    ensures
        r == end_of(s@, start),
{
    let pieces = split_on(s, ':');
    assert(texts(pieces@)[0] == pieces@[0]@);
    match read_ticks(pieces[0]) {
        Some(e) => {
            if e > start {
                e
            } else {
                start
            }
        },
        None => start,
    }
}

/// A beatmap as far as analysis needs it.
#[derive(Clone, Debug)]
pub struct ParsedManiaBeatmap {
    pub beatmap_id: u64,
    pub beatmapset_id: u64,
    pub artist: String,
    pub title: String,
    pub version: String,
    pub creator: String,
    pub key_count: u8,
    /// The median length of a beat in ticks, where any timing point sets one.
    pub beat: Option<i128>,
    pub sv_changes: usize,
    /// The notes in order of time, then column.
    pub objects: Vec<HitObject>,
}

/// A [`ParsedManiaBeatmap`] as a value.
#[verifier::ext_equal]
pub struct ParsedView {
    pub beatmap_id: u64,
    pub beatmapset_id: u64,
    pub artist: Seq<char>,
    pub title: Seq<char>,
    pub version: Seq<char>,
    pub creator: Seq<char>,
    pub key_count: u8,
    pub beat: Option<i128>,
    pub sv_changes: int,
    pub objects: Seq<HitObject>,
}

impl View for ParsedManiaBeatmap {
    type V = ParsedView;

    open spec fn view(&self) -> ParsedView {
        ParsedView {
            beatmap_id: self.beatmap_id,
            beatmapset_id: self.beatmapset_id,
            artist: self.artist@,
            title: self.title@,
            version: self.version@,
            creator: self.creator@,
            key_count: self.key_count,
            beat: self.beat,
            sv_changes: self.sv_changes as int,
            objects: self.objects@,
        }
    }
}

/// Whether a note lies on one of `keys` columns and has times within the
/// limits, in order.
pub open spec fn well_placed(o: HitObject, keys: int) -> bool {
    o.column < keys && -LIMIT <= o.start <= o.end <= LIMIT
}

impl ParsedView {
    /// Whether the key count is supported and there are notes, all well placed.
    pub open spec fn valid(self) -> bool {
        &&& self.key_count == 4 || self.key_count == 6 || self.key_count == 7
        &&& self.objects.len() > 0
        &&& forall|i: int|
            0 <= i < self.objects.len() ==> well_placed(
                #[trigger] self.objects[i],
                self.key_count as int,
            )
        &&& self.beat matches Some(b) ==> 0 < b <= LIMIT
    }
}

/// A note moved from its place to its column.
pub open spec fn columned(o: HitObject, keys: u8) -> HitObject {
    HitObject { column: (o.column as int * keys / 128) as u8, ..o }
}

/// The key that orders notes by time, then column.
pub open spec fn object_key(o: HitObject) -> i128 {
    (o.start * 8 + o.column) as i128
}

/// Notes in order of time, then column; equal ones stay in order.
pub open spec fn sorted_objects(objects: Seq<HitObject>) -> Seq<HitObject> {
    let order = sorted_order(objects.map_values(|o: HitObject| object_key(o)));
    Seq::new(objects.len(), |i: int| objects[order[i]])
}

/// The middle of the beats, the longest first; the later of two middles.
pub open spec fn median_beat(beats: Seq<i128>) -> Option<i128> {
    if beats.len() == 0 {
        None
    } else {
        let order = sorted_order(beats.map_values(|b: i128| (-b) as i128));
        Some(beats[order[beats.len() as int / 2]])
    }
}

/// The first `n` bytes as one number, the most significant first.
pub open spec fn big_endian(bytes: Seq<u8>, n: nat) -> nat
    decreases n,
{
    if n == 0 {
        0
    } else {
        big_endian(bytes, (n - 1) as nat) * 256 + bytes[n - 1] as nat
    }
}

/// The first identifier that no ranked beatmap has.
pub const LOCAL_IDS: u64 = 0x1_0000_0000_0000;

/// The identifier of a beatmap without one: [`LOCAL_IDS`] and up, by the first
/// six bytes of its digest.
pub open spec fn local_id(digest: Seq<u8>) -> u64 {
    (LOCAL_IDS + big_endian(digest, 6)) as u64
}

/// What the whole file gives.
pub open spec fn finished(d: DraftView, digest: Seq<u8>) -> Result<ParsedView, Fault> {
    match (d.mode, d.key_count) {
        (None, _) => Err(Fault::Invalid("missing Mode"@)),
        (Some(mode), _) if mode != 3 => Err(Fault::UnsupportedMode(mode)),
        (Some(_), None) => Err(Fault::Invalid("missing CircleSize/key count"@)),
        (Some(_), Some(keys)) => if keys != 4 && keys != 6 && keys != 7 {
            Err(Fault::UnsupportedKeyCount(keys))
        } else if d.untimed {
            Err(Fault::Invalid("invalid hit object timestamp"@))
        } else if d.objects.len() == 0 {
            Err(Fault::Invalid("beatmap has no hit objects"@))
        } else {
            Ok(
                ParsedView {
                    beatmap_id: if d.beatmap_id == 0 {
                        local_id(digest)
                    } else {
                        d.beatmap_id
                    },
                    beatmapset_id: d.beatmapset_id,
                    artist: d.artist,
                    title: d.title,
                    version: d.version,
                    creator: d.creator,
                    key_count: keys,
                    beat: median_beat(d.beats),
                    sv_changes: d.sv_changes,
                    objects: sorted_objects(
                        d.objects.map_values(|o: HitObject| columned(o, keys)),
                    ),
                },
            )
        },
    }
}

/// What the text of a file gives; `digest` is the fingerprint of the file.
pub open spec fn parsed(text: Seq<char>, digest: Seq<u8>) -> Result<ParsedView, Fault> {
    match read_lines(split(text, '\n')) {
        Ok(d) => finished(d, digest),
        Err(e) => Err(e),
    }
}

/// Whether all notes have places below 128 and usable times, and all beats are
/// positive.
pub open spec fn sound(d: DraftView) -> bool {
    &&& forall|i: int| 0 <= i < d.objects.len() ==> well_placed(#[trigger] d.objects[i], 128)
    &&& forall|i: int| 0 <= i < d.beats.len() ==> 0 < #[trigger] d.beats[i] <= LIMIT
}

pub(crate) proof fn lemma_sound(lines: Seq<Seq<char>>)
    ensures
        read_lines(lines) matches Ok(d) ==> sound(d),
    decreases lines.len(),
{
    if lines.len() > 0 {
        lemma_sound(lines.drop_last());
        if let Ok(d) = read_lines(lines.drop_last()) {
            let line = trimmed(lines.last());
            let parts = split(line, ',');
            lemma_decimal_bound(parts[1]);
            lemma_decimal_bound(parts[2]);
            lemma_decimal_bound(split(parts[5], ':')[0]);
        }
    }
}

pub(crate) proof fn lemma_big_endian(bytes: Seq<u8>)
    ensures
        big_endian(bytes, 6) < 0x1_0000_0000_0000,
{
    reveal_with_fuel(big_endian, 7);
}

/// Every beatmap that can be read has a supported key count and notes, all of
/// them on its columns and with times in order.
pub proof fn law_parsed_is_valid(text: Seq<char>, digest: Seq<u8>)
    ensures
        parsed(text, digest) matches Ok(p) ==> p.valid(),
{
    lemma_sound(split(text, '\n'));
    if let Ok(d) = read_lines(split(text, '\n')) {
        if let Ok(p) = finished(d, digest) {
            let keys = d.key_count->Some_0;
            let moved = d.objects.map_values(|o: HitObject| columned(o, keys));
            let ks = moved.map_values(|o: HitObject| object_key(o));
            law_sorting_is_stable(ks, ks.len());
            let order = sorted_order(ks);
            assert forall|i: int| 0 <= i < p.objects.len() implies well_placed(
                #[trigger] p.objects[i],
                keys as int,
            ) by {
                let o = d.objects[order[i]];
                assert(well_placed(o, 128));
                assert(p.objects[i] == columned(o, keys));
            }
            if d.beats.len() > 0 {
                let bs = d.beats.map_values(|b: i128| (-b) as i128);
                law_sorting_is_stable(bs, bs.len());
                let m = sorted_order(bs)[d.beats.len() as int / 2];
                assert(0 < d.beats[m] <= LIMIT);
            }
        }
    }
}

impl Draft {
    fn finish(self, digest: &[u8; 32]) -> (r: Result<ParsedManiaBeatmap, ManiaAnalyzeError>)
        requires
            sound(self@),
        ensures
            match r {
                Ok(p) => finished(self@, digest@) == Ok::<ParsedView, Fault>(p@),
                Err(e) => finished(self@, digest@) == Err::<ParsedView, Fault>(e@),
            },
    {
        let mode: u8 = match self.mode {
            Some(mode) => mode,
            None => {
                return Err(ManiaAnalyzeError::invalid("missing Mode"));
            },
        };
        if mode != 3 {
            return Err(ManiaAnalyzeError::UnsupportedMode(mode));
        }
        let keys: u8 = match self.key_count {
            Some(keys) => keys,
            None => {
                return Err(ManiaAnalyzeError::invalid("missing CircleSize/key count"));
            },
        };
        if keys != 4 && keys != 6 && keys != 7 {
            return Err(ManiaAnalyzeError::UnsupportedKeyCount(keys));
        }
        if self.untimed {
            return Err(ManiaAnalyzeError::invalid("invalid hit object timestamp"));
        }
        if self.objects.len() == 0 {
            return Err(ManiaAnalyzeError::invalid("beatmap has no hit objects"));
        }
        let id: u64 = if self.beatmap_id == 0 {
            id_from(digest)
        } else {
            self.beatmap_id
        };
        let moved = to_columns(self.objects.as_slice(), keys);
        Ok(
            ParsedManiaBeatmap {
                beatmap_id: id,
                beatmapset_id: self.beatmapset_id,
                artist: string_of(self.artist.as_slice()),
                title: string_of(self.title.as_slice()),
                version: string_of(self.version.as_slice()),
                creator: string_of(self.creator.as_slice()),
                key_count: keys,
                beat: middle_beat(self.beats.as_slice()),
                sv_changes: self.sv_changes,
                objects: sort_objects(moved.as_slice()),
            },
        )
    }
}

fn id_from(digest: &[u8; 32]) -> (r: u64)
    ensures
        r == local_id(digest@),
{
    proof {
        lemma_big_endian(digest@);
    }
    let mut v: u64 = 0;
    let mut i: usize = 0;
    while i < 6
        invariant
            i <= 6,
            v == big_endian(digest@, i as nat),
            i == 0 ==> v < 1,
            i == 1 ==> v < 0x100,
            i == 2 ==> v < 0x1_0000,
            i == 3 ==> v < 0x100_0000,
            i == 4 ==> v < 0x1_0000_0000,
            i == 5 ==> v < 0x100_0000_0000,
            i == 6 ==> v < 0x1_0000_0000_0000,
        decreases 6 - i,
    {
        v = v * 256 + digest[i] as u64;
        i = i + 1;
    }
    LOCAL_IDS + v
}

fn to_columns(objects: &[HitObject], keys: u8) -> (r: Vec<HitObject>)
    requires
        keys <= 7,
        forall|i: int| 0 <= i < objects@.len() ==> well_placed(#[trigger] objects@[i], 128),
    ensures
        r@ == objects@.map_values(|o: HitObject| columned(o, keys)),
        forall|i: int|
            0 <= i < r@.len() ==> #[trigger] r@[i].column < 8 && -LIMIT <= r@[i].start <= LIMIT,
{
    let mut out: Vec<HitObject> = Vec::new();
    let mut i: usize = 0;
    while i < objects.len()
        invariant
            i <= objects@.len(),
            out@.len() == i,
            keys <= 7,
            forall|j: int| 0 <= j < objects@.len() ==> well_placed(#[trigger] objects@[j], 128),
            forall|j: int| 0 <= j < i ==> #[trigger] out@[j] == columned(objects@[j], keys),
            forall|j: int|
                0 <= j < i ==> #[trigger] out@[j].column < 8 && -LIMIT <= out@[j].start <= LIMIT,
        decreases objects@.len() - i,
    {
        let o = objects[i];
        assert(well_placed(objects@[i as int], 128));
        assert(o.column * keys <= 127 * 7) by (nonlinear_arith)
            requires
                o.column <= 127,
                keys <= 7,
        ;
        let place: u32 = o.column as u32;
        let column: u8 = (place * (keys as u32) / 128) as u8;
        out.push(HitObject { column, start: o.start, end: o.end, long_note: o.long_note });
        i = i + 1;
    }
    assert(out@ =~= objects@.map_values(|o: HitObject| columned(o, keys)));
    out
}

fn sort_objects(objects: &[HitObject]) -> (r: Vec<HitObject>)
    requires
        forall|i: int|
            0 <= i < objects@.len() ==> #[trigger] objects@[i].column < 8 && -LIMIT
                <= objects@[i].start <= LIMIT,
    ensures
        r@ == sorted_objects(objects@),
{
    let mut keys: Vec<i128> = Vec::new();
    let mut i: usize = 0;
    while i < objects.len()
        invariant
            i <= objects@.len(),
            keys@.len() == i,
            forall|j: int|
                0 <= j < objects@.len() ==> #[trigger] objects@[j].column < 8 && -LIMIT
                    <= objects@[j].start <= LIMIT,
            forall|j: int| 0 <= j < i ==> #[trigger] keys@[j] == object_key(objects@[j]),
        decreases objects@.len() - i,
    {
        let o = objects[i];
        assert(objects@[i as int].column < 8);
        keys.push(o.start * 8 + o.column as i128);
        i = i + 1;
    }
    assert(keys@ =~= objects@.map_values(|o: HitObject| object_key(o)));
    let order = sort_order(keys.as_slice());
    let mut out: Vec<HitObject> = Vec::new();
    let mut n: usize = 0;
    while n < order.len()
        invariant
            n <= order@.len(),
            out@.len() == n,
            order@.len() == objects@.len(),
            forall|j: int| 0 <= j < order@.len() ==> #[trigger] order@[j] < objects@.len(),
            forall|j: int| 0 <= j < n ==> #[trigger] out@[j] == objects@[order@[j] as int],
        decreases order@.len() - n,
    {
        out.push(objects[order[n]]);
        n = n + 1;
    }
    assert forall|j: int| 0 <= j < out@.len() implies #[trigger] out@[j] == sorted_objects(
        objects@,
    )[j] by {
        assert(positions(order@)[j] == order@[j]);
    }
    assert(out@ =~= sorted_objects(objects@));
    out
}

fn middle_beat(beats: &[i128]) -> (r: Option<i128>)
    requires
        forall|i: int| 0 <= i < beats@.len() ==> 0 < #[trigger] beats@[i] <= LIMIT,
    ensures
        r == median_beat(beats@),
{
    if beats.len() == 0 {
        return None;
    }
    let mut keys: Vec<i128> = Vec::new();
    let mut i: usize = 0;
    while i < beats.len()
        invariant
            i <= beats@.len(),
            keys@.len() == i,
            forall|j: int| 0 <= j < beats@.len() ==> 0 < #[trigger] beats@[j] <= LIMIT,
            forall|j: int| 0 <= j < i ==> #[trigger] keys@[j] == -beats@[j],
        decreases beats@.len() - i,
    {
        assert(0 < beats@[i as int]);
        keys.push(-beats[i]);
        i = i + 1;
    }
    assert(keys@ =~= beats@.map_values(|b: i128| (-b) as i128));
    let order = sort_order(keys.as_slice());
    let middle: usize = beats.len() / 2;
    assert(positions(order@)[middle as int] == order@[middle as int]);
    Some(beats[order[middle]])
}

fn read_draft(text: &[char]) -> (r: Result<Draft, ManiaAnalyzeError>)
    ensures
        match r {
            Ok(d) => read_lines(split(text@, '\n')) == Ok::<DraftView, Fault>(d@),
            Err(e) => read_lines(split(text@, '\n')) == Err::<DraftView, Fault>(e@),
        },
{
    let lines = split_on(text, '\n');
    let ghost all = split(text@, '\n');
    let mut draft = Draft::new();
    let mut i: usize = 0;
    assert(all.take(0) =~= Seq::<Seq<char>>::empty());
    while i < lines.len()
        invariant
            i <= lines@.len(),
            texts(lines@) == all,
            all == split(text@, '\n'),
            draft.sv_changes <= i,
            read_lines(all.take(i as int)) == Ok::<DraftView, Fault>(draft@),
        decreases lines@.len() - i,
    {
        proof {
            assert(all.len() == lines@.len());
            assert(all[i as int] == lines@[i as int]@);
            assert(all.take(i + 1).drop_last() =~= all.take(i as int));
            assert(all.take(i + 1).last() == all[i as int]);
        }
        if let Err(e) = draft.line(lines[i]) {
            proof {
                lemma_fault_stays(all, i + 1);
            }
            return Err(e);
        }
        i = i + 1;
    }
    assert(all.take(i as int) =~= all);
    Ok(draft)
}

/// Once a line is at fault, so is the file, for the same reason.
proof fn lemma_fault_stays(lines: Seq<Seq<char>>, n: int)
    requires
        0 <= n <= lines.len(),
        read_lines(lines.take(n)) is Err,
    ensures
        read_lines(lines) == read_lines(lines.take(n)),
    decreases lines.len() - n,
{
    if n < lines.len() {
        assert(lines.take(n + 1).drop_last() =~= lines.take(n));
        lemma_fault_stays(lines, n + 1);
    } else {
        assert(lines.take(n) =~= lines);
    }
}

/// Reads the text of a beatmap file whose fingerprint is `digest`.
pub fn parse_text(text: &[char], digest: &[u8; 32]) -> (r: Result<
    ParsedManiaBeatmap,
    ManiaAnalyzeError,
>)
    ensures
        match r {
            Ok(p) => parsed(text@, digest@) == Ok::<ParsedView, Fault>(p@) && p@.valid(),
            Err(e) => parsed(text@, digest@) == Err::<ParsedView, Fault>(e@),
        },
{
    proof {
        law_parsed_is_valid(text@, digest@);
        lemma_sound(split(text@, '\n'));
    }
    match read_draft(text) {
        Ok(draft) => draft.finish(digest),
        Err(e) => Err(e),
    }
}

/// Reads a beatmap file.
pub fn parse_beatmap(bytes: &[u8]) -> (r: Result<ParsedManiaBeatmap, ManiaAnalyzeError>)
    ensures
        match r {
            Ok(p) => parsed(lossy_text(bytes@), sha256(bytes@)) == Ok::<ParsedView, Fault>(p@)
                && p@.valid(),
            Err(e) => parsed(lossy_text(bytes@), sha256(bytes@)) == Err::<ParsedView, Fault>(e@),
        },
{
    let text = read_text(bytes);
    let chars = to_chars(text.as_str());
    parse_text(chars.as_slice(), &digest(bytes))
}

/// Whether a trimmed line says something within its section.
pub open spec fn is_entry(line: Seq<char>) -> bool {
    line.len() > 0 && !begins_with(line, "//"@) && !is_header(line)
}

/// The section that some lines leave open.
pub open spec fn section_after(lines: Seq<Seq<char>>) -> Section
    decreases lines.len(),
{
    if lines.len() == 0 {
        Section::Other
    } else {
        let line = trimmed(lines.last());
        if line.len() > 0 && !begins_with(line, "//"@) && is_header(line) {
            section_of(line)
        } else {
            section_after(lines.drop_last())
        }
    }
}

/// The game mode that some lines give: the last one that the general section
/// gives, where it is a number up to 255.
pub open spec fn mode_said(lines: Seq<Seq<char>>) -> Option<u8>
    decreases lines.len(),
{
    if lines.len() == 0 {
        None
    } else {
        let line = trimmed(lines.last());
        let before = lines.drop_last();
        match value_of(line, "Mode:"@) {
            Some(v) if is_entry(line) && section_after(before) == Section::General =>
                match unsigned_up_to(v, 255) {
                Some(m) => Some(m as u8),
                None => None,
            },
            _ => mode_said(before),
        }
    }
}

/// The number of keys that some lines give: the last circle size that the
/// difficulty section gives, rounded, where it is a number.
pub open spec fn keys_said(lines: Seq<Seq<char>>) -> Option<u8>
    decreases lines.len(),
{
    if lines.len() == 0 {
        None
    } else {
        let line = trimmed(lines.last());
        let before = lines.drop_last();
        match value_of(line, "CircleSize:"@) {
            Some(v) if is_entry(line) && section_after(before) == Section::Difficulty =>
                match decimal(v) {
                Some(n) => Some(rounded_byte(n)),
                None => None,
            },
            _ => keys_said(before),
        }
    }
}

/// Whether line `i` is a note: a line of the notes section with at least five
/// parts.
pub open spec fn is_object(lines: Seq<Seq<char>>, i: int) -> bool {
    &&& 0 <= i < lines.len()
    &&& section_after(lines.take(i)) == Section::HitObjects
    &&& is_entry(trimmed(lines[i]))
    &&& split(trimmed(lines[i]), ',').len() >= 5
}

/// Whether part `k` of a line reads as a number, which may be "nan".
pub open spec fn reads_as_number(line: Seq<char>, k: int) -> bool {
    decimal(split(trimmed(line), ',')[k]) is Some
}

/// Whether the coordinate and the time of each note read as numbers.
pub open spec fn objects_read(lines: Seq<Seq<char>>) -> bool {
    forall|i: int| #[trigger]
        is_object(lines, i) ==> reads_as_number(lines[i], 0) && reads_as_number(lines[i], 2)
}

/// Whether the time of line `i`, a note, is a number, infinite or not.
pub open spec fn is_timed_object(lines: Seq<Seq<char>>, i: int) -> bool {
    is_object(lines, i) && ticks_in(split(trimmed(lines[i]), ',')[2]) is Some
}

pub(crate) proof fn lemma_objects_so_far(lines: Seq<Seq<char>>, i: int)
    requires
        lines.len() > 0,
        i < lines.len() - 1,
    ensures
        is_object(lines, i) == is_object(lines.drop_last(), i),
        is_timed_object(lines, i) == is_timed_object(lines.drop_last(), i),
{
    if i >= 0 {
        assert(lines.drop_last().take(i) =~= lines.take(i));
    }
}

/// What lines give, apart from the contents of the notes.
pub(crate) proof fn lemma_draft(lines: Seq<Seq<char>>)
    ensures
        read_lines(lines) is Ok <==> objects_read(lines),
        read_lines(lines) matches Ok(d) ==> {
            &&& d.section == section_after(lines)
            &&& d.mode == mode_said(lines)
            &&& d.key_count == keys_said(lines)
            &&& d.objects.len() > 0 <==> exists|i: int| #[trigger] is_timed_object(lines, i)
            &&& d.untimed <==> exists|i: int| #[trigger]
                is_object(lines, i) && !is_timed_object(lines, i)
        },
    decreases lines.len(),
{
    if lines.len() > 0 {
        let before = lines.drop_last();
        let n = lines.len() - 1;
        lemma_draft(before);
        assert(lines.take(n) =~= before);
        assert forall|i: int| i < n implies #[trigger] is_object(lines, i) == is_object(before, i)
            && is_timed_object(lines, i) == is_timed_object(before, i) && (is_object(before, i)
            ==> before[i] == lines[i]) by {
            lemma_objects_so_far(lines, i);
        }
        assert forall|i: int| #[trigger] is_object(before, i) implies is_object(lines, i) by {
            lemma_objects_so_far(lines, i);
        }
        assert forall|i: int| #[trigger] is_timed_object(before, i) implies is_timed_object(
            lines,
            i,
        ) by {
            lemma_objects_so_far(lines, i);
        }
        assert forall|i: int| #[trigger] is_timed_object(lines, i) && i != n implies
            is_timed_object(before, i) by {
            lemma_objects_so_far(lines, i);
        }
        assert(objects_read(lines) <==> objects_read(before) && (is_object(lines, n) ==>
            reads_as_number(lines[n], 0) && reads_as_number(lines[n], 2))) by {
            if objects_read(lines) {
                assert forall|i: int| #[trigger] is_object(before, i) implies reads_as_number(
                    before[i],
                    0,
                ) && reads_as_number(before[i], 2) by {
                    assert(is_object(lines, i));
                }
            }
        }
        let line = trimmed(lines.last());
        if let Ok(d) = read_lines(before) {
            assert(is_object(lines, n) <==> is_entry(line) && d.section == Section::HitObjects
                && split(line, ',').len() >= 5);
            if let Ok(e) = read_lines(lines) {
                if is_object(lines, n) {
                    assert(is_timed_object(lines, n) <==> ticks_in(split(line, ',')[2]) is Some);
                    if is_timed_object(lines, n) {
                        assert(e.objects.len() == d.objects.len() + 1);
                        assert(e.untimed == d.untimed);
                    } else {
                        assert(e.untimed);
                        assert(e.objects == d.objects);
                    }
                } else {
                    assert(e.objects == d.objects);
                    assert(e.untimed == d.untimed);
                }
            }
        }
    }
}

/// A file can be read exactly where its mode is the fourth, its key count is
/// supported, it has notes, and the coordinate and the time of each of them
/// are numbers, however large. Otherwise the error is that of the first note
/// that does not read; else the first of: a missing mode, another mode, a
/// missing key count, another key count, a time that is no number, no notes.
pub proof fn law_what_can_be_read(text: Seq<char>, digest: Seq<u8>)
    ensures
        ({
            let lines = split(text, '\n');
            let (mode, keys) = (mode_said(lines), keys_said(lines));
            let r = parsed(text, digest);
            let some = exists|i: int| #[trigger] is_object(lines, i);
            let timed = forall|i: int| #[trigger]
                is_object(lines, i) ==> is_timed_object(lines, i);
            &&& r is Ok <==> mode == Some(3u8) && (keys == Some(4u8) || keys == Some(6u8) || keys
                == Some(7u8)) && some && timed && objects_read(lines)
            &&& r matches Ok(p) ==> keys == Some(p.key_count)
            &&& objects_read(lines) ==> match (mode, keys) {
                (None, _) => r == Err::<ParsedView, Fault>(Fault::Invalid("missing Mode"@)),
                (Some(m), _) if m != 3 => r == Err::<ParsedView, Fault>(Fault::UnsupportedMode(m)),
                (Some(_), None) => r == Err::<ParsedView, Fault>(
                    Fault::Invalid("missing CircleSize/key count"@),
                ),
                (Some(_), Some(k)) if k != 4 && k != 6 && k != 7 => r == Err::<ParsedView, Fault>(
                    Fault::UnsupportedKeyCount(k),
                ),
                _ => if !timed {
                    r == Err::<ParsedView, Fault>(Fault::Invalid("invalid hit object timestamp"@))
                } else if !some {
                    r == Err::<ParsedView, Fault>(Fault::Invalid("beatmap has no hit objects"@))
                } else {
                    r is Ok
                },
            }
        }),
{
    let lines = split(text, '\n');
    lemma_draft(lines);
    if let Ok(d) = read_lines(lines) {
        if d.objects.len() > 0 {
            let i = choose|i: int| #[trigger] is_timed_object(lines, i);
            assert(is_object(lines, i));
        }
        if !d.untimed && exists|i: int| #[trigger] is_object(lines, i) {
            let i = choose|i: int| #[trigger] is_object(lines, i);
            assert(is_timed_object(lines, i));
        }
    }
}

} // verus!
