//! The analysis of a beatmap file.

use crate::beatmap::{
    big_endian, keys_said, law_parsed_is_valid, law_what_can_be_read, local_id, mode_said,
    parse_text, parsed, Fault, HitObject, ManiaAnalyzeError, ParsedManiaBeatmap, ParsedView,
    LOCAL_IDS,
};
use crate::codec::{digest, hex_string, hex_text, lossy_text, read_text, sha256};
use crate::features::{
    bpm_of, summarize, summary_of, ManiaBaseFeatures, ManiaStyleVector, Summary,
};
use crate::number::{decimal_text, write_decimal, LIMIT};
use crate::strain::{strain, strain_rows, strain_views, StrainRow, StrainView, SECOND};
use crate::text::{split, string_of, to_chars};
use crate::timeline::{all_timed, lemma_timeline, timed, timeline, timeline_rows};
use crate::types::{ManiaBeatmapMetadata, ManiaGameMod, ManiaModeFamily, ManiaPattern};
use vstd::prelude::*;

verus! {

/// The version of the analysis; a change to any formula changes it.
pub const MANIA_ANALYZER_VERSION: u32 = 1;

impl ManiaGameMod {
    /// How many parts of played time a tick of the file lasts.
    pub open spec fn stretch(self) -> int {
        match self {
            ManiaGameMod::Nm => 3,
            ManiaGameMod::Dt => 2,
            ManiaGameMod::Ht => 4,
        }
    }

    fn factor(self) -> (r: i128)
        ensures
            r == self.stretch(),
            2 <= r <= 4,
    {
        match self {
            ManiaGameMod::Nm => 3,
            ManiaGameMod::Dt => 2,
            ManiaGameMod::Ht => 4,
        }
    }
}

/// A tick lasts three parts, divided by the clock rate.
pub proof fn law_stretch_is_inverse_of_rate(m: ManiaGameMod)
    ensures
        m.stretch() * m.spec_rate().num == 3 * m.spec_rate().den,
{
}

/// A note at a clock rate: its times in parts.
pub open spec fn clocked_object(o: HitObject, m: ManiaGameMod) -> HitObject {
    HitObject {
        start: (o.start * m.stretch()) as i128,
        end: (o.end * m.stretch()) as i128,
        ..o
    }
}

/// A beatmap at a clock rate: its times in parts.
pub open spec fn clocked(p: ParsedView, m: ManiaGameMod) -> ParsedView {
    ParsedView {
        beat: match p.beat {
            Some(b) => Some((b * m.stretch()) as i128),
            None => None,
        },
        objects: p.objects.map_values(|o: HitObject| clocked_object(o, m)),
        ..p
    }
}

pub(crate) proof fn lemma_clocked(p: ParsedView, m: ManiaGameMod)
    requires
        p.valid(),
    ensures
        all_timed(clocked(p, m).objects),
{
    assert forall|i: int| 0 <= i < p.objects.len() implies timed(
        #[trigger] clocked(p, m).objects[i],
    ) by {
        let o = p.objects[i];
        let f = m.stretch();
        assert(crate::beatmap::well_placed(o, p.key_count as int));
        assert(-4 * LIMIT <= o.start * f <= o.end * f <= 4 * LIMIT) by (nonlinear_arith)
            requires
                -LIMIT <= o.start <= o.end <= LIMIT,
                2 <= f <= 4,
        ;
    }
}

impl ParsedManiaBeatmap {
    /// Brings a beatmap to a clock rate: its times then count parts.
    pub fn apply_clock_rate(&mut self, game_mod: ManiaGameMod)
        requires
            old(self)@.valid(),
        ensures
            final(self)@ == clocked(old(self)@, game_mod),
    {
        let f: i128 = game_mod.factor();
        let ghost before = self@;
        if let Some(b) = self.beat {
            self.beat = Some(b * f);
        }
        let mut moved: Vec<HitObject> = Vec::new();
        let mut i: usize = 0;
        while i < self.objects.len()
            invariant
                i <= self.objects@.len(),
                self.objects@ == before.objects,
                before.valid(),
                2 <= f <= 4,
                f == game_mod.stretch(),
                moved@.len() == i,
                forall|j: int|
                    0 <= j < i ==> #[trigger] moved@[j] == clocked_object(
                        before.objects[j],
                        game_mod,
                    ),
            decreases self.objects@.len() - i,
        {
            let o = self.objects[i];
            assert(crate::beatmap::well_placed(before.objects[i as int], before.key_count as int));
            assert(-4 * LIMIT <= o.start * f <= o.end * f <= 4 * LIMIT) by (nonlinear_arith)
                requires
                    -LIMIT <= o.start <= o.end <= LIMIT,
                    2 <= f <= 4,
            ;
            moved.push(
                HitObject {
                    column: o.column,
                    start: o.start * f,
                    end: o.end * f,
                    long_note: o.long_note,
                },
            );
            i = i + 1;
        }
        self.objects = moved;
        assert(self@ =~= clocked(before, game_mod));
    }
}

/// What the analysis of a beatmap records: exact features, and what each row
/// asks of the hands.
#[derive(Clone, Debug)]
pub struct ManiaRawFeatureRecord {
    pub beatmap_id: u64,
    pub beatmapset_id: u64,
    pub style: ManiaStyleVector,
    pub base: ManiaBaseFeatures,
    pub key_count: u8,
    pub mode_family: ManiaModeFamily,
    pub dominant_pattern: ManiaPattern,
    pub analyzer_version: u32,
    pub strain: Vec<StrainRow>,
}

/// A [`ManiaRawFeatureRecord`] as a value.
#[verifier::ext_equal]
pub struct RecordView {
    pub beatmap_id: u64,
    pub beatmapset_id: u64,
    pub style: ManiaStyleVector,
    pub base: ManiaBaseFeatures,
    pub key_count: u8,
    pub mode_family: ManiaModeFamily,
    pub dominant_pattern: ManiaPattern,
    pub analyzer_version: u32,
    pub strain: Seq<StrainView>,
}

impl View for ManiaRawFeatureRecord {
    type V = RecordView;

    open spec fn view(&self) -> RecordView {
        RecordView {
            beatmap_id: self.beatmap_id,
            beatmapset_id: self.beatmapset_id,
            style: self.style,
            base: self.base,
            key_count: self.key_count,
            mode_family: self.mode_family,
            dominant_pattern: self.dominant_pattern,
            analyzer_version: self.analyzer_version,
            strain: strain_views(self.strain@),
        }
    }
}

/// A [`ManiaBeatmapMetadata`] as a value.
#[verifier::ext_equal]
pub struct MetadataView {
    pub beatmap_id: u64,
    pub beatmapset_id: u64,
    pub checksum: Seq<char>,
    pub artist: Seq<char>,
    pub title: Seq<char>,
    pub version: Seq<char>,
    pub creator: Seq<char>,
    pub online_url: Seq<char>,
    pub key_count: u8,
    pub mode_family: ManiaModeFamily,
    pub dominant_pattern: ManiaPattern,
}

impl View for ManiaBeatmapMetadata {
    type V = MetadataView;

    open spec fn view(&self) -> MetadataView {
        MetadataView {
            beatmap_id: self.beatmap_id,
            beatmapset_id: self.beatmapset_id,
            checksum: self.checksum@,
            artist: self.artist@,
            title: self.title@,
            version: self.version@,
            creator: self.creator@,
            online_url: self.online_url@,
            key_count: self.key_count,
            mode_family: self.mode_family,
            dominant_pattern: self.dominant_pattern,
        }
    }
}

/// Where a beatmap is found; nowhere if its identifier is a local one.
pub open spec fn url_of(id: u64) -> Seq<char> {
    if id < LOCAL_IDS {
        "https://osu.ppy.sh/b/"@ + decimal_text(id as nat)
    } else {
        Seq::empty()
    }
}

/// Where a beatmap is found; nowhere if its identifier is a local one.
pub fn online_url(id: u64) -> (r: String)
    ensures
        r@ == url_of(id),
{
    if id >= LOCAL_IDS {
        let r = String::new();
        assert(r@ =~= url_of(id));
        return r;
    }
    let digits = write_decimal(id);
    let tail = string_of(digits.as_slice());
    let mut r = "https://osu.ppy.sh/b/".to_owned();
    r.append(tail.as_str());
    r
}

/// What the analysis of a beatmap at a clock rate gives: the rows of its
/// timeline summed up, and what each asks of the hands.
pub open spec fn analysis(p: ParsedView, m: ManiaGameMod) -> (Summary, Seq<StrainView>) {
    let played = clocked(p, m);
    let rows = timeline(played.objects);
    (
        summary_of(rows, p.key_count, played.beat, p.sv_changes),
        strain(rows, p.key_count),
    )
}

/// A beatmap under the identifier of its source, where that is known.
pub open spec fn identified(p: ParsedView, source: Option<u64>) -> ParsedView {
    match source {
        Some(id) => ParsedView { beatmap_id: id, ..p },
        None => p,
    }
}

/// The metadata of a beatmap.
pub open spec fn metadata_of(p: ParsedView, m: ManiaGameMod, digest: Seq<u8>) -> MetadataView {
    let (summary, _) = analysis(p, m);
    MetadataView {
        beatmap_id: p.beatmap_id,
        beatmapset_id: p.beatmapset_id,
        checksum: hex_text(digest),
        artist: p.artist,
        title: p.title,
        version: p.version,
        creator: p.creator,
        online_url: url_of(p.beatmap_id),
        key_count: p.key_count,
        mode_family: summary.mode_family,
        dominant_pattern: summary.dominant_pattern,
    }
}

/// The record of a beatmap.
pub open spec fn record_of(p: ParsedView, m: ManiaGameMod) -> RecordView {
    let (summary, rows) = analysis(p, m);
    RecordView {
        beatmap_id: p.beatmap_id,
        beatmapset_id: p.beatmapset_id,
        style: summary.style,
        base: summary.base,
        key_count: p.key_count,
        mode_family: summary.mode_family,
        dominant_pattern: summary.dominant_pattern,
        analyzer_version: MANIA_ANALYZER_VERSION,
        strain: rows,
    }
}

/// What the analysis of a file gives, by its text and its digest.
pub open spec fn analyzed(
    text: Seq<char>,
    digest: Seq<u8>,
    source: Option<u64>,
    m: ManiaGameMod,
) -> Result<(MetadataView, RecordView), Fault> {
    match parsed(text, digest) {
        Ok(p) => {
            let p = identified(p, source);
            Ok((metadata_of(p, m, digest), record_of(p, m)))
        },
        Err(e) => Err(e),
    }
}

/// The result of an analysis as a value.
pub open spec fn outcome(
    r: Result<(ManiaBeatmapMetadata, ManiaRawFeatureRecord), ManiaAnalyzeError>,
) -> Result<(MetadataView, RecordView), Fault> {
    match r {
        Ok((metadata, record)) => Ok((metadata@, record@)),
        Err(e) => Err(e@),
    }
}

/// The analysis under the identifier of the source, which must not be zero.
pub open spec fn analyzed_as(
    text: Seq<char>,
    digest: Seq<u8>,
    source: u64,
    m: ManiaGameMod,
) -> Result<(MetadataView, RecordView), Fault> {
    if source == 0 {
        Err(Fault::Invalid("source BeatmapID must be positive"@))
    } else {
        analyzed(text, digest, Some(source), m)
    }
}

/// Analyzes a beatmap: sums up its timeline at a clock rate, and says what
/// each row asks of the hands.
pub fn analyze_parsed(beatmap: ParsedManiaBeatmap, game_mod: ManiaGameMod) -> (r: (
    Summary,
    Vec<StrainRow>,
))
    requires
        beatmap@.valid(),
    ensures
        r.0 == analysis(beatmap@, game_mod).0,
        strain_views(r.1@) == analysis(beatmap@, game_mod).1,
{
    let mut played = beatmap;
    played.apply_clock_rate(game_mod);
    proof {
        lemma_clocked(beatmap@, game_mod);
        lemma_timeline(clocked(beatmap@, game_mod).objects);
    }
    let rows = timeline_rows(played.objects.as_slice());
    let facts = strain_rows(rows.as_slice(), played.key_count);
    let summary = summarize(
        rows.as_slice(),
        played.key_count,
        facts.as_slice(),
        played.beat,
        played.sv_changes,
    );
    (summary, facts)
}

/// Analyzes beatmap files.
#[derive(Clone, Copy, Debug)]
pub struct ManiaAnalyzer;

impl ManiaAnalyzer {
    /// An analyzer; it has no settings.
    pub fn new() -> (r: Self)
        ensures
            r == ManiaAnalyzer,
    {
        ManiaAnalyzer
    }

    /// Analyzes a file as it stands.
    pub fn analyze_bytes(&self, bytes: &[u8]) -> (r: Result<
        (ManiaBeatmapMetadata, ManiaRawFeatureRecord),
        ManiaAnalyzeError,
    >)
        ensures
            outcome(r) == analyzed(
                lossy_text(bytes@),
                sha256(bytes@),
                None,
                ManiaGameMod::Nm,
            ),
    {
        self.analyze_source(bytes, None, ManiaGameMod::Nm)
    }

    /// Analyzes a file whose source says its identifier: the one in the file
    /// may be stale.
    pub fn analyze_bytes_with_beatmap_id(&self, bytes: &[u8], beatmap_id: u64) -> (r: Result<
        (ManiaBeatmapMetadata, ManiaRawFeatureRecord),
        ManiaAnalyzeError,
    >)
        ensures
            outcome(r) == analyzed_as(
                lossy_text(bytes@),
                sha256(bytes@),
                beatmap_id,
                ManiaGameMod::Nm,
            ),
    {
        self.analyze_bytes_with_beatmap_id_and_mod(bytes, beatmap_id, ManiaGameMod::Nm)
    }

    /// Analyzes a file at a clock rate.
    pub fn analyze_bytes_with_mod(&self, bytes: &[u8], game_mod: ManiaGameMod) -> (r: Result<
        (ManiaBeatmapMetadata, ManiaRawFeatureRecord),
        ManiaAnalyzeError,
    >)
        ensures
            outcome(r) == analyzed(lossy_text(bytes@), sha256(bytes@), None, game_mod),
    {
        self.analyze_source(bytes, None, game_mod)
    }

    /// Analyzes a file at a clock rate under the identifier of its source.
    pub fn analyze_bytes_with_beatmap_id_and_mod(
        &self,
        bytes: &[u8],
        beatmap_id: u64,
        game_mod: ManiaGameMod,
    ) -> (r: Result<(ManiaBeatmapMetadata, ManiaRawFeatureRecord), ManiaAnalyzeError>)
        ensures
            outcome(r) == analyzed_as(
                lossy_text(bytes@),
                sha256(bytes@),
                beatmap_id,
                game_mod,
            ),
    {
        if beatmap_id == 0 {
            return Err(ManiaAnalyzeError::Invalid("source BeatmapID must be positive".to_owned()));
        }
        self.analyze_source(bytes, Some(beatmap_id), game_mod)
    }

    fn analyze_source(
        &self,
        bytes: &[u8],
        source: Option<u64>,
        game_mod: ManiaGameMod,
    ) -> (r: Result<(ManiaBeatmapMetadata, ManiaRawFeatureRecord), ManiaAnalyzeError>)
        ensures
            outcome(r) == analyzed(lossy_text(bytes@), sha256(bytes@), source, game_mod),
    {
        let text = read_text(bytes);
        let chars = to_chars(text.as_str());
        self.analyze_text(chars.as_slice(), &digest(bytes), source, game_mod)
    }

    /// Analyzes the text of a file whose digest is known.
    pub fn analyze_text(
        &self,
        text: &[char],
        digest: &[u8; 32],
        source: Option<u64>,
        game_mod: ManiaGameMod,
    ) -> (r: Result<(ManiaBeatmapMetadata, ManiaRawFeatureRecord), ManiaAnalyzeError>)
        ensures
            outcome(r) == analyzed(text@, digest@, source, game_mod),
    {
        let mut beatmap = match parse_text(text, digest) {
            Ok(p) => p,
            Err(e) => {
                return Err(e);
            },
        };
        let ghost read = beatmap@;
        if let Some(id) = source {
            beatmap.beatmap_id = id;
        }
        let ghost named = beatmap@;
        assert(named =~= identified(read, source));
        let beatmap_id: u64 = beatmap.beatmap_id;
        let beatmapset_id: u64 = beatmap.beatmapset_id;
        let key_count: u8 = beatmap.key_count;
        let artist = beatmap.artist.clone();
        let title = beatmap.title.clone();
        let version = beatmap.version.clone();
        let creator = beatmap.creator.clone();
        let (summary, facts) = analyze_parsed(beatmap, game_mod);
        let metadata = ManiaBeatmapMetadata {
            beatmap_id,
            beatmapset_id,
            checksum: hex_string(digest.as_slice()),
            artist,
            title,
            version,
            creator,
            online_url: online_url(beatmap_id),
            key_count,
            mode_family: summary.mode_family,
            dominant_pattern: summary.dominant_pattern,
        };
        let record = ManiaRawFeatureRecord {
            beatmap_id,
            beatmapset_id,
            style: summary.style,
            base: summary.base,
            key_count,
            mode_family: summary.mode_family,
            dominant_pattern: summary.dominant_pattern,
            analyzer_version: MANIA_ANALYZER_VERSION,
            strain: facts,
        };
        assert(metadata@ =~= metadata_of(named, game_mod, digest@));
        assert(record@ =~= record_of(named, game_mod));
        Ok((metadata, record))
    }
}

/// The tempo of a beatmap rises with the clock rate.
pub proof fn law_clock_rate_scales_tempo(p: ParsedView, m: ManiaGameMod)
    requires
        p.valid(),
        p.beat is Some,
    ensures
        ({
            let usual = bpm_of(clocked(p, ManiaGameMod::Nm).beat);
            let played = bpm_of(clocked(p, m).beat);
            let rate = m.spec_rate();
            &&& usual.den > 0 && played.den > 0
            &&& played.num * usual.den * rate.den == usual.num * played.den * rate.num
        }),
{
    let b = p.beat->0 as int;
    let (f, n, e) = (m.stretch(), m.spec_rate().num as int, m.spec_rate().den as int);
    let minute = 60 * SECOND;
    law_stretch_is_inverse_of_rate(m);
    assert(minute * (b * 3) * e == minute * (b * f) * n) by (nonlinear_arith)
        requires
            f * n == 3 * e,
    ;
}

/// A beatmap that is analyzed under the identifier of its source bears it,
/// whatever the file says.
pub proof fn law_source_identifier_overrides(
    text: Seq<char>,
    digest: Seq<u8>,
    source: u64,
    m: ManiaGameMod,
)
    ensures
        analyzed_as(text, digest, source, m) matches Ok((metadata, record)) ==> {
            &&& source > 0
            &&& metadata.beatmap_id == source
            &&& record.beatmap_id == source
            &&& metadata.online_url == url_of(source)
        },
{
}

/// Metadata and record of an analysis speak of the same chart.
pub proof fn law_metadata_agrees_with_record(
    text: Seq<char>,
    digest: Seq<u8>,
    source: Option<u64>,
    m: ManiaGameMod,
)
    ensures
        analyzed(text, digest, source, m) matches Ok((metadata, record)) ==> {
            &&& metadata.beatmap_id == record.beatmap_id
            &&& metadata.beatmapset_id == record.beatmapset_id
            &&& metadata.key_count == record.key_count
            &&& metadata.mode_family == record.mode_family
            &&& metadata.dominant_pattern == record.dominant_pattern
            &&& record.analyzer_version == MANIA_ANALYZER_VERSION
        },
{
}

/// A file that is analyzed is of the fourth mode and has four, six or seven
/// keys, as many as its circle size says, rounded.
pub proof fn law_analyzed_charts_have_keys(
    text: Seq<char>,
    digest: Seq<u8>,
    source: Option<u64>,
    m: ManiaGameMod,
)
    ensures
        analyzed(text, digest, source, m) matches Ok((metadata, record)) ==> {
            &&& mode_said(split(text, '\n')) == Some(3u8)
            &&& keys_said(split(text, '\n')) == Some(record.key_count)
            &&& record.key_count == 4 || record.key_count == 6 || record.key_count == 7
        },
{
    law_what_can_be_read(text, digest);
    law_parsed_is_valid(text, digest);
}

/// Identifiers that stand for a file that names none are apart from those of
/// published beatmaps, and lead to no page.
pub proof fn law_local_identifiers_have_no_page(digest: Seq<u8>)
    requires
        digest.len() == 32,
    ensures
        LOCAL_IDS <= local_id(digest) < 2 * LOCAL_IDS,
        url_of(local_id(digest)).len() == 0,
{
    reveal_with_fuel(big_endian, 7);
}

} // verus!
