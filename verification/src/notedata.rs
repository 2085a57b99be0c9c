//! The symbolic chart: notes placed by measure and by fraction of a measure,
//! together with the tempo changes and the start offset of the song.
//!
//! Real-valued quantities are held in fixed point: a tempo in thousandths of a
//! beat per minute, the start offset in microseconds.

use crate::fraction::Fraction;
use vstd::prelude::*;

verus! {

/// What kind of note stands at a place in a chart.
///
/// A `Hold` is paired with the `HoldEnd` that follows it in the same column.
#[derive(Debug, Copy, Clone, Eq, PartialEq, Hash, Structural)]
pub enum NoteType {
    Tap,
    Hold,
    Roll,
    Mine,
    Lift,
    Fake,
    HoldEnd,
}

/// One note of a row: its kind and the column it is played in.
#[derive(Debug, Copy, Clone, Eq, PartialEq, Hash, Structural)]
pub struct Note {
    pub note_type: NoteType,
    pub column: usize,
}

impl Note {
    #[must_use]
    pub fn new(note_type: NoteType, column: usize) -> (note: Self)
        ensures
            note.note_type == note_type,
            note.column == column,
    {
        Self { note_type, column }
    }
}

/// The notes that share one position of a measure, each with its column.
#[derive(Debug, PartialEq, Eq, Clone)]
pub struct NoteRow {
    pub row: Vec<(NoteType, usize)>,
}

impl NoteRow {
    /// The notes of the row in the order in which they were written.
    pub fn notes(&self) -> (notes: &Vec<(NoteType, usize)>)
        ensures
            notes@ == self.row@,
    {
        &self.row
    }
}

/// A value that takes effect at a position of the chart: `beat` counts whole
/// measures and `sub_beat` is the fraction of the measure after them.
#[derive(Debug, Copy, Clone, Eq, PartialEq, Hash)]
pub struct BeatPair<T> {
    pub beat: i32,
    pub sub_beat: Fraction,
    pub value: T,
}

impl<T> BeatPair<T> {
    /// A value that holds from the very start of the chart.
    #[must_use]
    pub fn at_start(value: T) -> (pair: Self)
        ensures
            pair.beat == 0,
            pair.sub_beat.numer() == 0,
            pair.sub_beat.denom() == 1,
            pair.value == value,
    {
        let zero = Fraction::new(0, 1);
        let sub_beat = zero.unwrap();
        proof {
            let (n, d) = (sub_beat.numer(), sub_beat.denom());
            assert(n * 1 == 0 * d);
            assert(crate::fraction::is_common_divisor(d as nat, 0, d as nat)) by {
                vstd::arithmetic::div_mod::lemma_mod_self_0(d);
                vstd::arithmetic::div_mod::lemma_small_mod(0, d as nat);
            }
        }
        Self { beat: 0, sub_beat, value }
    }
}

/// One measure: its rows with the fraction of the measure at which each stands.
pub type Measure = Vec<(Fraction, NoteRow)>;

/// The notes of one step chart, measure by measure.
#[derive(Debug, PartialEq, Eq, Clone)]
pub struct ChartData {
    notes: Vec<Measure>,
}

impl ChartData {
    /// The measures as a sequence, for contracts.
    pub closed spec fn view(&self) -> Seq<Measure> {
        self.notes@
    }

    pub fn new(notes: Vec<Measure>) -> (chart: Self)
        ensures
            chart@ == notes@,
    {
        ChartData { notes }
    }

    /// The measures of the chart in order.
    pub fn measures(&self) -> (measures: &Vec<Measure>)
        ensures
            measures@ == self@,
    {
        &self.notes
    }
}

/// The tempo that is shown for a song, in thousandths of a beat per minute.
#[derive(Debug, Copy, Clone, PartialEq, Eq, Structural)]
pub enum DisplayBpm {
    /// The tempo moves between two values.
    Range(i64, i64),
    /// One tempo.
    Static(i64),
    /// A tempo that keeps changing at random is shown.
    Random,
}

/// What a simfile says about a song besides its notes.
#[derive(Debug, PartialEq, Eq, Clone)]
pub struct ChartMetadata {
    pub title: Option<String>,
    pub subtitle: Option<String>,
    pub artist: Option<String>,
    pub title_translit: Option<String>,
    pub subtitle_translit: Option<String>,
    pub artist_translit: Option<String>,
    pub genre: Option<String>,
    pub credit: Option<String>,
    pub banner_path: Option<String>,
    pub background_path: Option<String>,
    pub lyrics_path: Option<String>,
    pub cd_title: Option<String>,
    pub music_path: Option<String>,
    /// Time of the first beat in microseconds; negative when the audio starts
    /// before it.
    pub offset: Option<i64>,
    /// Tempo changes, each in thousandths of a beat per minute.
    pub bpms: Vec<BeatPair<i64>>,
    /// Pauses, each in thousandths of a second.
    pub stops: Option<Vec<BeatPair<i64>>>,
    /// Where the sample of the music starts, in microseconds.
    pub sample_start: Option<i64>,
    /// How long the sample of the music is, in microseconds.
    pub sample_length: Option<i64>,
    pub display_bpm: Option<DisplayBpm>,
    pub selectable: Option<String>,
}

impl ChartMetadata {
    /// Metadata with nothing known and no tempo.
    pub fn new() -> (meta: Self)
        ensures
            meta.title is None,
            meta.subtitle is None,
            meta.artist is None,
            meta.title_translit is None,
            meta.subtitle_translit is None,
            meta.artist_translit is None,
            meta.genre is None,
            meta.credit is None,
            meta.banner_path is None,
            meta.background_path is None,
            meta.lyrics_path is None,
            meta.cd_title is None,
            meta.music_path is None,
            meta.offset is None,
            meta.bpms@.len() == 0,
            meta.stops is None,
            meta.sample_start is None,
            meta.sample_length is None,
            meta.display_bpm is None,
            meta.selectable is None,
    {
        ChartMetadata {
            title: None,
            subtitle: None,
            artist: None,
            title_translit: None,
            subtitle_translit: None,
            artist_translit: None,
            genre: None,
            credit: None,
            banner_path: None,
            background_path: None,
            lyrics_path: None,
            cd_title: None,
            music_path: None,
            offset: None,
            bpms: Vec::new(),
            stops: None,
            sample_start: None,
            sample_length: None,
            display_bpm: None,
            selectable: None,
        }
    }
}

/// A song: its step charts and the metadata they share.
#[derive(Debug, PartialEq, Eq, Clone)]
pub struct NoteData {
    pub notes: Vec<ChartData>,
    pub data: ChartMetadata,
}

impl NoteData {
    pub fn new(notes: Vec<ChartData>, data: ChartMetadata) -> (song: Self)
        ensures
            song.notes == notes,
            song.data == data,
    {
        NoteData { notes, data }
    }

    /// The step charts of the song in order.
    pub fn charts(&self) -> (charts: &Vec<ChartData>)
        ensures
            charts@ == self.notes@,
    {
        &self.notes
    }
}

} // verus!
