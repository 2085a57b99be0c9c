//! Reading a song from the text of a simfile.
//!
//! A simfile is a run of tags, each written `#NAME:contents;`. Some tags
//! describe the song, `OFFSET` and `BPMS` give its timing, and every `NOTES`
//! tag holds one chart. Numbers are decimal and are read exactly, into fixed
//! point.

use crate::conversion::chart_valid;
use crate::fraction::Fraction;
use crate::notedata::{BeatPair, ChartData, ChartMetadata, DisplayBpm, Measure, NoteData};
use crate::sm_parser::{measure_blocks, measures_of_blocks, parse_blocks, texts};
use crate::strings::{
    chars_of, copy_range, decimal_i64, find_letter, first_index, holds_texts, matches_text,
    parse_decimal, pieces, split_chars, string_of, trim_chars, trimmed,
};
use crate::tempo::floor_div;
use vstd::prelude::*;

verus! {

/// A tag of a simfile: its name and its contents.
pub type Tag = (Seq<char>, Seq<char>);

/// Where the reading of tags stands.
#[derive(Copy, Clone, Debug, PartialEq, Eq, Structural)]
pub enum Stage {
    /// Between tags: everything up to the next `#` is passed over.
    Outside,
    /// In the name of a tag, which ends with `:`.
    Name,
    /// In the contents of a tag, which end with `;`.
    Contents,
}

/// The state of the reading of tags: the tags read in full, and the name and
/// the contents of the tag that is being read.
pub struct TagScan {
    pub tags: Seq<Tag>,
    pub stage: Stage,
    pub name: Seq<char>,
    pub contents: Seq<char>,
}

/// What one more character does to the reading of tags.
pub open spec fn scan_step(scan: TagScan, c: char) -> TagScan {
    match scan.stage {
        Stage::Outside => if c == '#' {
            TagScan { stage: Stage::Name, name: Seq::empty(), contents: Seq::empty(), ..scan }
        } else {
            scan
        },
        Stage::Name => if c == ':' {
            TagScan { stage: Stage::Contents, ..scan }
        } else {
            TagScan { name: scan.name.push(c), ..scan }
        },
        Stage::Contents => if c == ';' {
            TagScan {
                tags: scan.tags.push((scan.name, scan.contents)),
                stage: Stage::Outside,
                name: Seq::empty(),
                contents: Seq::empty(),
            }
        } else {
            TagScan { contents: scan.contents.push(c), ..scan }
        },
    }
}

/// The reading of tags after the first `n` characters of a text.
pub open spec fn scan_tags(text: Seq<char>, n: int) -> TagScan
    decreases n,
{
    if n <= 0 {
        TagScan {
            tags: Seq::empty(),
            stage: Stage::Outside,
            name: Seq::empty(),
            contents: Seq::empty(),
        }
    } else {
        scan_step(scan_tags(text, n - 1), text[n - 1])
    }
}

/// The tags of a text. A tag that the text does not close is not one.
pub open spec fn tags_of(text: Seq<char>) -> Seq<Tag> {
    scan_tags(text, text.len() as int).tags
}

/// The pairs of vectors hold these tags, in this order.
pub open spec fn holds_tags(held: Seq<(Vec<char>, Vec<char>)>, model: Seq<Tag>) -> bool {
    &&& held.len() == model.len()
    &&& forall|i: int|
        0 <= i < held.len() ==> (#[trigger] held[i]).0@ == model[i].0 && held[i].1@ == model[i].1
}

/// The tag has this name, spaces around the name left aside, and contents
/// that are more than spaces.
pub open spec fn tag_named(tag: Tag, name: Seq<char>) -> bool {
    trimmed(tag.0) == name && trimmed(tag.1).len() > 0
}

/// The index of the last of the first `n` tags that has this name.
pub open spec fn last_tag(tags: Seq<Tag>, n: int, name: Seq<char>) -> Option<int>
    decreases n,
{
    if n <= 0 {
        None
    } else if tag_named(tags[n - 1], name) {
        Some(n - 1)
    } else {
        last_tag(tags, n - 1, name)
    }
}

/// The contents of the last tag that has this name.
pub open spec fn tag_value(tags: Seq<Tag>, name: Seq<char>) -> Option<Seq<char>> {
    match last_tag(tags, tags.len() as int, name) {
        Some(i) => Some(tags[i].1),
        None => None,
    }
}

/// The characters of a text that may be missing.
pub open spec fn field_text(field: Option<String>) -> Option<Seq<char>> {
    match field {
        Some(text) => Some(text@),
        None => None,
    }
}

/// The offset that the contents of an `OFFSET` tag give, in microseconds:
/// the tag tells by how many seconds the first beat comes before the audio,
/// the offset by how much it comes after.
pub open spec fn offset_of_text(contents: Seq<char>) -> Option<i64> {
    match decimal_i64(contents, 6) {
        Some(seconds) => if seconds == i64::MIN {
            None
        } else {
            Some((-seconds) as i64)
        },
        None => None,
    }
}

/// The tempo to show that the contents of a `DISPLAYBPM` tag give: a star
/// stands for a tempo at random, two numbers with a colon between them for a
/// range, and one number for itself.
pub open spec fn display_bpm_of_text(contents: Seq<char>) -> Option<DisplayBpm> {
    let at = first_index(contents, ':', 0);
    if trimmed(contents) == seq!['*'] {
        Some(DisplayBpm::Random)
    } else if at < contents.len() {
        match (decimal_i64(contents.take(at), 3), decimal_i64(contents.skip(at + 1), 3)) {
            (Some(low), Some(high)) => Some(DisplayBpm::Range(low, high)),
            _ => None,
        }
    } else {
        match decimal_i64(contents, 3) {
            Some(bpm) => Some(DisplayBpm::Static(bpm)),
            None => None,
        }
    }
}

/// Thousandths of a beat in a measure.
pub const THOUSANDTHS_PER_MEASURE: i64 = 4000;

/// The two numbers that a piece `beat=value` writes, each in thousandths.
pub open spec fn pair_numbers(piece: Seq<char>) -> Option<(i64, i64)> {
    let at = first_index(piece, '=', 0);
    if at >= piece.len() {
        None
    } else {
        match (decimal_i64(piece.take(at), 3), decimal_i64(piece.skip(at + 1), 3)) {
            (Some(beat), Some(value)) => Some((beat, value)),
            _ => None,
        }
    }
}

/// The measure in which a beat falls, the beat given in thousandths.
pub open spec fn beat_measure(beat: i64) -> int {
    (beat as int) / (THOUSANDTHS_PER_MEASURE as int)
}

/// How many thousandths of a beat into its measure a beat falls.
pub open spec fn beat_rest(beat: i64) -> int {
    (beat as int) % (THOUSANDTHS_PER_MEASURE as int)
}

/// A piece `beat=value` can be read: it writes two numbers, and the measure
/// of the beat fits in 32 bits.
pub open spec fn pair_readable(piece: Seq<char>) -> bool {
    pair_numbers(piece) matches Some(numbers) && i32::MIN <= beat_measure(numbers.0) <= i32::MAX
}

/// The pair is what a piece `beat=value` stands for: the value, at the
/// measure and the fraction of the measure on which the beat falls.
pub open spec fn is_pair_of(pair: BeatPair<i64>, piece: Seq<char>) -> bool {
    pair_numbers(piece) matches Some(numbers) && {
        &&& pair.value == numbers.1
        &&& pair.beat == beat_measure(numbers.0)
        &&& pair.sub_beat.wf()
        &&& pair.sub_beat.equals_ratio(beat_rest(numbers.0), THOUSANDTHS_PER_MEASURE as int)
    }
}

/// Every one of the first `n` pieces can be read.
pub open spec fn pairs_readable(list: Seq<Seq<char>>, n: int) -> bool {
    forall|i: int| 0 <= i < n ==> pair_readable(#[trigger] list[i])
}

/// The pairs are what the pieces stand for, one for one.
pub open spec fn are_pairs_of(pairs: Seq<BeatPair<i64>>, list: Seq<Seq<char>>) -> bool {
    &&& pairs.len() == list.len()
    &&& forall|i: int| 0 <= i < pairs.len() ==> is_pair_of(#[trigger] pairs[i], list[i])
}

/// The pairs are what a list `beat=value,beat=value` gives: a pair for every
/// piece when every piece can be read, and none at all when one cannot.
pub open spec fn are_pairs_of_text(pairs: Option<Vec<BeatPair<i64>>>, contents: Seq<char>) -> bool {
    let list = pieces(contents, ',');
    if pairs_readable(list, list.len() as int) {
        pairs matches Some(read) && are_pairs_of(read@, list)
    } else {
        pairs is None
    }
}

/// The colons that stand before the notes of a chart: one after each of the
/// five texts that describe it.
pub const HEADER_COLONS: usize = 5;

/// The index after the colon that is the `colons`-th from `from` on, if
/// there are as many.
pub open spec fn after_colons(contents: Seq<char>, colons: int, from: int) -> Option<int>
    decreases colons,
{
    if colons <= 0 {
        Some(from)
    } else {
        let at = first_index(contents, ':', from);
        if 0 <= from && at < contents.len() {
            after_colons(contents, colons - 1, at + 1)
        } else {
            None
        }
    }
}

/// A line that holds a comment: it starts with two slashes.
pub open spec fn is_comment(line: Seq<char>) -> bool {
    line.len() >= 2 && line[0] == '/' && line[1] == '/'
}

/// Those of the first `n` pieces that are lines of notes: each is taken
/// without the spaces around it, and the empty lines and the comments are
/// left out.
pub open spec fn kept_note_lines(list: Seq<Seq<char>>, n: int) -> Seq<Seq<char>>
    decreases n,
{
    if n <= 0 {
        Seq::empty()
    } else if trimmed(list[n - 1]).len() > 0 && !is_comment(trimmed(list[n - 1])) {
        kept_note_lines(list, n - 1).push(trimmed(list[n - 1]))
    } else {
        kept_note_lines(list, n - 1)
    }
}

/// The lines of notes of a text.
pub open spec fn note_lines(notes: Seq<char>) -> Seq<Seq<char>> {
    kept_note_lines(pieces(notes, '\n'), pieces(notes, '\n').len() as int)
}

/// The contents of a `NOTES` tag can be read: the five colons of the
/// description are there, and what follows has no more lines than can be
/// counted in 63 bits.
pub open spec fn chart_readable(contents: Seq<char>) -> bool {
    after_colons(contents, HEADER_COLONS as int, 0) matches Some(start) && pieces(
        contents.skip(start),
        '\n',
    ).len() <= i64::MAX
}

/// The chart is what the contents of a `NOTES` tag stand for: the lines of
/// notes after the description, split into measures at the lines that start
/// with a comma.
pub open spec fn is_chart_of(chart: Seq<Measure>, contents: Seq<char>) -> bool {
    after_colons(contents, HEADER_COLONS as int, 0) matches Some(start) && measures_of_blocks(
        chart,
        measure_blocks(
            note_lines(contents.skip(start)),
            note_lines(contents.skip(start)).len() as int,
        ),
    )
}

/// The contents of those of the first `n` tags that hold a chart: the tags
/// named `NOTES` whose contents can be read.
pub open spec fn chart_texts(tags: Seq<Tag>, n: int) -> Seq<Seq<char>>
    decreases n,
{
    if n <= 0 {
        Seq::empty()
    } else if tag_named(tags[n - 1], "NOTES"@) && chart_readable(tags[n - 1].1) {
        chart_texts(tags, n - 1).push(tags[n - 1].1)
    } else {
        chart_texts(tags, n - 1)
    }
}

/// The charts are what the contents stand for, one for one.
pub open spec fn are_charts_of(charts: Seq<ChartData>, contents: Seq<Seq<char>>) -> bool {
    &&& charts.len() == contents.len()
    &&& forall|i: int|
        0 <= i < charts.len() ==> is_chart_of((#[trigger] charts[i])@, contents[i]) && chart_valid(
            charts[i]@,
        )
}

/// The song is what the tags say: every text of the description is the
/// contents of the last tag of its name, the numbers and the tempo changes
/// are read from the last tags of theirs, and there is a chart for every
/// `NOTES` tag that can be read.
pub open spec fn is_song_of(song: NoteData, tags: Seq<Tag>) -> bool {
    let meta = song.data;
    &&& field_text(meta.title) == tag_value(tags, "TITLE"@)
    &&& field_text(meta.subtitle) == tag_value(tags, "SUBTITLE"@)
    &&& field_text(meta.artist) == tag_value(tags, "ARTIST"@)
    &&& field_text(meta.title_translit) == tag_value(tags, "TITLETRANSLIT"@)
    &&& field_text(meta.subtitle_translit) == tag_value(tags, "SUBTITLETRANSLIT"@)
    &&& field_text(meta.artist_translit) == tag_value(tags, "ARTISTTRANSLIT"@)
    &&& field_text(meta.genre) == tag_value(tags, "GENRE"@)
    &&& field_text(meta.credit) == tag_value(tags, "CREDIT"@)
    &&& field_text(meta.banner_path) == tag_value(tags, "BANNER"@)
    &&& field_text(meta.background_path) == tag_value(tags, "BACKGROUND"@)
    &&& field_text(meta.lyrics_path) == tag_value(tags, "LYRICSPATH"@)
    &&& field_text(meta.cd_title) == tag_value(tags, "CDTITLE"@)
    &&& field_text(meta.music_path) == tag_value(tags, "MUSIC"@)
    &&& field_text(meta.selectable) == tag_value(tags, "SELECTABLE"@)
    &&& meta.offset == match tag_value(tags, "OFFSET"@) {
        Some(contents) => offset_of_text(contents),
        None => None,
    }
    &&& match tag_value(tags, "BPMS"@) {
        Some(contents) => {
            let list = pieces(contents, ',');
            if pairs_readable(list, list.len() as int) {
                are_pairs_of(meta.bpms@, list)
            } else {
                meta.bpms@.len() == 0
            }
        },
        None => meta.bpms@.len() == 0,
    }
    &&& match tag_value(tags, "STOPS"@) {
        Some(contents) => are_pairs_of_text(meta.stops, contents),
        None => meta.stops is None,
    }
    &&& meta.sample_start == match tag_value(tags, "SAMPLESTART"@) {
        Some(contents) => decimal_i64(contents, 6),
        None => None,
    }
    &&& meta.sample_length == match tag_value(tags, "SAMPLELENGTH"@) {
        Some(contents) => decimal_i64(contents, 6),
        None => None,
    }
    &&& meta.display_bpm == match tag_value(tags, "DISPLAYBPM"@) {
        Some(contents) => display_bpm_of_text(contents),
        None => None,
    }
    &&& are_charts_of(song.notes@, chart_texts(tags, tags.len() as int))
}

/// Takes a text apart into its tags.
pub fn break_to_tags(chars: &[char]) -> (tags: Vec<(Vec<char>, Vec<char>)>)
    ensures
        holds_tags(tags@, tags_of(chars@)),
{
    let mut tags: Vec<(Vec<char>, Vec<char>)> = Vec::new();
    let mut stage = Stage::Outside;
    let mut name: Vec<char> = Vec::new();
    let mut contents: Vec<char> = Vec::new();
    let mut i: usize = 0;
    while i < chars.len()
        invariant
            0 <= i <= chars.len(),
            holds_tags(tags@, scan_tags(chars@, i as int).tags),
            stage == scan_tags(chars@, i as int).stage,
            name@ == scan_tags(chars@, i as int).name,
            contents@ == scan_tags(chars@, i as int).contents,
        decreases chars.len() - i,
    {
        let c = chars[i];
        let ghost before = scan_tags(chars@, i as int);
        let ghost done = tags@;
        match stage {
            Stage::Outside => {
                if c == '#' {
                    stage = Stage::Name;
                    name = Vec::new();
                    contents = Vec::new();
                }
            },
            Stage::Name => {
                if c == ':' {
                    stage = Stage::Contents;
                } else {
                    name.push(c);
                }
            },
            Stage::Contents => {
                if c == ';' {
                    tags.push((name, contents));
                    stage = Stage::Outside;
                    name = Vec::new();
                    contents = Vec::new();
                    proof {
                        let after = scan_step(before, c).tags;
                        assert forall|k: int| 0 <= k < tags@.len() implies (#[trigger] tags@[k]).0@
                            == after[k].0 && tags@[k].1@ == after[k].1 by {
                            if k < done.len() {
                                assert(tags@[k] == done[k]);
                            }
                        }
                    }
                } else {
                    contents.push(c);
                }
            },
        }
        i += 1;
    }
    tags
}

/// Whether a tag has this name and contents that are more than spaces.
fn is_named(tag: &(Vec<char>, Vec<char>), name: &str) -> (named: bool)
    ensures
        named == tag_named((tag.0@, tag.1@), name@),
{
    let kept = trim_chars(tag.0.as_slice());
    if !matches_text(kept.as_slice(), name) {
        return false;
    }
    let said = trim_chars(tag.1.as_slice());
    said.len() > 0
}

/// Finds the last tag of a name.
fn find_tag(tags: &Vec<(Vec<char>, Vec<char>)>, name: &str, Ghost(model): Ghost<Seq<Tag>>) -> (found:
    Option<usize>)
    requires
        holds_tags(tags@, model),
    ensures
        found is Some == last_tag(model, model.len() as int, name@) is Some,
        found matches Some(i) ==> last_tag(model, model.len() as int, name@) == Some(i as int) && i
            < tags@.len(),
{
    let mut n: usize = tags.len();
    while n > 0
        invariant
            0 <= n <= tags.len(),
            holds_tags(tags@, model),
            last_tag(model, n as int, name@) == last_tag(model, model.len() as int, name@),
        decreases n,
    {
        if is_named(&tags[n - 1], name) {
            return Some(n - 1);
        }
        n -= 1;
    }
    None
}

/// The contents of the last tag of a name, as a text.
fn text_field(tags: &Vec<(Vec<char>, Vec<char>)>, name: &str, Ghost(model): Ghost<Seq<Tag>>) -> (field:
    Option<String>)
    requires
        holds_tags(tags@, model),
    ensures
        field_text(field) == tag_value(model, name@),
{
    match find_tag(tags, name, Ghost(model)) {
        Some(i) => Some(string_of(tags[i].1.as_slice())),
        None => None,
    }
}

/// Reads the offset of a song from the contents of its `OFFSET` tag.
pub fn parse_offset(contents: &[char]) -> (offset: Option<i64>)
    ensures
        offset == offset_of_text(contents@),
{
    match parse_decimal(contents, 6) {
        Some(seconds) => if seconds == i64::MIN {
            None
        } else {
            Some(-seconds)
        },
        None => None,
    }
}

/// Reads the tempo to show from the contents of a `DISPLAYBPM` tag.
pub fn parse_display_bpm(contents: &[char]) -> (shown: Option<DisplayBpm>)
    ensures
        shown == display_bpm_of_text(contents@),
{
    proof {
        reveal_strlit("*");
        assert("*"@ =~= seq!['*']);
    }
    let kept = trim_chars(contents);
    if matches_text(kept.as_slice(), "*") {
        return Some(DisplayBpm::Random);
    }
    let at = find_letter(contents, ':');
    if at < contents.len() {
        let left = copy_range(contents, 0, at);
        let right = copy_range(contents, at + 1, contents.len());
        proof {
            assert(contents@.subrange(0, at as int) =~= contents@.take(at as int));
            assert(contents@.subrange(at as int + 1, contents@.len() as int) =~= contents@.skip(
                at as int + 1,
            ));
        }
        match (parse_decimal(left.as_slice(), 3), parse_decimal(right.as_slice(), 3)) {
            (Some(low), Some(high)) => Some(DisplayBpm::Range(low, high)),
            _ => None,
        }
    } else {
        match parse_decimal(contents, 3) {
            Some(bpm) => Some(DisplayBpm::Static(bpm)),
            None => None,
        }
    }
}

/// Reads one piece `beat=value`.
fn parse_beat_pair(piece: &[char]) -> (pair: Option<BeatPair<i64>>)
    ensures
        pair is Some == pair_readable(piece@),
        pair matches Some(read) ==> is_pair_of(read, piece@),
{
    let at = find_letter(piece, '=');
    if at >= piece.len() {
        return None;
    }
    let left = copy_range(piece, 0, at);
    let right = copy_range(piece, at + 1, piece.len());
    proof {
        assert(piece@.subrange(0, at as int) =~= piece@.take(at as int));
        assert(piece@.subrange(at as int + 1, piece@.len() as int) =~= piece@.skip(at as int + 1));
    }
    let beat = match parse_decimal(left.as_slice(), 3) {
        Some(beat) => beat,
        None => {
            return None;
        },
    };
    let value = match parse_decimal(right.as_slice(), 3) {
        Some(value) => value,
        None => {
            return None;
        },
    };
    let measure: i128 = floor_div(beat as i128, THOUSANDTHS_PER_MEASURE as i128);
    if measure < i32::MIN as i128 || measure > i32::MAX as i128 {
        return None;
    }
    let rest: i128 = (beat as i128) - measure * (THOUSANDTHS_PER_MEASURE as i128);
    proof {
        vstd::arithmetic::div_mod::lemma_fundamental_div_mod(beat as int, 4000);
        vstd::arithmetic::div_mod::lemma_mod_bound(beat as int, 4000);
        assert(rest == (beat as int) % 4000);
    }
    let sub_beat = Fraction::new(rest as i64, THOUSANDTHS_PER_MEASURE as u64);
    Some(BeatPair { beat: measure as i32, sub_beat: sub_beat.unwrap(), value })
}

/// Reads a list `beat=value,beat=value`. There is no list when one of its
/// pieces cannot be read.
pub fn parse_beat_pairs(contents: &[char]) -> (pairs: Option<Vec<BeatPair<i64>>>)
    ensures
        are_pairs_of_text(pairs, contents@),
{
    let parts = split_chars(contents, ',');
    let ghost list = pieces(contents@, ',');
    let mut pairs: Vec<BeatPair<i64>> = Vec::new();
    let mut i: usize = 0;
    while i < parts.len()
        invariant
            0 <= i <= parts.len(),
            list == pieces(contents@, ','),
            holds_texts(parts@, list),
            pairs_readable(list, i as int),
            pairs@.len() == i,
            forall|k: int| 0 <= k < i ==> is_pair_of(#[trigger] pairs@[k], list[k]),
        decreases parts.len() - i,
    {
        match parse_beat_pair(parts[i].as_slice()) {
            Some(pair) => {
                proof {
                    assert(parts@[i as int]@ == list[i as int]);
                }
                pairs.push(pair);
            },
            None => {
                proof {
                    assert(parts@[i as int]@ == list[i as int]);
                    assert(!pair_readable(list[i as int]));
                    assert(!pairs_readable(list, list.len() as int));
                }
                return None;
            },
        }
        i += 1;
    }
    Some(pairs)
}

/// Finds the index after the colon that is the `colons`-th from `from` on.
fn skip_colons(contents: &[char], colons: usize, from: usize) -> (start: Option<usize>)
    requires
        from <= contents@.len(),
    ensures
        start is Some == after_colons(contents@, colons as int, from as int) is Some,
        start matches Some(at) ==> after_colons(contents@, colons as int, from as int) == Some(
            at as int,
        ) && at <= contents@.len(),
{
    let mut left: usize = colons;
    let mut at: usize = from;
    while left > 0
        invariant
            0 <= left <= colons,
            at <= contents@.len(),
            after_colons(contents@, left as int, at as int) == after_colons(
                contents@,
                colons as int,
                from as int,
            ),
        decreases left,
    {
        let mut colon: usize = at;
        while colon < contents.len() && contents[colon] != ':'
            invariant
                at <= colon <= contents.len(),
                first_index(contents@, ':', colon as int) == first_index(contents@, ':', at as int),
            decreases contents.len() - colon,
        {
            colon += 1;
        }
        if colon >= contents.len() {
            return None;
        }
        at = colon + 1;
        left -= 1;
    }
    Some(at)
}

/// Whether a line holds a comment.
fn is_comment_line(line: &[char]) -> (comment: bool)
    ensures
        comment == is_comment(line@),
{
    line.len() >= 2 && line[0] == '/' && line[1] == '/'
}

/// Reads the chart of the contents of a `NOTES` tag: after the five colons
/// of the description, every line that is not empty and no comment is a line
/// of notes, and a line that starts with a comma closes a measure. There is
/// no chart when the contents cannot be read.
pub fn parse_chart(contents: &[char]) -> (chart: Option<ChartData>)
    ensures
        chart is Some == chart_readable(contents@),
        chart matches Some(read) ==> is_chart_of(read@, contents@) && chart_valid(read@),
{
    let start = match skip_colons(contents, HEADER_COLONS, 0) {
        Some(start) => start,
        None => {
            return None;
        },
    };
    let notes = copy_range(contents, start, contents.len());
    proof {
        assert(contents@.subrange(start as int, contents@.len() as int) =~= contents@.skip(
            start as int,
        ));
    }
    let parts = split_chars(notes.as_slice(), '\n');
    if parts.len() as u128 > i64::MAX as u128 {
        return None;
    }
    let ghost list = pieces(notes@, '\n');
    let mut lines: Vec<String> = Vec::new();
    let mut i: usize = 0;
    while i < parts.len()
        invariant
            0 <= i <= parts.len() <= i64::MAX,
            list == pieces(notes@, '\n'),
            holds_texts(parts@, list),
            lines@.len() == kept_note_lines(list, i as int).len(),
            lines@.len() <= i,
            forall|k: int|
                0 <= k < lines@.len() ==> (#[trigger] lines@[k])@ == kept_note_lines(
                    list,
                    i as int,
                )[k],
        decreases parts.len() - i,
    {
        let kept = trim_chars(parts[i].as_slice());
        let ghost had = lines@;
        let ghost were = kept_note_lines(list, i as int);
        assert(parts@[i as int]@ == list[i as int]);
        if kept.len() > 0 && !is_comment_line(kept.as_slice()) {
            lines.push(string_of(kept.as_slice()));
            proof {
                let now = kept_note_lines(list, i as int + 1);
                assert(now == were.push(trimmed(list[i as int])));
                assert forall|k: int| 0 <= k < lines@.len() implies (#[trigger] lines@[k])@
                    == now[k] by {
                    if k < had.len() {
                        assert(lines@[k] == had[k]);
                    }
                }
            }
        }
        i += 1;
    }
    let ghost model = note_lines(notes@);
    let mut views: Vec<&str> = Vec::new();
    let mut k: usize = 0;
    while k < lines.len()
        invariant
            0 <= k <= lines.len(),
            views@.len() == k,
            forall|j: int| 0 <= j < k ==> (#[trigger] views@[j])@ == lines@[j]@,
        decreases lines.len() - k,
    {
        views.push(lines[k].as_str());
        k += 1;
    }
    proof {
        assert(texts(views@) =~= model);
    }
    Some(parse_blocks(views.as_slice()))
}

/// Reads the charts of the `NOTES` tags.
fn read_charts(tags: &Vec<(Vec<char>, Vec<char>)>, Ghost(model): Ghost<Seq<Tag>>) -> (charts: Vec<
    ChartData,
>)
    requires
        holds_tags(tags@, model),
    ensures
        are_charts_of(charts@, chart_texts(model, model.len() as int)),
{
    let mut charts: Vec<ChartData> = Vec::new();
    let mut i: usize = 0;
    while i < tags.len()
        invariant
            0 <= i <= tags.len(),
            holds_tags(tags@, model),
            are_charts_of(charts@, chart_texts(model, i as int)),
        decreases tags.len() - i,
    {
        let ghost done = charts@;
        let ghost were = chart_texts(model, i as int);
        if is_named(&tags[i], "NOTES") {
            match parse_chart(tags[i].1.as_slice()) {
                Some(chart) => {
                    charts.push(chart);
                    proof {
                        let now = chart_texts(model, i as int + 1);
                        assert(now == were.push(model[i as int].1));
                        assert forall|k: int| 0 <= k < charts@.len() implies is_chart_of(
                            (#[trigger] charts@[k])@,
                            now[k],
                        ) && chart_valid(charts@[k]@) by {
                            if k < done.len() {
                                assert(charts@[k] == done[k]);
                                assert(now[k] == were[k]);
                            }
                        }
                    }
                },
                None => {},
            }
        }
        i += 1;
    }
    charts
}

impl NoteData {
    /// Reads a song from the characters of a simfile.
    pub fn from_sm_chars(chars: &[char]) -> (song: NoteData)
        ensures
            is_song_of(song, tags_of(chars@)),
    {
        let tags = break_to_tags(chars);
        let ghost model = tags_of(chars@);
        let mut data = ChartMetadata::new();
        data.title = text_field(&tags, "TITLE", Ghost(model));
        data.subtitle = text_field(&tags, "SUBTITLE", Ghost(model));
        data.artist = text_field(&tags, "ARTIST", Ghost(model));
        data.title_translit = text_field(&tags, "TITLETRANSLIT", Ghost(model));
        data.subtitle_translit = text_field(&tags, "SUBTITLETRANSLIT", Ghost(model));
        data.artist_translit = text_field(&tags, "ARTISTTRANSLIT", Ghost(model));
        data.genre = text_field(&tags, "GENRE", Ghost(model));
        data.credit = text_field(&tags, "CREDIT", Ghost(model));
        data.banner_path = text_field(&tags, "BANNER", Ghost(model));
        data.background_path = text_field(&tags, "BACKGROUND", Ghost(model));
        data.lyrics_path = text_field(&tags, "LYRICSPATH", Ghost(model));
        data.cd_title = text_field(&tags, "CDTITLE", Ghost(model));
        data.music_path = text_field(&tags, "MUSIC", Ghost(model));
        data.selectable = text_field(&tags, "SELECTABLE", Ghost(model));
        data.offset = match find_tag(&tags, "OFFSET", Ghost(model)) {
            Some(i) => parse_offset(tags[i].1.as_slice()),
            None => None,
        };
        data.bpms = match find_tag(&tags, "BPMS", Ghost(model)) {
            Some(i) => match parse_beat_pairs(tags[i].1.as_slice()) {
                Some(bpms) => bpms,
                None => Vec::new(),
            },
            None => Vec::new(),
        };
        data.stops = match find_tag(&tags, "STOPS", Ghost(model)) {
            Some(i) => parse_beat_pairs(tags[i].1.as_slice()),
            None => None,
        };
        data.sample_start = match find_tag(&tags, "SAMPLESTART", Ghost(model)) {
            Some(i) => parse_decimal(tags[i].1.as_slice(), 6),
            None => None,
        };
        data.sample_length = match find_tag(&tags, "SAMPLELENGTH", Ghost(model)) {
            Some(i) => parse_decimal(tags[i].1.as_slice(), 6),
            None => None,
        };
        data.display_bpm = match find_tag(&tags, "DISPLAYBPM", Ghost(model)) {
            Some(i) => parse_display_bpm(tags[i].1.as_slice()),
            None => None,
        };
        let charts = read_charts(&tags, Ghost(model));
        NoteData::new(charts, data)
    }

    /// Reads a song from the text of a simfile.
    pub fn from_sm_string(string: &str) -> (song: NoteData)
        ensures
            is_song_of(song, tags_of(string@)),
    {
        let chars = chars_of(string);
        Self::from_sm_chars(chars.as_slice())
    }
}

} // verus!
