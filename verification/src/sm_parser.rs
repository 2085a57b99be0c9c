//! Reading the rows of notes of a simfile.

use crate::conversion::{chart_valid, measure_valid, row_follows, row_valid};
use crate::fraction::Fraction;
use crate::notedata::{ChartData, Measure, NoteRow, NoteType};
use crate::sm_writer::char_of_note;
use crate::strings::first_index;
use vstd::prelude::*;
use vstd::std_specs::iter::IteratorSpec;
use vstd::string::StrSliceExecFns;

verus! {

/// The kind of note that a character of a row stands for, if any.
pub open spec fn note_of_char(character: char) -> Option<NoteType> {
    if character == '1' {
        Some(NoteType::Tap)
    } else if character == '2' {
        Some(NoteType::Hold)
    } else if character == '3' {
        Some(NoteType::HoldEnd)
    } else if character == '4' {
        Some(NoteType::Roll)
    } else if character == 'M' {
        Some(NoteType::Mine)
    } else if character == 'L' {
        Some(NoteType::Lift)
    } else if character == 'F' {
        Some(NoteType::Fake)
    } else {
        None
    }
}

/// The notes that the first `n` characters of a row stand for, each with the
/// column in which its character stands.
pub open spec fn line_notes(chars: Seq<char>, n: int) -> Seq<(NoteType, usize)>
    decreases n,
{
    if n <= 0 {
        Seq::empty()
    } else {
        match note_of_char(chars[n - 1]) {
            Some(note) => line_notes(chars, n - 1).push((note, (n - 1) as usize)),
            None => line_notes(chars, n - 1),
        }
    }
}

/// The indices of those of the first `n` lines of a measure that hold a
/// note.
pub open spec fn lines_with_notes(lines: Seq<Seq<char>>, n: int) -> Seq<int>
    decreases n,
{
    if n <= 0 {
        Seq::empty()
    } else if line_notes(lines[n - 1], lines[n - 1].len() as int).len() > 0 {
        lines_with_notes(lines, n - 1).push(n - 1)
    } else {
        lines_with_notes(lines, n - 1)
    }
}

/// The rows are those of the lines `indices` of a measure: each stands at its
/// index divided by the number of lines, and holds the notes of its line.
pub open spec fn rows_of_lines(
    rows: Seq<(Fraction, NoteRow)>,
    lines: Seq<Seq<char>>,
    indices: Seq<int>,
) -> bool {
    &&& rows.len() == indices.len()
    &&& forall|i: int|
        0 <= i < rows.len() ==> {
            &&& (#[trigger] rows[i]).0.wf()
            &&& rows[i].0.equals_ratio(indices[i], lines.len() as int)
            &&& rows[i].1.row@ == line_notes(lines[indices[i]], lines[indices[i]].len() as int)
        }
}

/// The characters of each of a run of texts.
pub open spec fn texts(lines: Seq<&str>) -> Seq<Seq<char>> {
    Seq::new(lines.len(), |i: int| lines[i]@)
}

/// **Reading undoes writing.** The character of a kind of note stands for
/// that kind.
pub proof fn lemma_note_of_char_of_note(note: NoteType)
    ensures
        note_of_char(char_of_note(note)) == Some(note),
{
}

/// The kind of note that a character stands for.
pub fn char_to_notetype(character: char) -> (note: Option<NoteType>)
    ensures
        note == note_of_char(character),
{
    match character {
        '1' => Some(NoteType::Tap),
        '2' => Some(NoteType::Hold),
        '3' => Some(NoteType::HoldEnd),
        '4' => Some(NoteType::Roll),
        'M' => Some(NoteType::Mine),
        'L' => Some(NoteType::Lift),
        'F' => Some(NoteType::Fake),
        _ => None,
    }
}

/// Reads one row: every character that stands for a note gives a note of the
/// column in which it stands.
pub fn parse_line(contents: &str) -> (row: NoteRow)
    ensures
        row.row@ == line_notes(contents@, contents@.len() as int),
{
    let mut row: Vec<(NoteType, usize)> = Vec::new();
    let count: usize = contents.unicode_len();
    let mut index: usize = 0;
    while index < count
        invariant
            0 <= index <= count == contents@.len(),
            row@ == line_notes(contents@, index as int),
        decreases count - index,
    {
        let character = contents.get_char(index);
        match char_to_notetype(character) {
            Some(note) => {
                row.push((note, index));
            },
            None => {},
        }
        index += 1;
    }
    NoteRow { row }
}

/// The indices of the lines with notes are in rising order and within the
/// first `n`.
proof fn lemma_lines_with_notes_rising(lines: Seq<Seq<char>>, n: int)
    requires
        0 <= n <= lines.len(),
    ensures
        forall|i: int|
            0 <= i < lines_with_notes(lines, n).len() ==> 0 <= (#[trigger] lines_with_notes(
                lines,
                n,
            )[i]) < n,
        forall|i: int, j: int|
            0 <= i < j < lines_with_notes(lines, n).len() ==> lines_with_notes(lines, n)[i]
                < lines_with_notes(lines, n)[j],
    decreases n,
{
    if n > 0 {
        lemma_lines_with_notes_rising(lines, n - 1);
        let had = lines_with_notes(lines, n - 1);
        let all = lines_with_notes(lines, n);
        assert forall|i: int| 0 <= i < all.len() implies 0 <= (#[trigger] all[i]) < n by {
            if i < had.len() {
                assert(all[i] == had[i]);
            }
        }
        assert forall|i: int, j: int| 0 <= i < j < all.len() implies all[i] < all[j] by {
            assert(all[i] == had[i]);
            if j < had.len() {
                assert(all[j] == had[j]);
            }
        }
    }
}

/// Rows that stand at rising indices of the lines of a measure form a valid
/// measure.
proof fn lemma_rows_of_lines_valid(
    rows: Seq<(Fraction, NoteRow)>,
    lines: Seq<Seq<char>>,
    indices: Seq<int>,
)
    requires
        rows_of_lines(rows, lines, indices),
        forall|i: int| 0 <= i < indices.len() ==> 0 <= (#[trigger] indices[i]) < lines.len(),
        forall|i: int, j: int| 0 <= i < j < indices.len() ==> indices[i] < indices[j],
    ensures
        measure_valid(rows),
{
    let count = lines.len() as int;
    assert forall|r: int| 0 <= r < rows.len() implies row_valid(#[trigger] rows[r]) by {
        let f = rows[r].0;
        let (n, d, k) = (f.numer(), f.denom(), indices[r]);
        assert(0 <= n < d) by (nonlinear_arith)
            requires
                n * count == k * d,
                0 <= k < count,
                d > 0,
        ;
    }
    assert forall|r: int| 0 < r < rows.len() implies #[trigger] row_follows(
        rows[r - 1],
        rows[r],
    ) by {
        let a = rows[r - 1].0;
        let b = rows[r].0;
        let (n1, d1, k1) = (a.numer(), a.denom(), indices[r - 1]);
        let (n2, d2, k2) = (b.numer(), b.denom(), indices[r]);
        assert(n1 * d2 < n2 * d1) by (nonlinear_arith)
            requires
                n1 * count == k1 * d1,
                n2 * count == k2 * d2,
                0 <= k1 < k2 < count,
                d1 > 0,
                d2 > 0,
        ;
    }
}

/// Reads one measure: the lines divide the measure evenly, and every line
/// that holds a note gives a row at its place. The rows form a valid measure.
pub fn parse_measure(measure: &[&str]) -> (rows: Vec<(Fraction, NoteRow)>)
    requires
        measure@.len() <= i64::MAX,
    ensures
        rows_of_lines(
            rows@,
            texts(measure@),
            lines_with_notes(texts(measure@), measure@.len() as int),
        ),
        measure_valid(rows@),
{
    let ghost lines = texts(measure@);
    let division: usize = measure.len();
    let mut rows: Vec<(Fraction, NoteRow)> = Vec::new();
    let mut subindex: usize = 0;
    while subindex < division
        invariant
            0 <= subindex <= division == measure@.len() <= i64::MAX,
            lines == texts(measure@),
            rows_of_lines(rows@, lines, lines_with_notes(lines, subindex as int)),
        decreases division - subindex,
    {
        let row = parse_line(measure[subindex]);
        assert(lines[subindex as int] == measure@[subindex as int]@);
        if row.row.len() > 0 {
            let ghost had = rows@;
            let ghost indices = lines_with_notes(lines, subindex as int);
            let place = Fraction::new(subindex as i64, division as u64);
            rows.push((place.unwrap(), row));
            proof {
                let next = lines_with_notes(lines, subindex as int + 1);
                assert(next == indices.push(subindex as int));
                assert forall|i: int| 0 <= i < rows@.len() implies {
                    &&& (#[trigger] rows@[i]).0.wf()
                    &&& rows@[i].0.equals_ratio(next[i], lines.len() as int)
                    &&& rows@[i].1.row@ == line_notes(lines[next[i]], lines[next[i]].len() as int)
                } by {
                    if i < had.len() {
                        assert(rows@[i] == had[i]);
                        assert(next[i] == indices[i]);
                    }
                }
            }
        }
        subindex += 1;
    }
    proof {
        lemma_lines_with_notes_rising(lines, lines.len() as int);
        lemma_rows_of_lines_valid(rows@, lines, lines_with_notes(lines, lines.len() as int));
    }
    rows
}

/// Finds the first `letter` of a text.
fn find_char(contents: &str, letter: char) -> (index: usize)
    ensures
        index == first_index(contents@, letter, 0),
        index <= contents@.len(),
{
    broadcast use vstd::string::group_string_axioms;

    let mut iter = contents.chars();
    let mut index: usize = 0;
    let count = contents.unicode_len();
    loop
        invariant
            0 <= index <= count == contents@.len(),
            iter.remaining() == contents@.skip(index as int),
            first_index(contents@, letter, index as int) == first_index(contents@, letter, 0),
            iter.obeys_prophetic_iter_laws(),
        decreases count - index,
    {
        match iter.next() {
            Some(c) => {
                assert(c == contents@[index as int]);
                if c == letter {
                    return index;
                }
                index += 1;
                assert(iter.remaining() =~= contents@.skip(index as int));
            },
            None => {
                return index;
            },
        }
    }
}

/// Splits a text at the first `letter`: what stands before it and what
/// stands after it. A text without the letter is given back whole, with
/// nothing after it.
pub fn split_once<'a>(contents: &'a str, letter: char) -> (parts: (&'a str, &'a str))
    ensures
        parts.0@ == contents@.take(first_index(contents@, letter, 0)),
        parts.1@ == if first_index(contents@, letter, 0) < contents@.len() {
            contents@.skip(first_index(contents@, letter, 0) + 1)
        } else {
            Seq::<char>::empty()
        },
{
    let count = contents.unicode_len();
    let at = find_char(contents, letter);
    let first = contents.substring_char(0, at);
    let second = if at < count {
        contents.substring_char(at + 1, count)
    } else {
        contents.substring_char(count, count)
    };
    proof {
        assert(contents@.subrange(0, at as int) =~= contents@.take(at as int));
        if at < count {
            assert(contents@.subrange(at as int + 1, count as int) =~= contents@.skip(
                at as int + 1,
            ));
        } else {
            assert(contents@.subrange(count as int, count as int) =~= Seq::<char>::empty());
        }
    }
    (first, second)
}

/// The lines of description that stand before the measures of a chart.
pub const HEADER_LINES: usize = 5;

/// A line that closes a measure: it starts with a comma.
pub open spec fn is_separator(line: Seq<char>) -> bool {
    line.len() > 0 && line[0] == ','
}

/// Those of the first `n` lines that are not empty.
pub open spec fn kept_lines(lines: Seq<Seq<char>>, n: int) -> Seq<Seq<char>>
    decreases n,
{
    if n <= 0 {
        Seq::empty()
    } else if lines[n - 1].len() > 0 {
        kept_lines(lines, n - 1).push(lines[n - 1])
    } else {
        kept_lines(lines, n - 1)
    }
}

/// The lines that hold the measures: the lines that are not empty, without
/// the lines of description.
pub open spec fn body_lines(lines: Seq<Seq<char>>) -> Seq<Seq<char>> {
    let kept = kept_lines(lines, lines.len() as int);
    if kept.len() > HEADER_LINES {
        kept.skip(HEADER_LINES as int)
    } else {
        Seq::empty()
    }
}

/// The first `n` lines split at the lines that close a measure. There is
/// always a last block, which is empty when the lines end with a closing
/// line or are none at all.
pub open spec fn measure_blocks(body: Seq<Seq<char>>, n: int) -> Seq<Seq<Seq<char>>>
    decreases n,
{
    if n <= 0 {
        seq![Seq::empty()]
    } else {
        let had = measure_blocks(body, n - 1);
        if is_separator(body[n - 1]) {
            had.push(Seq::empty())
        } else {
            had.update(had.len() - 1, had.last().push(body[n - 1]))
        }
    }
}

/// The measures are those that the blocks of lines stand for.
pub open spec fn measures_of_blocks(measures: Seq<Measure>, blocks: Seq<Seq<Seq<char>>>) -> bool {
    &&& measures.len() == blocks.len()
    &&& forall|b: int|
        0 <= b < measures.len() ==> rows_of_lines(
            (#[trigger] measures[b])@,
            blocks[b],
            lines_with_notes(blocks[b], blocks[b].len() as int),
        )
}

/// There is at least one block, and the last is no longer than the lines.
proof fn lemma_measure_blocks_bounds(body: Seq<Seq<char>>, n: int)
    requires
        0 <= n,
    ensures
        measure_blocks(body, n).len() >= 1,
        measure_blocks(body, n).last().len() <= n,
    decreases n,
{
    if n > 0 {
        lemma_measure_blocks_bounds(body, n - 1);
    }
}

/// Whether a line closes a measure.
fn closes_measure(line: &str) -> (r: bool)
    ensures
        r == is_separator(line@),
{
    line.unicode_len() > 0 && line.get_char(0) == ','
}

/// Splits lines into measures at the lines that start with a comma and reads
/// each measure.
pub fn parse_blocks<'a>(body: &[&'a str]) -> (chart: ChartData)
    requires
        body@.len() <= i64::MAX,
    ensures
        measures_of_blocks(chart@, measure_blocks(texts(body@), body@.len() as int)),
        chart_valid(chart@),
{
    let ghost body_texts = texts(body@);
    let mut measures: Vec<Measure> = Vec::new();
    let mut current: Vec<&'a str> = Vec::new();
    let mut i: usize = 0;
    proof {
        assert(texts(current@) =~= measure_blocks(body_texts, 0).last());
    }
    while i < body.len()
        invariant
            0 <= i <= body.len() <= i64::MAX,
            body_texts == texts(body@),
            measure_blocks(body_texts, i as int).len() == measures@.len() + 1,
            texts(current@) == measure_blocks(body_texts, i as int).last(),
            current@.len() <= i,
            forall|b: int|
                0 <= b < measures@.len() ==> rows_of_lines(
                    (#[trigger] measures@[b])@,
                    measure_blocks(body_texts, i as int)[b],
                    lines_with_notes(
                        measure_blocks(body_texts, i as int)[b],
                        measure_blocks(body_texts, i as int)[b].len() as int,
                    ),
                ),
            forall|b: int| 0 <= b < measures@.len() ==> measure_valid((#[trigger] measures@[b])@),
        decreases body.len() - i,
    {
        let line = body[i];
        assert(body_texts[i as int] == line@);
        let ghost had = measure_blocks(body_texts, i as int);
        let ghost done = measures@;
        let ghost block = current@;
        if closes_measure(line) {
            let rows = parse_measure(current.as_slice());
            measures.push(rows);
            current = Vec::new();
            proof {
                let next = measure_blocks(body_texts, i as int + 1);
                assert(next == had.push(Seq::empty()));
                assert(texts(current@) =~= next.last());
                assert forall|b: int| 0 <= b < measures@.len() implies rows_of_lines(
                    (#[trigger] measures@[b])@,
                    next[b],
                    lines_with_notes(next[b], next[b].len() as int),
                ) && measure_valid(measures@[b]@) by {
                    if b < done.len() {
                        assert(measures@[b] == done[b]);
                        assert(next[b] == had[b]);
                    } else {
                        assert(next[b] == had.last());
                    }
                }
            }
        } else {
            current.push(line);
            proof {
                let next = measure_blocks(body_texts, i as int + 1);
                assert(next == had.update(had.len() - 1, had.last().push(line@)));
                assert(texts(current@) =~= texts(block).push(line@));
                assert forall|b: int| 0 <= b < measures@.len() implies rows_of_lines(
                    (#[trigger] measures@[b])@,
                    next[b],
                    lines_with_notes(next[b], next[b].len() as int),
                ) by {
                    assert(next[b] == had[b]);
                }
            }
        }
        i += 1;
    }
    let ghost blocks = measure_blocks(body_texts, body_texts.len() as int);
    let ghost done = measures@;
    let rows = parse_measure(current.as_slice());
    measures.push(rows);
    proof {
        assert forall|b: int| 0 <= b < measures@.len() implies rows_of_lines(
            (#[trigger] measures@[b])@,
            blocks[b],
            lines_with_notes(blocks[b], blocks[b].len() as int),
        ) && measure_valid(measures@[b]@) by {
            if b < done.len() {
                assert(measures@[b] == done[b]);
            }
        }
    }
    ChartData::new(measures)
}

/// Reads the chart of the lines of a block of notes: the empty lines are
/// dropped, then the lines of description, and the rest is split into
/// measures at the lines that start with a comma.
pub fn parse_main_block<'a>(lines: &[&'a str]) -> (chart: ChartData)
    requires
        lines@.len() <= i64::MAX,
    ensures
        measures_of_blocks(
            chart@,
            measure_blocks(body_lines(texts(lines@)), body_lines(texts(lines@)).len() as int),
        ),
        chart_valid(chart@),
{
    let ghost all_lines = texts(lines@);
    let mut kept: usize = 0;
    let mut body: Vec<&'a str> = Vec::new();
    let mut n: usize = 0;
    proof {
        assert(texts(body@) =~= Seq::<Seq<char>>::empty());
    }
    while n < lines.len()
        invariant
            0 <= n <= lines.len(),
            all_lines == texts(lines@),
            kept == kept_lines(all_lines, n as int).len(),
            kept <= n,
            body@.len() <= n,
            texts(body@) == if kept > HEADER_LINES {
                kept_lines(all_lines, n as int).skip(HEADER_LINES as int)
            } else {
                Seq::<Seq<char>>::empty()
            },
        decreases lines.len() - n,
    {
        let line = lines[n];
        assert(all_lines[n as int] == line@);
        if line.unicode_len() > 0 {
            let ghost had = body@;
            if kept >= HEADER_LINES {
                body.push(line);
                proof {
                    assert(texts(body@) =~= texts(had).push(line@));
                }
            }
            kept += 1;
            proof {
                let all = kept_lines(all_lines, n as int + 1);
                assert(all == kept_lines(all_lines, n as int).push(line@));
                if kept > HEADER_LINES {
                    assert(texts(body@) =~= all.skip(HEADER_LINES as int));
                }
            }
        }
        n += 1;
    }
    assert(texts(body@) == body_lines(all_lines));
    parse_blocks(body.as_slice())
}

} // verus!
