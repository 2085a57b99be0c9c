//! Writing the text of a simfile: tags and rows of notes.

use crate::fraction::Fraction;
use crate::notedata::{Note, NoteType};
use crate::strings::push_char;
use vstd::arithmetic::div_mod::{lemma_div_is_ordered, lemma_div_pos_is_pos};
use vstd::prelude::*;
use vstd::string::StringExecFns;

verus! {

/// The character that stands for a kind of note in a row of a simfile.
pub open spec fn char_of_note(note: NoteType) -> char {
    match note {
        NoteType::Tap => '1',
        NoteType::Hold => '2',
        NoteType::HoldEnd => '3',
        NoteType::Roll => '4',
        NoteType::Mine => 'M',
        NoteType::Lift => 'L',
        NoteType::Fake => 'F',
    }
}

/// The characters of a row of `length` columns after the first `n` notes of
/// it are written: every column starts out as `'0'`, each note puts its
/// character in its column, a later note over an earlier one, and a note of a
/// column that the row does not have is left out.
pub open spec fn row_chars(row: Seq<Note>, n: int, length: int) -> Seq<char>
    decreases n,
{
    if n <= 0 {
        Seq::new(length as nat, |i: int| '0')
    } else if row[n - 1].column < length {
        row_chars(row, n - 1, length).update(
            row[n - 1].column as int,
            char_of_note(row[n - 1].note_type),
        )
    } else {
        row_chars(row, n - 1, length)
    }
}

/// The text of a tag: `#`, the name, `:`, the contents, `;` and a line end.
pub open spec fn tag_text(tag_name: Seq<char>, contents: Seq<char>) -> Seq<char> {
    seq!['#'] + tag_name + seq![':'] + contents + seq![';', '\n']
}

/// Writes a tag of a simfile.
pub fn write_tag(tag_name: &str, contents: &str) -> (tag: String)
    ensures
        tag@ == tag_text(tag_name@, contents@),
{
    let mut tag = String::from_str("#");
    tag.append(tag_name);
    tag.append(":");
    tag.append(contents);
    tag.append(";\n");
    proof {
        reveal_strlit("#");
        reveal_strlit(":");
        reveal_strlit(";\n");
        assert("#"@ =~= seq!['#']);
        assert(":"@ =~= seq![':']);
        assert(";\n"@ =~= seq![';', '\n']);
    }
    tag
}

/// The character that stands for a kind of note.
pub fn notetype_to_char(note: NoteType) -> (c: char)
    ensures
        c == char_of_note(note),
{
    match note {
        NoteType::Tap => '1',
        NoteType::Hold => '2',
        NoteType::HoldEnd => '3',
        NoteType::Roll => '4',
        NoteType::Mine => 'M',
        NoteType::Lift => 'L',
        NoteType::Fake => 'F',
    }
}

/// Writes a row of `length` columns: a `'0'` for every column without a note
/// and the character of its note for every other.
pub fn row_string(row: &[Note], length: usize) -> (text: String)
    ensures
        text@ == row_chars(row@, row@.len() as int, length as int),
{
    let mut blank_line: Vec<char> = Vec::new();
    let mut i: usize = 0;
    while i < length
        invariant
            0 <= i <= length,
            blank_line@ == Seq::new(i as nat, |k: int| '0'),
        decreases length - i,
    {
        blank_line.push('0');
        proof {
            assert(blank_line@ =~= Seq::new((i + 1) as nat, |k: int| '0'));
        }
        i += 1;
    }
    let mut n: usize = 0;
    while n < row.len()
        invariant
            0 <= n <= row.len(),
            blank_line@ == row_chars(row@, n as int, length as int),
            blank_line@.len() == length,
        decreases row.len() - n,
    {
        let note = row[n];
        if note.column < length {
            blank_line.set(note.column, notetype_to_char(note.note_type));
        }
        n += 1;
    }
    let mut text = String::new();
    let mut k: usize = 0;
    while k < length
        invariant
            0 <= k <= length,
            blank_line@.len() == length,
            text@ == blank_line@.take(k as int),
        decreases length - k,
    {
        push_char(&mut text, blank_line[k]);
        proof {
            assert(text@ =~= blank_line@.take(k as int + 1));
        }
        k += 1;
    }
    proof {
        assert(blank_line@.take(k as int) =~= blank_line@);
    }
    text
}

/// A row of notes as the writer takes it: the notes and the fraction of the
/// measure at which they stand.
pub type WrittenRow = (Vec<Note>, Fraction);

/// The number of rows into which a measure is divided when no finer
/// division is needed: these eight are tried in turn.
pub open spec fn snap_at(index: int) -> int {
    if index == 0 {
        4
    } else if index == 1 {
        8
    } else if index == 2 {
        12
    } else if index == 3 {
        16
    } else if index == 4 {
        24
    } else if index == 5 {
        32
    } else if index == 6 {
        48
    } else if index == 7 {
        64
    } else {
        192
    }
}

/// Which division is reached after the first `n` rows: each row whose place
/// the division reached so far cannot show moves on to the next division.
pub open spec fn snap_index(measure: Seq<WrittenRow>, n: int) -> int
    decreases n,
{
    if n <= 0 {
        0
    } else {
        let reached = snap_index(measure, n - 1);
        if reached < 8 && snap_at(reached) % measure[n - 1].1.denom() != 0 {
            reached + 1
        } else {
            reached
        }
    }
}

/// The number of rows into which a measure is written.
pub open spec fn measure_snap(measure: Seq<WrittenRow>) -> int {
    snap_at(snap_index(measure, measure.len() as int))
}

/// The first row of a measure of `snap` rows that does not stand before a
/// fraction of the measure.
pub open spec fn row_target(at: Fraction, snap: int) -> int {
    if at.numer() <= 0 {
        0
    } else {
        (at.numer() * snap + at.denom() - 1) / at.denom()
    }
}

/// A row without a note, with its line end.
pub open spec fn blank_line(length: int) -> Seq<char> {
    Seq::new(length as nat, |i: int| '0').push('\n')
}

/// So many rows without a note.
pub open spec fn blank_lines(count: int, length: int) -> Seq<char>
    decreases count,
{
    if count <= 0 {
        Seq::empty()
    } else {
        blank_lines(count - 1, length) + blank_line(length)
    }
}

/// The number of rows that are written when the first `n` rows of notes are:
/// each row of notes stands on the first row that is free and does not stand
/// before its fraction.
pub open spec fn rows_written(measure: Seq<WrittenRow>, n: int, snap: int) -> int
    decreases n,
{
    if n <= 0 {
        0
    } else {
        let before = rows_written(measure, n - 1, snap);
        let target = row_target(measure[n - 1].1, snap);
        if before < target {
            target + 1
        } else {
            before + 1
        }
    }
}

/// The text of the first `n` rows of notes of a measure, with the rows
/// without a note that stand before each.
pub open spec fn rows_text(measure: Seq<WrittenRow>, n: int, snap: int, length: int) -> Seq<char>
    decreases n,
{
    if n <= 0 {
        Seq::empty()
    } else {
        rows_text(measure, n - 1, snap, length) + blank_lines(
            row_target(measure[n - 1].1, snap) - rows_written(measure, n - 1, snap),
            length,
        ) + row_chars(measure[n - 1].0@, measure[n - 1].0@.len() as int, length).push('\n')
    }
}

/// The text of a measure: its rows, rows without a note up to the number of
/// rows of the measure, and the line that closes it.
pub open spec fn measure_text(measure: Seq<WrittenRow>, length: int) -> Seq<char> {
    let snap = measure_snap(measure);
    rows_text(measure, measure.len() as int, snap, length) + blank_lines(
        snap - rows_written(measure, measure.len() as int, snap),
        length,
    ) + seq![',', '\n']
}

/// **The target of a row is the first row at or after its fraction.** In a
/// measure of `snap` rows, a row stands before a fraction exactly when it
/// stands before the target of the fraction.
pub proof fn lemma_row_target(at: Fraction, snap: int, row: int)
    requires
        at.denom() > 0,
        snap > 0,
        row >= 0,
    ensures
        row < row_target(at, snap) <==> row * at.denom() < at.numer() * snap,
{
    let (n, d) = (at.numer(), at.denom());
    if n <= 0 {
        assert(n * snap <= 0) by (nonlinear_arith)
            requires
                n <= 0,
                snap > 0,
        ;
        assert(row * d >= 0) by (nonlinear_arith)
            requires
                row >= 0,
                d > 0,
        ;
    } else {
        let x = n * snap;
        let target = (x + d - 1) / d;
        vstd::arithmetic::div_mod::lemma_fundamental_div_mod(x + d - 1, d);
        vstd::arithmetic::div_mod::lemma_mod_bound(x + d - 1, d);
        assert(d * target <= x + d - 1 < d * target + d);
        assert(row < target <==> row * d < x) by (nonlinear_arith)
            requires
                d * target <= x + d - 1 < d * target + d,
                d > 0,
        ;
    }
}

/// The division with the index `index`.
fn possible_snap(index: usize) -> (snap: u64)
    ensures
        snap == snap_at(index as int),
        4 <= snap <= 192,
{
    match index {
        0 => 4,
        1 => 8,
        2 => 12,
        3 => 16,
        4 => 24,
        5 => 32,
        6 => 48,
        7 => 64,
        _ => 192,
    }
}

/// The first row of a measure of `snap` rows that does not stand before a
/// fraction of the measure, computed.
fn target_row(at: &Fraction, snap: u64) -> (target: u128)
    requires
        4 <= snap <= 192,
    ensures
        target == row_target(*at, snap as int),
        target <= 0x100_0000_0000_0000_0000,
{
    let (numerator, denominator) = at.contents();
    if numerator <= 0 {
        0
    } else {
        proof {
            assert(0 < numerator * snap <= 0x8000_0000_0000_0000 * 192) by (nonlinear_arith)
                requires
                    0 < numerator <= 0x8000_0000_0000_0000,
                    4 <= snap <= 192,
            ;
            let sum = numerator * snap + denominator - 1;
            let most: int = 0x8000_0000_0000_0000int * 192int + 0xffff_ffff_ffff_ffffint;
            lemma_div_pos_is_pos(sum, denominator as int);
            lemma_div_is_ordered(sum, most, denominator as int);
            vstd::arithmetic::div_mod::lemma_div_nonincreasing(most, denominator as int);
        }
        ((numerator as u128) * (snap as u128) + (denominator as u128) - 1) / (denominator as u128)
    }
}

/// Appends so many rows without a note.
fn push_blank_lines(output: &mut String, line: &String, count: u128, Ghost(length): Ghost<int>)
    requires
        line@ == blank_line(length),
    ensures
        final(output)@ == old(output)@ + blank_lines(count as int, length),
{
    let mut written: u128 = 0;
    proof {
        assert(output@ + blank_lines(0, length) =~= output@);
    }
    while written < count
        invariant
            0 <= written <= count,
            line@ == blank_line(length),
            output@ == old(output)@ + blank_lines(written as int, length),
        decreases count - written,
    {
        output.append(line.as_str());
        written += 1;
        proof {
            assert(output@ =~= old(output)@ + blank_lines(written as int, length));
        }
    }
}

/// Writes a measure of rows of `length` columns. The measure is divided into
/// as few rows as its notes allow, a row without a note is written for every
/// place that has none, and a line with a comma closes the measure.
pub fn measure_string(measure: &[WrittenRow], length: usize) -> (text: String)
    ensures
        text@ == measure_text(measure@, length as int),
{
    let mut snap_index_reached: usize = 0;
    let mut n: usize = 0;
    while n < measure.len()
        invariant
            0 <= n <= measure.len(),
            snap_index_reached == snap_index(measure@, n as int),
            0 <= snap_index_reached <= 8,
        decreases measure.len() - n,
    {
        if snap_index_reached < 8 {
            let (_, denominator) = measure[n].1.contents();
            if possible_snap(snap_index_reached) % denominator != 0 {
                snap_index_reached += 1;
            }
        }
        n += 1;
    }
    let snap: u64 = possible_snap(snap_index_reached);
    let mut line = String::new();
    let mut i: usize = 0;
    while i < length
        invariant
            0 <= i <= length,
            line@ == Seq::new(i as nat, |k: int| '0'),
        decreases length - i,
    {
        push_char(&mut line, '0');
        proof {
            assert(line@ =~= Seq::new((i + 1) as nat, |k: int| '0'));
        }
        i += 1;
    }
    push_char(&mut line, '\n');
    let mut output = String::new();
    let mut row_index: u128 = 0;
    let mut r: usize = 0;
    proof {
        assert(output@ =~= rows_text(measure@, 0, snap as int, length as int));
    }
    while r < measure.len()
        invariant
            0 <= r <= measure.len(),
            4 <= snap <= 192,
            line@ == blank_line(length as int),
            row_index == rows_written(measure@, r as int, snap as int),
            row_index <= 0x100_0000_0000_0000_0000 + r,
            output@ == rows_text(measure@, r as int, snap as int, length as int),
        decreases measure.len() - r,
    {
        let target = target_row(&measure[r].1, snap);
        if row_index < target {
            push_blank_lines(&mut output, &line, target - row_index, Ghost(length as int));
            row_index = target;
        } else {
            proof {
                assert(output@ + blank_lines(target - row_index, length as int) =~= output@);
            }
        }
        let row = row_string(measure[r].0.as_slice(), length);
        output.append(row.as_str());
        output.append("\n");
        row_index += 1;
        proof {
            reveal_strlit("\n");
            assert("\n"@ =~= seq!['\n']);
            assert(output@ =~= rows_text(measure@, r as int + 1, snap as int, length as int));
        }
        r += 1;
    }
    if row_index < snap as u128 {
        push_blank_lines(&mut output, &line, (snap as u128) - row_index, Ghost(length as int));
    } else {
        proof {
            assert(output@ + blank_lines(snap - row_index, length as int) =~= output@);
        }
    }
    output.append(",\n");
    proof {
        reveal_strlit(",\n");
        assert(",\n"@ =~= seq![',', '\n']);
    }
    output
}

/// The text of the first `n` measures of a chart of four columns.
pub open spec fn measures_text(chart: Seq<Vec<WrittenRow>>, n: int) -> Seq<char>
    decreases n,
{
    if n <= 0 {
        Seq::empty()
    } else {
        measures_text(chart, n - 1) + measure_text(chart[n - 1]@, 4)
    }
}

/// Writes a chart of four columns: the lines that describe it, then its
/// measures.
pub fn chart_string(chart: &[Vec<WrittenRow>]) -> (text: String)
    ensures
        text@ == "dance-single:\n:\nBeginner:\n1:\n0.0,0.0,0.0,0.0,0.0:\n"@ + measures_text(
            chart@,
            chart@.len() as int,
        ),
{
    let mut output = String::new();
    output.append("dance-single:\n:\nBeginner:\n1:\n0.0,0.0,0.0,0.0,0.0:\n");
    let mut m: usize = 0;
    proof {
        assert(output@ =~= "dance-single:\n:\nBeginner:\n1:\n0.0,0.0,0.0,0.0,0.0:\n"@
            + measures_text(chart@, 0));
    }
    while m < chart.len()
        invariant
            0 <= m <= chart.len(),
            output@ == "dance-single:\n:\nBeginner:\n1:\n0.0,0.0,0.0,0.0,0.0:\n"@
                + measures_text(chart@, m as int),
        decreases chart.len() - m,
    {
        let measure = measure_string(chart[m].as_slice(), 4);
        output.append(measure.as_str());
        proof {
            assert(output@ =~= "dance-single:\n:\nBeginner:\n1:\n0.0,0.0,0.0,0.0,0.0:\n"@
                + measures_text(chart@, m as int + 1));
        }
        m += 1;
    }
    output
}

} // verus!
