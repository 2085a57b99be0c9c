use rustmania::fraction::Fraction;
use rustmania::notedata::{ChartData, Note, NoteRow, NoteType};
use rustmania::sm_parser::{
    char_to_notetype, parse_line, parse_main_block, parse_measure, split_once, HEADER_LINES,
};
use rustmania::sm_writer::{chart_string, measure_string, notetype_to_char, row_string, write_tag};

#[test]
fn create_tag() {
    assert_eq!(write_tag("TITLE", "foobar baz"), "#TITLE:foobar baz;\n")
}

#[test]
fn parse_lines_correctly() {
    assert_eq!(NoteRow { row: vec![] }, parse_line("0000"));
    assert_eq!(
        NoteRow {
            row: vec![(NoteType::Tap, 2)],
        },
        parse_line("0010")
    );
}

#[test]
fn empty_tag_has_only_its_frame() {
    assert_eq!(write_tag("", ""), "#:;\n");
}

#[test]
fn every_note_has_its_character() {
    assert_eq!(notetype_to_char(NoteType::Tap), '1');
    assert_eq!(notetype_to_char(NoteType::Hold), '2');
    assert_eq!(notetype_to_char(NoteType::HoldEnd), '3');
    assert_eq!(notetype_to_char(NoteType::Roll), '4');
    assert_eq!(notetype_to_char(NoteType::Mine), 'M');
    assert_eq!(notetype_to_char(NoteType::Lift), 'L');
    assert_eq!(notetype_to_char(NoteType::Fake), 'F');
}

#[test]
fn reading_undoes_writing_a_note() {
    let all = [
        NoteType::Tap,
        NoteType::Hold,
        NoteType::HoldEnd,
        NoteType::Roll,
        NoteType::Mine,
        NoteType::Lift,
        NoteType::Fake,
    ];
    for note in all {
        assert_eq!(char_to_notetype(notetype_to_char(note)), Some(note));
    }
    assert_eq!(char_to_notetype('0'), None);
    assert_eq!(char_to_notetype('x'), None);
    assert_eq!(char_to_notetype('\n'), None);
}

#[test]
fn rows_are_written_column_by_column() {
    assert_eq!(row_string(&[], 4), "0000");
    assert_eq!(row_string(&[Note::new(NoteType::Tap, 1)], 4), "0100");
    assert_eq!(
        row_string(
            &[Note::new(NoteType::Mine, 0), Note::new(NoteType::Hold, 3)],
            4
        ),
        "M002"
    );
    // a note outside the row is left out, a later note overwrites an earlier one
    assert_eq!(
        row_string(
            &[
                Note::new(NoteType::Tap, 7),
                Note::new(NoteType::Tap, 2),
                Note::new(NoteType::Fake, 2)
            ],
            4
        ),
        "00F0"
    );
    assert_eq!(row_string(&[Note::new(NoteType::Tap, 0)], 0), "");
}

#[test]
fn a_written_row_reads_back() {
    let text = row_string(
        &[Note::new(NoteType::Lift, 0), Note::new(NoteType::HoldEnd, 2)],
        4,
    );
    assert_eq!(
        parse_line(&text),
        NoteRow {
            row: vec![(NoteType::Lift, 0), (NoteType::HoldEnd, 2)]
        }
    );
}

#[test]
fn lines_of_every_kind_are_read() {
    assert_eq!(
        parse_line("1234MLF0"),
        NoteRow {
            row: vec![
                (NoteType::Tap, 0),
                (NoteType::Hold, 1),
                (NoteType::HoldEnd, 2),
                (NoteType::Roll, 3),
                (NoteType::Mine, 4),
                (NoteType::Lift, 5),
                (NoteType::Fake, 6),
            ]
        }
    );
    assert_eq!(parse_line(""), NoteRow { row: vec![] });
}

#[test]
fn measures_keep_only_rows_with_notes() {
    let rows = parse_measure(&["0000", "0100", "0000", "0010", "0000"]);
    assert_eq!(
        rows,
        vec![
            (
                Fraction::new(1, 5).unwrap(),
                NoteRow {
                    row: vec![(NoteType::Tap, 1)]
                }
            ),
            (
                Fraction::new(3, 5).unwrap(),
                NoteRow {
                    row: vec![(NoteType::Tap, 2)]
                }
            ),
        ]
    );
    assert_eq!(parse_measure(&[]), vec![]);
    let quarters = parse_measure(&["1000", "0100", "0010", "0001"]);
    assert_eq!(quarters.len(), 4);
    assert_eq!(quarters[0].0.contents(), (0, 1));
    assert_eq!(quarters[2].0.contents(), (1, 2));
    assert_eq!(quarters[3].0.contents(), (3, 4));
}

#[test]
fn texts_split_at_the_first_letter() {
    assert_eq!(split_once("TITLE:foo:bar", ':'), ("TITLE", "foo:bar"));
    assert_eq!(split_once("no colon", ':'), ("no colon", ""));
    assert_eq!(split_once(":x", ':'), ("", "x"));
    assert_eq!(split_once("x:", ':'), ("x", ""));
    assert_eq!(split_once("", ':'), ("", ""));
    assert_eq!(split_once("\u{e9}t\u{e9}=\u{fc}ber", '='), ("\u{e9}t\u{e9}", "\u{fc}ber"));
    assert_eq!(split_once("a\u{20ac}b\u{20ac}c", '\u{20ac}'), ("a", "b\u{20ac}c"));
}

#[test]
fn blocks_of_notes_are_split_into_measures() {
    assert_eq!(HEADER_LINES, 5);
    let lines = [
        "     dance-single:",
        "",
        "     :",
        "     Beginner:",
        "     1:",
        "     0.000,0.000:",
        "0000",
        "0100",
        "",
        "0000",
        "0000",
        ", // measure 2",
        "0000",
        "0000",
        "0010",
        "0000",
    ];
    let tap = |column| NoteRow {
        row: vec![(NoteType::Tap, column)],
    };
    assert_eq!(
        parse_main_block(&lines),
        ChartData::new(vec![
            vec![(Fraction::new(1, 4).unwrap(), tap(1))],
            vec![(Fraction::new(1, 2).unwrap(), tap(2))],
        ])
    );
    // a closing line at the end opens a last, empty measure
    let closed = ["a", "b", "c", "d", "e", "1000", ","];
    assert_eq!(
        parse_main_block(&closed),
        ChartData::new(vec![vec![(Fraction::new(0, 1).unwrap(), tap(0))], vec![]])
    );
    // without lines after the description there is one empty measure
    assert_eq!(
        parse_main_block(&["a", "b", "c", "d", "e"]),
        ChartData::new(vec![vec![]])
    );
    assert_eq!(parse_main_block(&[]), ChartData::new(vec![vec![]]));
    assert_eq!(
        parse_main_block(&["a", "b", "c", "d", "e", ",", ","]),
        ChartData::new(vec![vec![], vec![], vec![]])
    );
}

#[test]
fn measures_are_written_in_as_few_rows_as_fit() {
    let tap = |column| vec![Note::new(NoteType::Tap, column)];
    let at = |n, d| Fraction::new(n, d).unwrap();
    assert_eq!(measure_string(&[], 4), "0000\n0000\n0000\n0000\n,\n");
    assert_eq!(
        measure_string(&[(tap(1), at(1, 4))], 4),
        "0000\n0100\n0000\n0000\n,\n"
    );
    assert_eq!(
        measure_string(&[(tap(0), at(0, 1)), (tap(3), at(3, 4))], 4),
        "1000\n0000\n0000\n0001\n,\n"
    );
    assert_eq!(
        measure_string(&[(tap(1), at(1, 8))], 4),
        "0000\n0100\n0000\n0000\n0000\n0000\n0000\n0000\n,\n"
    );
    assert_eq!(
        measure_string(&[(tap(0), at(1, 3)), (tap(2), at(2, 3))], 3),
        "000\n000\n000\n000\n100\n000\n000\n000\n001\n000\n000\n000\n,\n"
    );
    // each row moves the division on by one step at most
    assert_eq!(
        measure_string(&[(tap(1), at(1, 16))], 4),
        "0000\n0100\n0000\n0000\n0000\n0000\n0000\n0000\n,\n"
    );
    // rows at one place follow each other
    assert_eq!(
        measure_string(&[(tap(0), at(1, 2)), (tap(1), at(1, 2))], 2),
        "00\n00\n10\n01\n,\n"
    );
    assert_eq!(measure_string(&[], 0), "\n\n\n\n,\n");
}

#[test]
fn a_division_finer_than_all_is_written_in_192_rows() {
    let rows = (1..=9)
        .map(|n| (vec![Note::new(NoteType::Tap, 0)], Fraction::new(n, 193).unwrap()))
        .collect::<Vec<_>>();
    let text = measure_string(&rows, 1);
    assert_eq!(text.lines().count(), 193);
    assert_eq!(text.lines().filter(|line| *line == "1").count(), 9);
    assert_eq!(text.lines().last(), Some(","));
}

#[test]
fn charts_are_written_after_their_description() {
    let tap = |column| vec![Note::new(NoteType::Tap, column)];
    let at = |n, d| Fraction::new(n, d).unwrap();
    assert_eq!(
        chart_string(&[]),
        "dance-single:\n:\nBeginner:\n1:\n0.0,0.0,0.0,0.0,0.0:\n"
    );
    assert_eq!(
        chart_string(&[vec![(tap(2), at(1, 2))], vec![]]),
        "dance-single:\n:\nBeginner:\n1:\n0.0,0.0,0.0,0.0,0.0:\n\
         0000\n0000\n0010\n0000\n,\n0000\n0000\n0000\n0000\n,\n"
    );
}

#[test]
fn a_written_chart_reads_back() {
    let tap = |column| vec![Note::new(NoteType::Tap, column)];
    let at = |n, d| Fraction::new(n, d).unwrap();
    let text = chart_string(&[
        vec![(tap(0), at(0, 1)), (tap(1), at(3, 8))],
        vec![(tap(3), at(1, 2))],
    ]);
    let text = text.trim_end_matches(&[',', '\n'][..]);
    let lines = text.lines().collect::<Vec<_>>();
    let row = |column| NoteRow {
        row: vec![(NoteType::Tap, column)],
    };
    assert_eq!(
        parse_main_block(&lines),
        ChartData::new(vec![
            vec![(at(0, 1), row(0)), (at(3, 8), row(1))],
            vec![(at(1, 2), row(3))],
        ])
    );
}
