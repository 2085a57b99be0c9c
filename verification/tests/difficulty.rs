use rustmania::difficulty_calc::{jack_runs, note_gaps, run_length, stress_terms, COMBO_BREAK};
use rustmania::notedata::NoteType;
use rustmania::timingdata::{CalcInfo, TimingColumn, TimingData};

fn column(notes: Vec<(i64, NoteType)>) -> TimingColumn<CalcInfo> {
    TimingColumn {
        notes: notes
            .into_iter()
            .map(|(time, kind)| CalcInfo(time, kind))
            .collect(),
    }
}

fn taps(times: Vec<i64>) -> TimingColumn<CalcInfo> {
    column(times.into_iter().map(|t| (t, NoteType::Tap)).collect())
}

fn chart(columns: [TimingColumn<CalcInfo>; 4]) -> TimingData<CalcInfo> {
    TimingData { notes: columns }
}

#[test]
fn gaps_are_squared() {
    let notes = taps(vec![0, 100, 250]);
    assert_eq!(note_gaps(&notes, 0), Vec::<u128>::new());
    assert_eq!(note_gaps(&notes, 1), vec![10_000]);
    assert_eq!(note_gaps(&notes, 2), vec![62_500, 22_500]);
}

#[test]
fn only_taps_and_holds_count() {
    let notes = column(vec![
        (0, NoteType::Tap),
        (10, NoteType::Mine),
        (20, NoteType::Hold),
        (30, NoteType::HoldEnd),
        (40, NoteType::Roll),
        (50, NoteType::Tap),
    ]);
    assert_eq!(note_gaps(&notes, 5), vec![2_500, 900]);
    let terms = stress_terms(&chart([
        notes,
        taps(vec![]),
        taps(vec![7, 7]),
        column(vec![(1, NoteType::Lift)]),
    ]));
    assert_eq!(
        terms,
        vec![
            vec![],
            vec![400],
            vec![2_500, 900],
            vec![],
            vec![0],
        ]
    );
}

#[test]
fn gaps_between_extreme_times_fit() {
    let notes = taps(vec![i64::MIN, i64::MAX]);
    let span = u64::MAX as u128;
    assert_eq!(note_gaps(&notes, 1), vec![span * span]);
}

#[test]
fn an_empty_chart_has_no_terms_and_no_runs() {
    let empty = TimingData::new();
    assert_eq!(stress_terms(&empty), Vec::<Vec<u128>>::new());
    assert_eq!(jack_runs(&empty), Vec::<usize>::new());
}

#[test]
fn a_run_without_a_break_takes_every_note() {
    assert_eq!(COMBO_BREAK, 90);
    // evenly spaced notes late in the chart: the even place of a middle note
    // less the size of its time is never more than the cutoff
    let notes = taps(vec![1000, 1100, 1200, 1300]);
    assert_eq!(run_length(&notes, 0), 3);
    assert_eq!(run_length(&notes, 1), 2);
    assert_eq!(run_length(&notes, 2), 1);
    assert_eq!(run_length(&notes, 3), 0);
}

#[test]
fn a_run_ends_with_the_first_break() {
    // with the note at 2000 as the end, the note at -50 would be played at
    // 0 + 1 * 2000 / 2 = 1000, and 1000 - 50 is more than the cutoff
    let notes = taps(vec![0, -50, 2000, 2100]);
    assert_eq!(run_length(&notes, 0), 1);
    // with the note at 200 as the end: 0 + 1 * 200 / 2 - 10 = 90 breaks nothing,
    // with the note at 400 as the end: 0 + 1 * 400 / 3 - 10 = 123 does
    let close = taps(vec![0, 10, 200, 400]);
    assert_eq!(run_length(&close, 0), 2);
    let closer = taps(vec![0, 10, 202, 400]);
    assert_eq!(run_length(&closer, 0), 1);
}

#[test]
fn shares_round_toward_zero() {
    // 100 + 1 * (-3) / 2 - 9 = 100 - 1 - 9 = 90 does not break, one more would
    assert_eq!(run_length(&taps(vec![100, 9, 97]), 0), 2);
    assert_eq!(run_length(&taps(vec![100, 8, 97]), 0), 1);
    // 101 + 1 * (-3) / 2 - (-10).abs() = 101 - 1 - 10 = 90
    assert_eq!(run_length(&taps(vec![101, -10, 98]), 0), 2);
    // had the share been rounded down, to -2, this would not break
    assert_eq!(run_length(&taps(vec![102, -10, 99]), 0), 1);
}

#[test]
fn runs_are_listed_column_after_column() {
    let runs = jack_runs(&chart([
        taps(vec![1000, 1100, 1200]),
        taps(vec![]),
        taps(vec![0, -50, 2000, 2100]),
        taps(vec![5]),
    ]));
    assert_eq!(runs, vec![2, 1, 0, 1, 2, 1, 0, 0]);
}

#[test]
fn runs_between_extreme_times_do_not_overflow() {
    let notes = taps(vec![i64::MIN, i64::MAX, i64::MAX, i64::MIN, 0]);
    let runs = jack_runs(&chart([
        notes,
        taps(vec![i64::MAX, i64::MIN, i64::MAX]),
        taps(vec![]),
        taps(vec![]),
    ]));
    assert_eq!(runs.len(), 8);
}
