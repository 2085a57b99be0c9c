use rustmania::notedata::NoteType;
use rustmania::notefield::{
    copy_judgements, copy_notes, start_time_to_milliseconds, to_milliseconds, ColumnInfo, Message,
    Notefield, HIT_WINDOW,
};
use rustmania::timingdata::{GameplayInfo, Judgement, Rectangle, TimingColumn, TimingData};

fn note(time: i64, kind: NoteType) -> GameplayInfo {
    GameplayInfo(time, Rectangle::new(0, 0, 1000, 1000), kind)
}

fn column(notes: Vec<GameplayInfo>) -> ColumnInfo {
    ColumnInfo::new(TimingColumn { notes })
}

fn field(columns: [Vec<GameplayInfo>; 4]) -> Notefield {
    let [a, b, c, d] = columns;
    Notefield::new(&TimingData {
        notes: [
            TimingColumn { notes: a },
            TimingColumn { notes: b },
            TimingColumn { notes: c },
            TimingColumn { notes: d },
        ],
    })
}

#[test]
fn miss_then_late_hit() {
    let mut play = column(vec![note(1000, NoteType::Tap)]);
    assert!(play.advance_time(1200));
    assert_eq!(play.judgement_list().notes, vec![Judgement::Miss]);
    assert_eq!(play.next_to_hit(), 1);
    assert_eq!(play.handle_key(1200, true), None);
    assert_eq!(play.latest_judgement(), Some(Judgement::Miss));
    assert_eq!(play.judgement_list().notes, vec![Judgement::Miss]);
    assert_eq!(play.next_to_hit(), 1);
    assert!(play.is_finished());
}

#[test]
fn hold_released_early() {
    let mut play = column(vec![note(1000, NoteType::Hold), note(2000, NoteType::HoldEnd)]);
    assert_eq!(play.handle_key(1000, true), Some(Judgement::Hit(0)));
    assert_eq!(play.active_hold(), Some(2000));
    assert_eq!(play.next_to_hit(), 1);
    assert_eq!(play.handle_key(1500, false), Some(Judgement::Hold(false)));
    assert_eq!(
        play.judgement_list().notes,
        vec![Judgement::Hit(0), Judgement::Hold(false)]
    );
    assert_eq!(play.active_hold(), None);
}

#[test]
fn hold_released_after_its_end() {
    let mut play = column(vec![note(1000, NoteType::Hold), note(2000, NoteType::HoldEnd)]);
    play.handle_key(1000, true);
    assert_eq!(play.handle_key(2100, false), Some(Judgement::Hold(true)));
    assert_eq!(
        play.judgement_list().notes,
        vec![Judgement::Hit(0), Judgement::Hold(true)]
    );
    assert_eq!(play.active_hold(), None);
}

#[test]
fn hold_released_at_its_end() {
    let mut play = column(vec![note(1000, NoteType::Hold), note(2000, NoteType::HoldEnd)]);
    play.handle_key(1000, true);
    play.handle_key(2000, false);
    assert_eq!(
        play.judgement_list().notes,
        vec![Judgement::Hit(0), Judgement::Hold(true)]
    );
}

#[test]
fn hold_completed_by_the_clock() {
    let mut play = column(vec![note(1000, NoteType::Hold), note(2000, NoteType::HoldEnd)]);
    play.handle_key(1000, true);
    assert!(!play.advance_time(1999));
    assert_eq!(play.active_hold(), Some(2000));
    assert_eq!(play.judgement_list().notes, vec![Judgement::Hit(0)]);
    assert!(!play.is_finished());
    assert!(!play.advance_time(2000));
    assert_eq!(play.active_hold(), None);
    assert_eq!(
        play.judgement_list().notes,
        vec![Judgement::Hit(0), Judgement::Hold(true)]
    );
    assert!(play.is_finished());
    // the release that follows judges nothing more
    assert_eq!(play.handle_key(2100, false), None);
    assert_eq!(
        play.judgement_list().notes,
        vec![Judgement::Hit(0), Judgement::Hold(true)]
    );
}

#[test]
fn the_window_is_open_on_both_sides() {
    assert_eq!(HIT_WINDOW, 180);
    for (now, hit) in [
        (820, false),
        (821, true),
        (1000, true),
        (1179, true),
        (1180, false),
    ] {
        let mut play = column(vec![note(1000, NoteType::Tap)]);
        play.handle_hit(now);
        if hit {
            assert_eq!(play.judgement_list().notes, vec![Judgement::Hit(1000 - now)]);
            assert_eq!(play.next_to_hit(), 1);
        } else {
            assert!(play.judgement_list().notes.is_empty());
            assert_eq!(play.next_to_hit(), 0);
        }
    }
}

#[test]
fn a_note_expires_after_the_window() {
    let mut play = column(vec![note(1000, NoteType::Tap)]);
    assert!(!play.update_misses(1180));
    assert_eq!(play.next_to_hit(), 0);
    assert!(play.update_misses(1181));
    assert_eq!(play.next_to_hit(), 1);
}

#[test]
fn a_press_outside_the_window_is_not_consumed() {
    let mut play = column(vec![note(1000, NoteType::Tap)]);
    assert_eq!(play.handle_key(500, true), None);
    assert_eq!(play.next_to_hit(), 0);
    assert_eq!(play.handle_key(990, true), Some(Judgement::Hit(10)));
    assert_eq!(play.next_to_hit(), 1);
    assert_eq!(play.handle_key(990, true), None);
    assert_eq!(play.judgement_list().notes.len(), 1);
}

#[test]
fn missed_notes_are_judged_by_their_kind() {
    let mut play = column(vec![
        note(100, NoteType::Tap),
        note(200, NoteType::Mine),
        note(300, NoteType::Hold),
        note(400, NoteType::HoldEnd),
        note(500, NoteType::Roll),
        note(600, NoteType::HoldEnd),
        note(700, NoteType::Lift),
        note(800, NoteType::Fake),
        note(5000, NoteType::Tap),
    ]);
    assert!(play.advance_time(2000));
    assert_eq!(
        play.judgement_list().notes,
        vec![
            Judgement::Miss,
            Judgement::Mine(false),
            Judgement::Miss,
            Judgement::Hold(false),
        ]
    );
    assert_eq!(play.next_to_hit(), 8);
    assert!(!play.advance_time(2001));
    assert_eq!(play.judgement_list().notes.len(), 4);
}

#[test]
fn an_avoided_mine_is_no_miss() {
    let mut play = column(vec![note(100, NoteType::Mine)]);
    assert!(!play.advance_time(1000));
    assert_eq!(play.judgement_list().notes, vec![Judgement::Mine(false)]);
}

#[test]
fn a_missed_hold_takes_its_end_along() {
    let mut play = column(vec![
        note(1000, NoteType::Hold),
        note(3000, NoteType::HoldEnd),
        note(3100, NoteType::Tap),
    ]);
    assert!(play.advance_time(1200));
    assert_eq!(
        play.judgement_list().notes,
        vec![Judgement::Miss, Judgement::Hold(false)]
    );
    assert_eq!(play.next_to_hit(), 2);
    assert_eq!(play.active_hold(), None);
}

#[test]
fn a_hit_mine_goes_off() {
    let mut play = column(vec![note(1000, NoteType::Mine), note(1100, NoteType::Tap)]);
    assert_eq!(play.handle_key(1010, true), Some(Judgement::Mine(true)));
    assert_eq!(play.next_to_hit(), 1);
}

#[test]
fn other_notes_are_passed_unjudged() {
    let mut play = column(vec![
        note(1000, NoteType::Roll),
        note(1050, NoteType::HoldEnd),
        note(1100, NoteType::Tap),
    ]);
    assert_eq!(play.handle_key(1000, true), None);
    assert_eq!(play.next_to_hit(), 2);
    assert_eq!(play.handle_key(1000, true), Some(Judgement::Hit(100)));
}

#[test]
fn a_hit_tap_skips_hold_ends() {
    let mut play = column(vec![
        note(1000, NoteType::Tap),
        note(1001, NoteType::HoldEnd),
        note(1002, NoteType::HoldEnd),
    ]);
    play.handle_key(1000, true);
    assert_eq!(play.next_to_hit(), 3);
    assert!(play.is_finished());
}

#[test]
fn a_hold_at_the_end_of_the_timeline_is_not_held() {
    let mut play = column(vec![note(1000, NoteType::Hold)]);
    assert_eq!(play.handle_key(1100, true), Some(Judgement::Hit(-100)));
    assert_eq!(play.active_hold(), None);
    assert_eq!(play.next_to_hit(), 1);
}

#[test]
fn release_without_a_hold_does_nothing() {
    let mut play = column(vec![note(1000, NoteType::Tap)]);
    assert_eq!(play.handle_key(1000, false), None);
    assert!(play.judgement_list().notes.is_empty());
    assert_eq!(play.next_to_hit(), 0);
}

#[test]
fn an_empty_column_is_done_at_once() {
    let mut play = column(vec![]);
    assert!(play.is_finished());
    assert!(!play.advance_time(0));
    assert_eq!(play.handle_key(0, true), None);
    assert_eq!(play.latest_judgement(), None);
    assert!(play.notes().notes.is_empty());
}

#[test]
fn extreme_times_do_not_overflow() {
    let mut play = column(vec![note(i64::MAX, NoteType::Tap), note(i64::MIN, NoteType::Tap)]);
    assert!(!play.advance_time(i64::MIN));
    assert_eq!(play.handle_key(i64::MIN, true), None);
    assert_eq!(play.handle_key(i64::MAX - 5, true), Some(Judgement::Hit(5)));
    assert!(play.advance_time(i64::MAX));
    assert_eq!(
        play.judgement_list().notes,
        vec![Judgement::Hit(5), Judgement::Miss]
    );
}

#[test]
fn the_cursor_never_moves_back() {
    let mut play = column(vec![
        note(100, NoteType::Tap),
        note(300, NoteType::Hold),
        note(500, NoteType::HoldEnd),
        note(700, NoteType::Mine),
        note(900, NoteType::Tap),
    ]);
    let mut cursor = play.next_to_hit();
    let mut history = copy_judgements(play.judgement_list()).notes;
    let mut step = |play: &mut ColumnInfo| {
        assert!(play.next_to_hit() >= cursor);
        let now = copy_judgements(play.judgement_list()).notes;
        assert_eq!(now[..history.len()], history[..]);
        cursor = play.next_to_hit();
        history = now;
    };
    for now in (0..1200).step_by(37) {
        play.advance_time(now);
        step(&mut play);
        play.handle_key(now, now % 2 == 0);
        step(&mut play);
    }
    assert!(play.is_finished());
}

#[test]
fn a_field_plays_its_columns() {
    let mut play = field([
        vec![note(1000, NoteType::Tap)],
        vec![note(1000, NoteType::Hold), note(2000, NoteType::HoldEnd)],
        vec![],
        vec![note(1500, NoteType::Mine)],
    ]);
    assert_eq!(play.last_judgement(), None);
    // before the chart has started nothing happens
    assert_eq!(play.run(None), Message::Idle);
    play.handle_event(0, None, true);
    assert_eq!(play.column(0).next_to_hit(), 0);

    assert_eq!(play.run(Some(990)), Message::Idle);
    play.handle_event(0, Some(990), true);
    assert_eq!(play.last_judgement(), Some(Judgement::Hit(10)));
    play.handle_event(1, Some(1020), true);
    assert_eq!(play.last_judgement(), Some(Judgement::Hit(-20)));
    assert_eq!(play.column(1).active_hold(), Some(2000));
    // a key of no column is ignored
    play.handle_event(4, Some(1020), true);
    play.handle_event(usize::MAX, Some(1020), false);

    assert_eq!(play.run(Some(1700)), Message::Idle);
    assert_eq!(
        play.column(3).judgement_list().notes,
        vec![Judgement::Mine(false)]
    );
    assert_eq!(play.last_judgement(), Some(Judgement::Hit(-20)));
    play.handle_event(1, Some(1800), false);
    assert_eq!(
        play.column(1).judgement_list().notes,
        vec![Judgement::Hit(-20), Judgement::Hold(false)]
    );
    assert_eq!(play.last_judgement(), Some(Judgement::Hit(-20)));
    assert_eq!(play.run(Some(1801)), Message::Finish);

    let replay = play.finish();
    assert_eq!(replay.len(), 4);
    assert_eq!(replay[0].notes, vec![Judgement::Hit(10)]);
    assert_eq!(
        replay[1].notes,
        vec![Judgement::Hit(-20), Judgement::Hold(false)]
    );
    assert!(replay[2].notes.is_empty());
    assert_eq!(replay[3].notes, vec![Judgement::Mine(false)]);
}

#[test]
fn a_field_shows_misses() {
    let mut play = field([
        vec![note(1000, NoteType::Tap)],
        vec![],
        vec![note(1000, NoteType::Mine)],
        vec![],
    ]);
    assert_eq!(play.run(Some(1100)), Message::Idle);
    assert_eq!(play.last_judgement(), None);
    assert_eq!(play.run(Some(1300)), Message::Finish);
    assert_eq!(play.last_judgement(), Some(Judgement::Miss));
}

#[test]
fn an_empty_field_finishes_with_the_first_frame() {
    let mut play = Notefield::new(&TimingData::new());
    assert_eq!(play.run(None), Message::Idle);
    assert_eq!(play.run(Some(-5000)), Message::Finish);
}

#[test]
fn copies_are_equal_to_their_source() {
    let notes = TimingColumn {
        notes: vec![note(1, NoteType::Tap), note(2, NoteType::Lift)],
    };
    assert_eq!(copy_notes(&notes), notes);
    let judged = TimingColumn {
        notes: vec![Judgement::Hit(3), Judgement::Miss, Judgement::Hold(true)],
    };
    assert_eq!(copy_judgements(&judged), judged);
}

#[test]
fn points_are_counted_in_whole_numbers() {
    assert_eq!(Judgement::Hit(17).max_points(), 2);
    assert_eq!(Judgement::Miss.max_points(), 2);
    assert_eq!(Judgement::Hold(true).max_points(), 0);
    assert_eq!(Judgement::Mine(true).max_points(), 0);
    assert_eq!(Judgement::Hit(17).fixed_points(), None);
    assert_eq!(Judgement::Miss.fixed_points(), Some(-8));
    assert_eq!(Judgement::Hold(true).fixed_points(), Some(0));
    assert_eq!(Judgement::Hold(false).fixed_points(), Some(-6));
    assert_eq!(Judgement::Mine(true).fixed_points(), Some(-8));
    assert_eq!(Judgement::Mine(false).fixed_points(), Some(0));
    let judged = TimingColumn {
        notes: vec![
            Judgement::Hit(3),
            Judgement::Miss,
            Judgement::Hold(false),
            Judgement::Mine(true),
            Judgement::Mine(false),
        ],
    };
    assert_eq!(judged.max_points(), 4);
    assert_eq!(judged.fixed_points(), -22);
    let all = TimingData {
        notes: [
            copy_judgements(&judged),
            TimingColumn::new(),
            copy_judgements(&judged),
            TimingColumn {
                notes: vec![Judgement::Hit(0)],
            },
        ],
    };
    assert_eq!(all.max_points(), 10);
}

#[test]
fn deviation_is_symmetric_and_grows() {
    assert_eq!(Judgement::Hit(0).deviation_squared(), Some(0));
    assert_eq!(Judgement::Miss.deviation_squared(), None);
    assert_eq!(Judgement::Hold(true).deviation_squared(), None);
    assert_eq!(Judgement::Mine(false).deviation_squared(), None);
    for offset in 0..=180 {
        assert_eq!(
            Judgement::Hit(-offset).deviation_squared(),
            Judgement::Hit(offset).deviation_squared()
        );
    }
    for offset in 0..180 {
        assert!(
            Judgement::Hit(offset).deviation_squared()
                < Judgement::Hit(offset + 1).deviation_squared()
        );
    }
    assert_eq!(Judgement::Hit(-12).deviation_squared(), Some(144));
    assert_eq!(
        Judgement::Hit(i64::MIN).deviation_squared(),
        Some(1u128 << 126)
    );
}

#[test]
fn spans_of_time_are_counted_in_milliseconds() {
    assert_eq!(to_milliseconds(0, 0), 0);
    assert_eq!(to_milliseconds(12, 345), 12_345);
    assert_eq!(to_milliseconds(9_223_372_036_854_775, 807), i64::MAX);
    assert_eq!(to_milliseconds(9_223_372_036_854_775, 808), i64::MAX);
    assert_eq!(to_milliseconds(u64::MAX, 999), i64::MAX);
    assert_eq!(start_time_to_milliseconds(false, 1, 500), 1500);
    assert_eq!(start_time_to_milliseconds(true, 1, 500), -1500);
    assert_eq!(start_time_to_milliseconds(true, u64::MAX, 0), -i64::MAX);
}
