use rustmania::conversion::check_structure;
use rustmania::fraction::Fraction;
use rustmania::notedata::{BeatPair, ChartData, ChartMetadata, NoteData, NoteRow, NoteType};
use rustmania::tempo::{floor_div, scale_time, ticks_of, TempoMap, TimingError, TICKS_PER_MEASURE};
use rustmania::timingdata::{
    sprite_finder, CalcInfo, GameplayInfo, Judgement, Rectangle, TimingColumn, TimingData,
};

fn frac(n: i64, d: u64) -> Fraction {
    Fraction::new(n, d).unwrap()
}

fn row(at: Fraction, notes: Vec<(NoteType, usize)>) -> (Fraction, NoteRow) {
    (at, NoteRow { row: notes })
}

fn bpm(beat: i32, sub_beat: Fraction, value: i64) -> BeatPair<i64> {
    BeatPair {
        beat,
        sub_beat,
        value,
    }
}

fn meta(offset: Option<i64>, bpms: Vec<BeatPair<i64>>) -> ChartMetadata {
    let mut meta = ChartMetadata::new();
    meta.offset = offset;
    meta.bpms = bpms;
    meta
}

fn times(column: &TimingColumn<CalcInfo>) -> Vec<i64> {
    column.notes.iter().map(|note| note.0).collect()
}

#[test]
fn new_timelines_are_empty() {
    let data: TimingData<CalcInfo> = TimingData::new();
    assert_eq!(data.notes.len(), 4);
    for column in data.columns() {
        assert!(column.notes.is_empty());
    }
    let judged: TimingData<Judgement> = TimingData::new();
    assert_eq!(judged.max_points(), 0);
}

#[test]
fn columns_grow_at_the_end() {
    let mut column: TimingColumn<CalcInfo> = TimingColumn::new();
    column.add(CalcInfo(5, NoteType::Tap));
    column.add(CalcInfo(3, NoteType::Mine));
    assert_eq!(
        column.notes,
        vec![CalcInfo(5, NoteType::Tap), CalcInfo(3, NoteType::Mine)]
    );
}

#[test]
fn simple_tap_chart() {
    let chart = ChartData::new(vec![vec![row(frac(0, 1), vec![(NoteType::Tap, 0)])]]);
    let tempo = meta(Some(0), vec![bpm(0, frac(0, 1), 120_000)]);
    let normal = TimingData::<CalcInfo>::from_chartdata(&chart, &tempo, 1000).unwrap();
    assert_eq!(normal.notes[0].notes, vec![CalcInfo(0, NoteType::Tap)]);
    assert!(normal.notes[1].notes.is_empty());
    assert!(normal.notes[2].notes.is_empty());
    assert!(normal.notes[3].notes.is_empty());
    let double = TimingData::<CalcInfo>::from_chartdata(&chart, &tempo, 2000).unwrap();
    assert_eq!(double.notes[0].notes[0].0, normal.notes[0].notes[0].0 / 2);
}

#[test]
fn a_rate_divides_a_countdown() {
    let chart = ChartData::new(vec![vec![row(frac(0, 1), vec![(NoteType::Tap, 0)])]]);
    let tempo = meta(Some(-1_000_000), vec![bpm(0, frac(0, 1), 120_000)]);
    let normal = TimingData::<CalcInfo>::from_chartdata(&chart, &tempo, 1000).unwrap();
    let double = TimingData::<CalcInfo>::from_chartdata(&chart, &tempo, 2000).unwrap();
    assert_eq!(times(&normal.notes[0]), vec![-1000]);
    assert_eq!(times(&double.notes[0]), vec![-500]);
}

#[test]
fn bpm_change_mid_chart() {
    let chart = ChartData::new(vec![
        vec![],
        vec![],
        vec![row(frac(0, 1), vec![(NoteType::Tap, 2)])],
    ]);
    let tempo = meta(
        Some(0),
        vec![bpm(0, frac(0, 1), 120_000), bpm(1, frac(0, 1), 240_000)],
    );
    let data = TimingData::<CalcInfo>::from_chartdata(&chart, &tempo, 1000).unwrap();
    assert_eq!(data.notes[2].notes, vec![CalcInfo(3000, NoteType::Tap)]);
}

#[test]
fn rows_within_a_measure_follow_the_formula() {
    // 150 BPM: a measure lasts 1600 ms
    let chart = ChartData::new(vec![
        vec![
            row(frac(0, 1), vec![(NoteType::Tap, 0)]),
            row(frac(1, 4), vec![(NoteType::Tap, 0)]),
            row(frac(1, 3), vec![(NoteType::Tap, 0)]),
            row(frac(3, 4), vec![(NoteType::Tap, 0), (NoteType::Mine, 3)]),
        ],
        vec![row(frac(1, 2), vec![(NoteType::Tap, 0)])],
    ]);
    let tempo = meta(Some(250_000), vec![bpm(0, frac(0, 1), 150_000)]);
    let data = TimingData::<CalcInfo>::from_chartdata(&chart, &tempo, 1000).unwrap();
    assert_eq!(times(&data.notes[0]), vec![250, 650, 783, 1450, 2650]);
    assert_eq!(data.notes[3].notes, vec![CalcInfo(1450, NoteType::Mine)]);
}

#[test]
fn a_tempo_change_inside_a_measure_takes_effect_there() {
    // 120 BPM until the middle of measure 0, then 60 BPM
    let chart = ChartData::new(vec![vec![
        row(frac(1, 4), vec![(NoteType::Tap, 1)]),
        row(frac(1, 2), vec![(NoteType::Tap, 1)]),
        row(frac(3, 4), vec![(NoteType::Tap, 1)]),
    ]]);
    let tempo = meta(
        None,
        vec![bpm(0, frac(0, 1), 120_000), bpm(0, frac(1, 2), 60_000)],
    );
    let data = TimingData::<CalcInfo>::from_chartdata(&chart, &tempo, 1000).unwrap();
    assert_eq!(times(&data.notes[1]), vec![500, 1000, 2000]);
}

#[test]
fn several_tempo_changes_can_pass_between_two_rows() {
    let chart = ChartData::new(vec![
        vec![row(frac(0, 1), vec![(NoteType::Tap, 0)])],
        vec![],
        vec![],
        vec![row(frac(0, 1), vec![(NoteType::Tap, 0)])],
    ]);
    let tempo = meta(
        Some(0),
        vec![
            bpm(0, frac(0, 1), 120_000),
            bpm(1, frac(0, 1), 240_000),
            bpm(2, frac(0, 1), 480_000),
        ],
    );
    let data = TimingData::<CalcInfo>::from_chartdata(&chart, &tempo, 1000).unwrap();
    assert_eq!(times(&data.notes[0]), vec![0, 3500]);
}

#[test]
fn rows_before_the_first_tempo_change_use_its_tempo() {
    let chart = ChartData::new(vec![
        vec![row(frac(0, 1), vec![(NoteType::Tap, 0)])],
        vec![row(frac(1, 2), vec![(NoteType::Tap, 0)])],
    ]);
    let tempo = meta(Some(0), vec![bpm(1, frac(0, 1), 120_000)]);
    let data = TimingData::<CalcInfo>::from_chartdata(&chart, &tempo, 1000).unwrap();
    assert_eq!(times(&data.notes[0]), vec![-2000, 1000]);
}

#[test]
fn timelines_never_go_back_in_time() {
    let chart = ChartData::new(vec![
        vec![
            row(frac(0, 1), vec![(NoteType::Tap, 0), (NoteType::Tap, 1)]),
            row(frac(1, 7), vec![(NoteType::Tap, 0)]),
            row(frac(2, 7), vec![(NoteType::Tap, 1)]),
            row(frac(5, 7), vec![(NoteType::Tap, 0)]),
        ],
        vec![
            row(frac(1, 192), vec![(NoteType::Tap, 0)]),
            row(frac(191, 192), vec![(NoteType::Tap, 0), (NoteType::Tap, 1)]),
        ],
        vec![row(frac(0, 1), vec![(NoteType::Tap, 0)])],
    ]);
    let tempo = meta(
        Some(-123_456),
        vec![
            bpm(0, frac(0, 1), 133_337),
            bpm(0, frac(3, 7), 90_001),
            bpm(1, frac(1, 2), 311_000),
        ],
    );
    for rate in [1, 500, 1000, 1500, 3333] {
        let data = TimingData::<GameplayInfo>::from_chartdata(&chart, &tempo, rate).unwrap();
        for column in data.columns() {
            for pair in column.notes.windows(2) {
                assert!(pair[0].0 <= pair[1].0);
            }
        }
        assert_eq!(data.notes[0].notes.len(), 6);
        assert_eq!(data.notes[1].notes.len(), 3);
    }
}

#[test]
fn a_rate_scales_whole_times_exactly() {
    let chart = ChartData::new(vec![
        vec![
            row(frac(0, 1), vec![(NoteType::Tap, 0)]),
            row(frac(1, 2), vec![(NoteType::Tap, 0)]),
        ],
        vec![row(frac(1, 4), vec![(NoteType::Tap, 0)])],
    ]);
    let tempo = meta(Some(6_000_000), vec![bpm(0, frac(0, 1), 120_000)]);
    let normal = TimingData::<CalcInfo>::from_chartdata(&chart, &tempo, 1000).unwrap();
    assert_eq!(times(&normal.notes[0]), vec![6000, 7000, 8500]);
    for rate in [500, 1000, 2000, 2500] {
        let scaled = TimingData::<CalcInfo>::from_chartdata(&chart, &tempo, rate).unwrap();
        for (fast, slow) in scaled.notes[0].notes.iter().zip(&normal.notes[0].notes) {
            assert_eq!(fast.0 * rate, slow.0 * 1000);
        }
    }
}

#[test]
fn rounding_is_toward_zero() {
    assert_eq!(scale_time(1500, 1000), 1);
    assert_eq!(scale_time(1500, 2000), 0);
    assert_eq!(scale_time(-1500, 1000), -1);
    assert_eq!(scale_time(-1999, 2000), 0);
    assert_eq!(scale_time(i64::MIN, 1), i64::MIN);
    assert_eq!(floor_div(7, 2), 3);
    assert_eq!(floor_div(-7, 2), -4);
    assert_eq!(floor_div(-8, 2), -4);
    assert_eq!(floor_div(0, 5), 0);
    assert_eq!(floor_div(-1, 1000), -1);
}

#[test]
fn positions_are_counted_in_ticks() {
    assert_eq!(TICKS_PER_MEASURE, 240_000_000_000);
    assert_eq!(ticks_of(0, &frac(0, 1)), 0);
    assert_eq!(ticks_of(1, &frac(1, 2)), 360_000_000_000);
    assert_eq!(ticks_of(-1, &frac(1, 4)), -180_000_000_000);
    assert_eq!(ticks_of(0, &frac(1, 7)), 34_285_714_285);
    assert_eq!(ticks_of(0, &frac(-1, 7)), -34_285_714_286);
}

#[test]
fn conversion_is_repeatable() {
    let chart = ChartData::new(vec![vec![
        row(frac(0, 1), vec![(NoteType::Hold, 0)]),
        row(frac(1, 3), vec![(NoteType::HoldEnd, 0), (NoteType::Mine, 2)]),
    ]]);
    let tempo = meta(Some(17), vec![bpm(0, frac(0, 1), 171_717)]);
    let first = TimingData::<GameplayInfo>::from_chartdata(&chart, &tempo, 1234);
    let second = TimingData::<GameplayInfo>::from_chartdata(&chart, &tempo, 1234);
    assert!(first.is_ok());
    assert_eq!(first, second);
}

#[test]
fn a_rate_that_is_not_positive_is_refused() {
    let chart = ChartData::new(vec![vec![row(frac(0, 1), vec![(NoteType::Tap, 0)])]]);
    let tempo = meta(Some(0), vec![bpm(0, frac(0, 1), 120_000)]);
    assert_eq!(
        TimingData::<CalcInfo>::from_chartdata(&chart, &tempo, 0),
        Err(TimingError::InvalidRate)
    );
    assert_eq!(
        TimingData::<CalcInfo>::from_chartdata(&chart, &tempo, -1000),
        Err(TimingError::InvalidRate)
    );
    // the rate is looked at before the tempo list
    assert_eq!(
        TimingData::<CalcInfo>::from_chartdata(&chart, &meta(None, vec![]), 0),
        Err(TimingError::InvalidRate)
    );
}

#[test]
fn a_chart_without_tempo_has_empty_timelines() {
    let chart = ChartData::new(vec![vec![row(frac(0, 1), vec![(NoteType::Tap, 0)])]]);
    let data = TimingData::<CalcInfo>::from_chartdata(&chart, &meta(Some(5), vec![]), 1000);
    assert_eq!(data, Ok(TimingData::new()));
}

#[test]
fn malformed_tempo_lists_are_refused() {
    let chart = ChartData::new(vec![vec![row(frac(0, 1), vec![(NoteType::Tap, 0)])]]);
    let convert = |bpms| TimingData::<CalcInfo>::from_chartdata(&chart, &meta(None, bpms), 1000);
    assert_eq!(
        convert(vec![bpm(0, frac(0, 1), 0)]),
        Err(TimingError::MalformedChart)
    );
    assert_eq!(
        convert(vec![bpm(0, frac(0, 1), -120_000)]),
        Err(TimingError::MalformedChart)
    );
    assert_eq!(
        convert(vec![bpm(0, frac(3, 2), 120_000)]),
        Err(TimingError::MalformedChart)
    );
    assert_eq!(
        convert(vec![bpm(1, frac(0, 1), 120_000), bpm(0, frac(0, 1), 120_000)]),
        Err(TimingError::MalformedChart)
    );
    assert_eq!(
        convert(vec![bpm(1, frac(1, 2), 120_000), bpm(1, frac(2, 4), 90_000)]),
        Err(TimingError::MalformedChart)
    );
    assert!(convert(vec![bpm(1, frac(1, 2), 120_000), bpm(1, frac(3, 4), 90_000)]).is_ok());
}

#[test]
fn malformed_charts_are_refused() {
    let tempo = meta(None, vec![bpm(0, frac(0, 1), 120_000)]);
    let convert = |measures| {
        TimingData::<CalcInfo>::from_chartdata(&ChartData::new(measures), &tempo, 1000)
    };
    // a row outside its measure
    assert_eq!(
        convert(vec![vec![row(frac(1, 1), vec![])]]),
        Err(TimingError::MalformedChart)
    );
    assert_eq!(
        convert(vec![vec![row(frac(-1, 4), vec![])]]),
        Err(TimingError::MalformedChart)
    );
    // rows out of order, or two at one place
    assert_eq!(
        convert(vec![vec![row(frac(1, 2), vec![]), row(frac(1, 4), vec![])]]),
        Err(TimingError::MalformedChart)
    );
    assert_eq!(
        convert(vec![vec![row(frac(1, 2), vec![]), row(frac(2, 4), vec![])]]),
        Err(TimingError::MalformedChart)
    );
    // a hold without its end
    assert_eq!(
        convert(vec![vec![row(frac(0, 1), vec![(NoteType::Hold, 1)])]]),
        Err(TimingError::MalformedChart)
    );
    assert_eq!(
        convert(vec![vec![
            row(frac(0, 1), vec![(NoteType::Hold, 1)]),
            row(frac(1, 4), vec![(NoteType::Tap, 1)]),
            row(frac(1, 2), vec![(NoteType::HoldEnd, 1)]),
        ]]),
        Err(TimingError::MalformedChart)
    );
    // the end of a hold in another column does not pair
    assert_eq!(
        convert(vec![vec![
            row(frac(0, 1), vec![(NoteType::Hold, 1)]),
            row(frac(1, 4), vec![(NoteType::HoldEnd, 2)]),
        ]]),
        Err(TimingError::MalformedChart)
    );
    assert!(convert(vec![
        vec![row(frac(0, 1), vec![(NoteType::Hold, 1), (NoteType::Tap, 2)])],
        vec![row(frac(1, 4), vec![(NoteType::HoldEnd, 1)])],
    ])
    .is_ok());
}

#[test]
fn structure_is_checked_on_its_own() {
    assert!(check_structure(&ChartData::new(vec![])));
    assert!(check_structure(&ChartData::new(vec![vec![
        row(frac(0, 1), vec![(NoteType::Hold, 0)]),
        row(frac(1, 2), vec![(NoteType::HoldEnd, 0)]),
    ]])));
    assert!(!check_structure(&ChartData::new(vec![vec![
        row(frac(0, 1), vec![(NoteType::Hold, 0)]),
        row(frac(1, 2), vec![(NoteType::Hold, 0)]),
    ]])));
    // a hold in a column that the field does not have is not looked at
    assert!(check_structure(&ChartData::new(vec![vec![row(
        frac(0, 1),
        vec![(NoteType::Hold, 4)]
    )]])));
}

#[test]
fn times_out_of_range_are_refused() {
    let chart = ChartData::new(vec![vec![row(frac(1, 2), vec![(NoteType::Tap, 0)])]]);
    assert_eq!(
        TimingData::<CalcInfo>::from_chartdata(
            &chart,
            &meta(Some(i64::MAX), vec![bpm(0, frac(0, 1), 1)]),
            1000
        ),
        Err(TimingError::TimeOutOfRange)
    );
    // a segment that would begin out of range
    assert_eq!(
        TimingData::<CalcInfo>::from_chartdata(
            &ChartData::new(vec![]),
            &meta(
                Some(0),
                vec![bpm(0, frac(0, 1), 1), bpm(i32::MAX, frac(0, 1), 1)]
            ),
            1000
        ),
        Err(TimingError::TimeOutOfRange)
    );
    // the starts of the segments come before the chart
    assert_eq!(
        TimingData::<CalcInfo>::from_chartdata(
            &ChartData::new(vec![vec![row(frac(0, 1), vec![(NoteType::Hold, 0)])]]),
            &meta(
                Some(0),
                vec![bpm(0, frac(0, 1), 1), bpm(i32::MAX, frac(0, 1), 1)]
            ),
            1000
        ),
        Err(TimingError::TimeOutOfRange)
    );
}

#[test]
fn notes_of_missing_columns_are_left_out() {
    let chart = ChartData::new(vec![vec![row(
        frac(0, 1),
        vec![(NoteType::Tap, 4), (NoteType::Tap, 3), (NoteType::Tap, 17)],
    )]]);
    let tempo = meta(None, vec![bpm(0, frac(0, 1), 120_000)]);
    let data = TimingData::<CalcInfo>::from_chartdata(&chart, &tempo, 1000).unwrap();
    assert_eq!(data.notes[3].notes.len(), 1);
    assert!(data.notes[0].notes.is_empty());
}

#[test]
fn every_chart_of_a_song_is_converted_on_its_own() {
    let good = ChartData::new(vec![vec![row(frac(0, 1), vec![(NoteType::Tap, 0)])]]);
    let bad = ChartData::new(vec![vec![row(frac(0, 1), vec![(NoteType::Hold, 0)])]]);
    let other = ChartData::new(vec![vec![], vec![row(frac(0, 1), vec![(NoteType::Tap, 1)])]]);
    let song = NoteData::new(
        vec![good, bad, other],
        meta(Some(0), vec![bpm(0, frac(0, 1), 120_000)]),
    );
    let timelines = TimingData::<CalcInfo>::from_notedata(&song, 1000);
    assert_eq!(timelines.len(), 3);
    assert_eq!(
        timelines[0].as_ref().unwrap().notes[0].notes,
        vec![CalcInfo(0, NoteType::Tap)]
    );
    assert_eq!(timelines[1], Err(TimingError::MalformedChart));
    assert_eq!(
        timelines[2].as_ref().unwrap().notes[1].notes,
        vec![CalcInfo(2000, NoteType::Tap)]
    );
    assert_eq!(song.charts().len(), 3);
}

#[test]
fn sprites_follow_the_division_of_the_beat() {
    let snap = |y| Rectangle::new(0, y, 1000, 125);
    let find = |n, d| sprite_finder(0, frac(n, d), NoteType::Tap, 0);
    assert_eq!(find(0, 1), snap(0));
    assert_eq!(find(1, 4), snap(0));
    assert_eq!(find(1, 2), snap(0));
    assert_eq!(find(1, 8), snap(125));
    assert_eq!(find(1, 12), snap(250));
    assert_eq!(find(1, 16), snap(375));
    assert_eq!(find(1, 24), snap(500));
    assert_eq!(find(1, 32), snap(625));
    assert_eq!(find(1, 48), snap(750));
    assert_eq!(find(1, 64), snap(875));
    assert_eq!(find(1, 3), snap(250));
    assert_eq!(find(1, 7), snap(875));
    assert_eq!(
        sprite_finder(3, frac(1, 8), NoteType::Hold, 2),
        snap(125)
    );
    assert_eq!(
        sprite_finder(3, frac(1, 8), NoteType::Mine, 2),
        Rectangle::new(0, 0, 1000, 1000)
    );
    assert_eq!(
        sprite_finder(3, frac(1, 8), NoteType::HoldEnd, 2),
        Rectangle::new(0, 0, 1000, 1000)
    );
}

#[test]
fn gameplay_entries_carry_their_sprite() {
    let chart = ChartData::new(vec![vec![
        row(frac(1, 8), vec![(NoteType::Tap, 0)]),
        row(frac(1, 4), vec![(NoteType::Mine, 0)]),
    ]]);
    let tempo = meta(None, vec![bpm(0, frac(0, 1), 120_000)]);
    let data = TimingData::<GameplayInfo>::from_chartdata(&chart, &tempo, 1000).unwrap();
    assert_eq!(
        data.notes[0].notes,
        vec![
            GameplayInfo(250, Rectangle::new(0, 125, 1000, 125), NoteType::Tap),
            GameplayInfo(500, Rectangle::new(0, 0, 1000, 1000), NoteType::Mine),
        ]
    );
}

#[test]
fn tempo_maps_are_looked_up_by_position() {
    let bpms = vec![
        bpm(0, frac(0, 1), 120_000),
        bpm(1, frac(1, 2), 60_000),
        bpm(4, frac(0, 1), 240_000),
    ];
    assert!(TempoMap::list_is_valid(&bpms));
    let map = TempoMap::new(&bpms, 1_000).unwrap();
    assert_eq!(map.len(), 3);
    assert_eq!(map.segment(0).start, 1_000);
    assert_eq!(map.segment(1).start, 3_001_000);
    assert_eq!(map.segment(2).start, 13_001_000);
    assert_eq!(map.lookup(0, &frac(0, 1)), 0);
    assert_eq!(map.lookup(1, &frac(1, 4)), 0);
    assert_eq!(map.lookup(1, &frac(1, 2)), 1);
    assert_eq!(map.lookup(3, &frac(3, 4)), 1);
    assert_eq!(map.lookup(4, &frac(0, 1)), 2);
    assert_eq!(map.lookup(400, &frac(1, 3)), 2);
    assert_eq!(map.time_at(1, &frac(3, 4)), Some(4_001_000));
    assert_eq!(map.time_at(5, &frac(0, 1)), Some(14_001_000));
    assert_eq!(map.time_in_segment(0, 0, &frac(1, 2)), Some(1_001_000));
    assert_eq!(
        TempoMap::new(&vec![], 0),
        Err(TimingError::MalformedChart)
    );
    assert!(!TempoMap::list_is_valid(&vec![]));
    let slow = TempoMap::new(&vec![bpm(0, frac(0, 1), 1)], 0).unwrap();
    assert_eq!(slow.time_at(usize::MAX, &frac(0, 1)), None);
}

#[test]
fn something_holds_from_the_start() {
    let pair = BeatPair::at_start(7_i64);
    assert_eq!(pair.beat, 0);
    assert_eq!(pair.sub_beat.contents(), (0, 1));
    assert_eq!(pair.value, 7);
}

#[test]
fn a_chart_converts_with_a_tempo_map() {
    let chart = ChartData::new(vec![
        vec![row(frac(0, 1), vec![(NoteType::Hold, 3)])],
        vec![row(frac(1, 2), vec![(NoteType::HoldEnd, 3)])],
    ]);
    let map = TempoMap::new(
        &vec![bpm(0, frac(0, 1), 120_000), bpm(1, frac(0, 1), 240_000)],
        -500_000,
    )
    .unwrap();
    assert_eq!(
        TimingData::<CalcInfo>::convert(&chart, &map, 1000)
            .unwrap()
            .notes[3]
            .notes,
        vec![CalcInfo(-500, NoteType::Hold), CalcInfo(2000, NoteType::HoldEnd)]
    );
    assert_eq!(
        TimingData::<CalcInfo>::convert(&chart, &map, 0),
        Err(TimingError::InvalidRate)
    );
    let unpaired = ChartData::new(vec![vec![row(frac(0, 1), vec![(NoteType::Hold, 3)])]]);
    assert_eq!(
        TimingData::<CalcInfo>::convert(&unpaired, &map, 1000),
        Err(TimingError::MalformedChart)
    );
    let slow = TempoMap::new(&vec![bpm(0, frac(0, 1), 1)], i64::MIN).unwrap();
    let far = ChartData::new(vec![vec![row(frac(0, 1), vec![]), row(frac(1, 2), vec![])]]);
    assert!(TimingData::<CalcInfo>::convert(&far, &slow, 1000).is_ok());
    let late = TempoMap::new(&vec![bpm(0, frac(0, 1), 1)], i64::MAX).unwrap();
    assert_eq!(
        TimingData::<CalcInfo>::convert(&far, &late, 1000),
        Err(TimingError::TimeOutOfRange)
    );
}
