use rustmania::fraction::Fraction;
use rustmania::notedata::{BeatPair, ChartData, DisplayBpm, NoteData, NoteRow, NoteType};
use rustmania::simfile::{
    break_to_tags, parse_beat_pairs, parse_display_bpm, parse_offset, Stage, HEADER_COLONS,
    THOUSANDTHS_PER_MEASURE,
};
use rustmania::sm_parser::{char_to_notetype, parse_blocks, parse_line, parse_measure};
use rustmania::strings::trim_chars;
use rustmania::timingdata::{CalcInfo, TimingData};

fn chars(text: &str) -> Vec<char> {
    text.chars().collect()
}

fn pair(beat: i32, n: i64, d: u64, value: i64) -> BeatPair<i64> {
    BeatPair {
        beat,
        sub_beat: Fraction::new(n, d).unwrap(),
        value,
    }
}

fn tap(n: i64, d: u64, column: usize) -> (Fraction, NoteRow) {
    (
        Fraction::new(n, d).unwrap(),
        NoteRow {
            row: vec![(NoteType::Tap, column)],
        },
    )
}

const SONG: &str = "\u{feff}// a song
#TITLE:Caf\u{e9} au lait;
#SUBTITLE:;
#ARTIST: someone ;
#OFFSET:-0.250;
#BPMS:0.000=120.000
,8.000=240.000;
#TITLE:   ;
#NOTES:
     dance-single:
     :
     Beginner:
     1:
     0.5,0.5,0.5,0.5,0.5:
1000
0000
0100
0000
,
0010
0001
;
#NOTES:
     dance-single:
     :
     Easy:
     2:
     0,0,0,0,0:
2000
3000
;
#BROKEN:never closed
";

#[test]
fn tags_are_found_between_their_marks() {
    let tags = break_to_tags(&chars("junk #A:b; more; #C : d:e\n;##:;#open:xx"));
    assert_eq!(
        tags,
        vec![
            (chars("A"), chars("b")),
            (chars("C "), chars(" d:e\n")),
            (chars("#"), chars("")),
        ]
    );
    assert_eq!(break_to_tags(&chars("")), vec![]);
    assert_eq!(break_to_tags(&chars("no tags; here: at all")), vec![]);
    assert_eq!(break_to_tags(&chars("#:;")), vec![(chars(""), chars(""))]);
    assert!(Stage::Outside != Stage::Name && Stage::Name != Stage::Contents);
}

#[test]
fn offsets_change_their_sign() {
    assert_eq!(parse_offset(&chars("-0.250")), Some(250_000));
    assert_eq!(parse_offset(&chars(" 1.5 ")), Some(-1_500_000));
    assert_eq!(parse_offset(&chars("0")), Some(0));
    assert_eq!(parse_offset(&chars("soon")), None);
    assert_eq!(parse_offset(&chars("-9223372036854.775808")), None);
    assert_eq!(parse_offset(&chars("9223372036854.775807")), Some(-i64::MAX));
}

#[test]
fn tempo_changes_fall_on_measures_and_fractions() {
    assert_eq!(THOUSANDTHS_PER_MEASURE, 4000);
    assert_eq!(
        parse_beat_pairs(&chars("0.000=120.000,4=180.5 , 6.5 = 90\n")),
        Some(vec![
            pair(0, 0, 1, 120_000),
            pair(1, 0, 1, 180_500),
            pair(1, 5, 8, 90_000),
        ])
    );
    assert_eq!(
        parse_beat_pairs(&chars("-1=60,-4=1,-4.001=2")),
        Some(vec![
            pair(-1, 3, 4, 60_000),
            pair(-1, 0, 1, 1_000),
            pair(-2, 3999, 4000, 2_000),
        ])
    );
    assert_eq!(
        parse_beat_pairs(&chars("8589934588=1")),
        Some(vec![pair(i32::MAX, 0, 1, 1_000)])
    );
}

#[test]
fn a_list_with_a_bad_piece_is_no_list() {
    for text in [
        "",
        "120",
        "0=",
        "=120",
        "0=120,",
        ",0=120",
        "0=120,,4=90",
        "0=1=2",
        "a=b",
        "8589934592=1",
        "-8589934592.001=1",
        "0=9223372036854775.808",
    ] {
        assert_eq!(parse_beat_pairs(&chars(text)), None);
    }
    assert!(parse_beat_pairs(&chars("-8589934592=1")).is_some());
}

#[test]
fn charts_are_read_from_their_lines() {
    let chart = rustmania::simfile::parse_chart(&chars(
        "a:\nb:\r\nc:\n\n   d:\ne:\n  0000\r\n  0100\n0000\n0000\n  , // two\n0010\n",
    ));
    assert_eq!(
        chart,
        Some(ChartData::new(vec![
            vec![tap(1, 4, 1)],
            vec![tap(0, 1, 2)],
        ]))
    );
    assert_eq!(HEADER_COLONS, 5);
    assert_eq!(rustmania::simfile::parse_chart(&chars("")), None);
    assert_eq!(rustmania::simfile::parse_chart(&chars("a:b:c:d:0001")), None);
    assert_eq!(
        rustmania::simfile::parse_chart(&chars(":::::")),
        Some(ChartData::new(vec![vec![]]))
    );
    assert_eq!(
        rustmania::simfile::parse_chart(&chars("a:b:c:d:e:0001\n// 1000\n,\n/1\n,,")),
        Some(ChartData::new(vec![
            vec![tap(0, 1, 3)],
            vec![tap(0, 1, 1)],
            vec![],
        ]))
    );
}

#[test]
fn parse_chart() {
    assert_eq!(
        rustmania::simfile::parse_chart(&chars(
            "
                      foo::
                      bar ::
                      0.000,0.000  :\n\n \
                 0000\n \
                 0100\n \
                 0000\n \
                 0000\n \
                 , // baz\n
                 0000\n \
                 0000\n \
                 0010\n \
                 0000\n"
        )),
        Some(ChartData::new(vec![
            vec![tap(1, 4, 1)],
            vec![tap(1, 2, 2)],
        ]))
    );
}

#[test]
fn parse_notetype() {
    let first = |text: &str| char_to_notetype(text.chars().next().unwrap());
    assert_eq!(first("1foo"), Some(NoteType::Tap));
    assert_eq!(first("2foo"), Some(NoteType::Hold));
    assert_eq!(first("3foo"), Some(NoteType::HoldEnd));
    assert_eq!(first("4foo"), Some(NoteType::Roll));
    assert_eq!(first("Mfoo"), Some(NoteType::Mine));
    assert_eq!(first("Lfoo"), Some(NoteType::Lift));
    assert_eq!(first("Ffoo"), Some(NoteType::Fake));
    assert_eq!(first("0foo"), None);
    assert_eq!(first("\rfoo"), None);
    assert_eq!(first("\nfoo"), None);
    assert_eq!(first(",foo"), None);
}

#[test]
fn parse_noterow() {
    assert_eq!(
        parse_line("0101"),
        NoteRow {
            row: vec![(NoteType::Tap, 1), (NoteType::Tap, 3)]
        }
    );
}

#[test]
fn sm_parser_parse_measure() {
    assert_eq!(
        parse_measure(&["0000", "0100", "0000", "0010", "0000"]),
        vec![tap(1, 5, 1), tap(3, 5, 2)]
    );
}

#[test]
fn parse_sm_tag() {
    let tags = break_to_tags(&chars("# foo  : bar  ;  baz"));
    assert_eq!(tags.len(), 1);
    assert_eq!(trim_chars(&tags[0].0), chars("foo"));
    assert_eq!(tags[0].1, chars(" bar  "));
    assert_eq!(
        break_to_tags(&chars("#foo:bar;baz")),
        vec![(chars("foo"), chars("bar"))]
    );
}

#[test]
fn lines_are_split_into_measures_as_they_are() {
    assert_eq!(
        parse_blocks(&["1000", "", "0100", ",", "0010"]),
        ChartData::new(vec![
            vec![tap(0, 1, 0), tap(2, 3, 1)],
            vec![tap(0, 1, 2)],
        ])
    );
    assert_eq!(parse_blocks(&[]), ChartData::new(vec![vec![]]));
}

#[test]
fn a_song_is_read_from_its_text() {
    let song = NoteData::from_sm_string(SONG);
    assert_eq!(song.data.title, Some("Caf\u{e9} au lait".to_string()));
    assert_eq!(song.data.subtitle, None);
    assert_eq!(song.data.artist, Some(" someone ".to_string()));
    assert_eq!(song.data.credit, None);
    assert_eq!(song.data.offset, Some(250_000));
    assert_eq!(
        song.data.bpms,
        vec![pair(0, 0, 1, 120_000), pair(2, 0, 1, 240_000)]
    );
    assert_eq!(song.data.stops, None);
    assert_eq!(
        song.notes,
        vec![
            ChartData::new(vec![
                vec![tap(0, 1, 0), tap(1, 2, 1)],
                vec![tap(0, 1, 2), tap(1, 2, 3)],
            ]),
            ChartData::new(vec![vec![
                (
                    Fraction::new(0, 1).unwrap(),
                    NoteRow {
                        row: vec![(NoteType::Hold, 0)]
                    }
                ),
                (
                    Fraction::new(1, 2).unwrap(),
                    NoteRow {
                        row: vec![(NoteType::HoldEnd, 0)]
                    }
                ),
            ]]),
        ]
    );
    assert_eq!(NoteData::from_sm_chars(&chars(SONG)), song);
}

#[test]
fn an_empty_text_is_an_empty_song() {
    let song = NoteData::from_sm_string("");
    assert_eq!(song.data.title, None);
    assert_eq!(song.data.offset, None);
    assert!(song.data.bpms.is_empty());
    assert!(song.notes.is_empty());
}

#[test]
fn tags_that_cannot_be_read_leave_their_field_empty() {
    let song = NoteData::from_sm_string("#OFFSET:later;#BPMS:fast;#STOPS:0=1,;#MUSIC:a.ogg;");
    assert_eq!(song.data.offset, None);
    assert!(song.data.bpms.is_empty());
    assert_eq!(song.data.stops, None);
    assert_eq!(song.data.music_path, Some("a.ogg".to_string()));
    let stops = NoteData::from_sm_string("# STOPS :\n 4=0.5 ;");
    assert_eq!(stops.data.stops, Some(vec![pair(1, 0, 1, 500)]));
}

#[test]
fn a_song_goes_from_text_to_timelines() {
    let song = NoteData::from_sm_string(SONG);
    let timelines = TimingData::<CalcInfo>::from_notedata(&song, 1000);
    assert_eq!(timelines.len(), 2);
    let first = timelines[0].as_ref().unwrap();
    assert_eq!(first.notes[0].notes, vec![CalcInfo(250, NoteType::Tap)]);
    assert_eq!(first.notes[1].notes, vec![CalcInfo(1250, NoteType::Tap)]);
    assert_eq!(first.notes[2].notes, vec![CalcInfo(2250, NoteType::Tap)]);
    assert_eq!(first.notes[3].notes, vec![CalcInfo(3250, NoteType::Tap)]);
    let second = timelines[1].as_ref().unwrap();
    assert_eq!(
        second.notes[0].notes,
        vec![
            CalcInfo(250, NoteType::Hold),
            CalcInfo(1250, NoteType::HoldEnd)
        ]
    );
    let fast = TimingData::<CalcInfo>::from_notedata(&song, 2000);
    assert_eq!(
        fast[0].as_ref().unwrap().notes[3].notes,
        vec![CalcInfo(1625, NoteType::Tap)]
    );
}

#[test]
fn parse_display_bpm_of_every_kind() {
    assert_eq!(
        parse_display_bpm(&chars("1.2  :   3.4  ")),
        Some(DisplayBpm::Range(1_200, 3_400))
    );
    assert_eq!(parse_display_bpm(&chars("1.2")), Some(DisplayBpm::Static(1_200)));
    assert_eq!(parse_display_bpm(&chars("*")), Some(DisplayBpm::Random));
    assert_eq!(parse_display_bpm(&chars(" * ")), Some(DisplayBpm::Random));
    assert_eq!(parse_display_bpm(&chars("**")), None);
    assert_eq!(parse_display_bpm(&chars("1:")), None);
    assert_eq!(parse_display_bpm(&chars(":2")), None);
    assert_eq!(parse_display_bpm(&chars("1:2:3")), None);
    assert_eq!(parse_display_bpm(&chars("")), None);
}

#[test]
fn every_tag_of_the_description_is_read() {
    let song = NoteData::from_sm_string(
        "content that is

        #TITLE:bar1;

        not part of a tag is discarded

        #SUBTITLE:bar2;#ARTIST:bar3;#TITLETRANSLIT:bar4;#SUBTITLETRANSLIT:bar5;
        #ARTISTTRANSLIT:bar6;#GENRE:bar7;#CREDIT:bar8;#BANNER:bar9;
        #BACKGROUND:bar10;#LYRICSPATH:bar11;#CDTITLE:bar12;#MUSIC:bar13;
        #SAMPLESTART:  1.2 ;#SAMPLELENGTH: 3.4  ;#BPMS:  1.0=2 ;
        #STOPS: 3.0=4  ;#OFFSET:  1 ;#DISPLAYBPM: *  ;#STOPS:
        ;
        #NOTES: ::::: \
            0000\n \
            0100\n \
            0000\n \
            0000\n \
            ;
        #NOTES: ::::: \
            0000\n \
            0000\n \
            0010\n \
            0000\n \
            ;",
    );
    let text = |t: &str| Some(t.to_owned());
    assert_eq!(song.data.title, text("bar1"));
    assert_eq!(song.data.subtitle, text("bar2"));
    assert_eq!(song.data.artist, text("bar3"));
    assert_eq!(song.data.title_translit, text("bar4"));
    assert_eq!(song.data.subtitle_translit, text("bar5"));
    assert_eq!(song.data.artist_translit, text("bar6"));
    assert_eq!(song.data.genre, text("bar7"));
    assert_eq!(song.data.credit, text("bar8"));
    assert_eq!(song.data.banner_path, text("bar9"));
    assert_eq!(song.data.background_path, text("bar10"));
    assert_eq!(song.data.lyrics_path, text("bar11"));
    assert_eq!(song.data.cd_title, text("bar12"));
    assert_eq!(song.data.music_path, text("bar13"));
    assert_eq!(song.data.sample_start, Some(1_200_000));
    assert_eq!(song.data.sample_length, Some(3_400_000));
    assert_eq!(song.data.bpms, vec![pair(0, 1, 4, 2_000)]);
    assert_eq!(song.data.stops, Some(vec![pair(0, 3, 4, 4_000)]));
    assert_eq!(song.data.offset, Some(-1_000_000));
    assert_eq!(song.data.display_bpm, Some(DisplayBpm::Random));
    assert_eq!(song.data.selectable, None);
    assert_eq!(
        song.notes,
        vec![
            ChartData::new(vec![vec![tap(1, 4, 1)]]),
            ChartData::new(vec![vec![tap(2, 4, 2)]]),
        ]
    );
}
