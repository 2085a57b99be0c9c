//! From a chart and its tempo changes to timelines.
//!
//! The notes of a column are taken in the order of the chart, each is given
//! the time of its row, and the result is one timeline for each column.

use crate::fraction::Fraction;
use crate::notedata::{BeatPair, ChartData, ChartMetadata, Measure, NoteData, NoteRow, NoteType};
use crate::tempo::{
    active_segment, bpm_list_valid, fits_i64, is_proper, lemma_active_segment_bounds,
    lemma_position_le_transitive, lemma_segments_ordered, lemma_time_monotone,
    lemma_truncated_quotient_monotone, position_le, scale_time, segment_valid, segments_wf,
    starts_fit, time_us, timestamp_ms, TempoMap, TempoSegment, TimingError,
};
use crate::timingdata::{
    sprite_finder, sprite_for, GameplayInfo, LayoutInfo, TimingColumn, TimingData, TimingInfo,
};
use crate::NOTEFIELD_SIZE;
use vstd::prelude::*;

verus! {

/// A row of a measure: where it stands and what stands there.
pub type Row = (Fraction, NoteRow);

/// A note with its place: measure, fraction of the measure, kind.
pub type Placed = (int, Fraction, NoteType);

/// Those of the first `n` notes of a row that belong to a column.
pub open spec fn row_column(
    row: Seq<(NoteType, usize)>,
    n: int,
    measure: int,
    f: Fraction,
    column: int,
) -> Seq<Placed>
    decreases n,
{
    if n <= 0 {
        Seq::empty()
    } else if row[n - 1].1 == column {
        row_column(row, n - 1, measure, f, column).push((measure, f, row[n - 1].0))
    } else {
        row_column(row, n - 1, measure, f, column)
    }
}

/// The notes of a column in the first `n` rows of a measure.
pub open spec fn measure_column(rows: Seq<Row>, n: int, measure: int, column: int) -> Seq<Placed>
    decreases n,
{
    if n <= 0 {
        Seq::empty()
    } else {
        measure_column(rows, n - 1, measure, column) + row_column(
            rows[n - 1].1.row@,
            rows[n - 1].1.row@.len() as int,
            measure,
            rows[n - 1].0,
            column,
        )
    }
}

/// The notes of a column in the first `n` measures of a chart.
pub open spec fn chart_column(chart: Seq<Measure>, n: int, column: int) -> Seq<Placed>
    decreases n,
{
    if n <= 0 {
        Seq::empty()
    } else {
        chart_column(chart, n - 1, column) + measure_column(
            chart[n - 1]@,
            chart[n - 1]@.len() as int,
            n - 1,
            column,
        )
    }
}

/// The fraction of a row is proper.
pub open spec fn row_valid(row: Row) -> bool {
    row.0.wf() && is_proper(row.0)
}

/// Row `b` stands later in its measure than row `a`.
pub open spec fn row_follows(a: Row, b: Row) -> bool {
    a.0.numer() * b.0.denom() < b.0.numer() * a.0.denom()
}

/// The rows of a measure stand at proper fractions that strictly increase.
pub open spec fn measure_valid(rows: Seq<Row>) -> bool {
    &&& forall|r: int| 0 <= r < rows.len() ==> row_valid(#[trigger] rows[r])
    &&& forall|r: int| 0 < r < rows.len() ==> #[trigger] row_follows(rows[r - 1], rows[r])
}

/// Every measure of the chart is valid.
pub open spec fn chart_valid(chart: Seq<Measure>) -> bool {
    forall|m: int| 0 <= m < chart.len() ==> measure_valid(#[trigger] chart[m]@)
}

/// If note `i` of the column is a hold head, the next is a hold end.
pub open spec fn hold_then_end(notes: Seq<Placed>, i: int) -> bool {
    notes[i].2 == NoteType::Hold ==> notes[i + 1].2 == NoteType::HoldEnd
}

/// Every hold head that has a successor in its column is followed by a hold
/// end.
pub open spec fn holds_paired_so_far(notes: Seq<Placed>) -> bool {
    forall|i: int| 0 <= i < notes.len() - 1 ==> #[trigger] hold_then_end(notes, i)
}

/// The column ends with a hold head.
pub open spec fn ends_with_hold(notes: Seq<Placed>) -> bool {
    notes.len() > 0 && notes.last().2 == NoteType::Hold
}

/// Every hold head of the column is followed at once by a hold end.
pub open spec fn holds_paired(notes: Seq<Placed>) -> bool {
    holds_paired_so_far(notes) && !ends_with_hold(notes)
}

/// In every column of the chart the hold heads are paired with hold ends.
pub open spec fn all_holds_paired(chart: Seq<Measure>) -> bool {
    forall|c: int|
        0 <= c < NOTEFIELD_SIZE ==> holds_paired(#[trigger] chart_column(chart, chart.len() as int, c))
}

/// The time of a row in milliseconds at a rate given in thousandths.
pub open spec fn row_timestamp(segs: Seq<TempoSegment>, rate: int, measure: int, f: Fraction) -> int {
    timestamp_ms(time_us(segs, measure, f), rate)
}

/// The time in microseconds of every row of the chart fits in 64 bits.
pub open spec fn times_fit(chart: Seq<Measure>, segs: Seq<TempoSegment>) -> bool {
    forall|m: int, r: int|
        0 <= m < chart.len() && 0 <= r < chart[m]@.len() ==> fits_i64(
            time_us(segs, m, (#[trigger] chart[m]@[r]).0),
        )
}

/// The timeline entry of a placed note.
pub open spec fn entry_of<T: LayoutInfo>(note: Placed, segs: Seq<TempoSegment>, rate: int) -> T {
    T::layout(row_timestamp(segs, rate, note.0, note.1) as i64, sprite_for(note.1, note.2), note.2)
}

/// The timeline of a column: the entry of each of its notes, in their order.
pub open spec fn timeline_of<T: LayoutInfo>(
    notes: Seq<Placed>,
    segs: Seq<TempoSegment>,
    rate: int,
) -> Seq<T> {
    Seq::new(notes.len(), |i: int| entry_of::<T>(notes[i], segs, rate))
}

/// The times of the notes never decrease along the column.
pub open spec fn timestamps_sorted(notes: Seq<Placed>, segs: Seq<TempoSegment>, rate: int) -> bool {
    forall|i: int, j: int|
        0 <= i <= j < notes.len() ==> row_timestamp(segs, rate, notes[i].0, notes[i].1)
            <= row_timestamp(segs, rate, notes[j].0, notes[j].1)
}

/// The start offset of a song in microseconds; zero when none is given.
pub open spec fn offset_of(meta: ChartMetadata) -> int {
    match meta.offset {
        Some(offset) => offset as int,
        None => 0,
    }
}

/// Why a conversion with a tempo map fails, if it does. The rate is looked
/// at first, then the rows and holds of the chart, and last the times of the
/// rows.
pub open spec fn chart_error(chart: Seq<Measure>, segs: Seq<TempoSegment>, rate: int) -> Option<
    TimingError,
> {
    if rate <= 0 {
        Some(TimingError::InvalidRate)
    } else if !chart_valid(chart) || !all_holds_paired(chart) {
        Some(TimingError::MalformedChart)
    } else if !times_fit(chart, segs) {
        Some(TimingError::TimeOutOfRange)
    } else {
        None
    }
}

/// The result is what converting the chart with a tempo map has to give: the
/// error that [`chart_error`] names, or else for each column the timeline of
/// its notes.
pub open spec fn is_conversion_with<T: TimingInfo + LayoutInfo>(
    result: Result<TimingData<T>, TimingError>,
    chart: Seq<Measure>,
    segs: Seq<TempoSegment>,
    rate: int,
) -> bool {
    match chart_error(chart, segs, rate) {
        Some(error) => result == Err::<TimingData<T>, TimingError>(error),
        None => result is Ok && forall|c: int|
            0 <= c < NOTEFIELD_SIZE ==> (#[trigger] result->Ok_0.notes[c]).notes@ == timeline_of::<
                T,
            >(chart_column(chart, chart.len() as int, c), segs, rate),
    }
}

/// Why a conversion fails, if it does. The rate is looked at first; a chart
/// without tempo converts to empty timelines whatever else it holds; then
/// come the tempo list and the starts of its segments, and last the chart,
/// as in a conversion with the tempo map of the list.
pub open spec fn conversion_error(
    chart: Seq<Measure>,
    bpms: Seq<BeatPair<i64>>,
    offset: int,
    rate: int,
) -> Option<TimingError> {
    if rate <= 0 {
        Some(TimingError::InvalidRate)
    } else if bpms.len() == 0 {
        None
    } else if !bpm_list_valid(bpms) {
        Some(TimingError::MalformedChart)
    } else if !starts_fit(bpms, offset) {
        Some(TimingError::TimeOutOfRange)
    } else {
        chart_error(chart, TempoMap::segments_of(bpms, offset), rate)
    }
}

/// The result is what converting the chart has to give: the error that
/// [`conversion_error`] names, or else for each column the timeline of its
/// notes (empty when the chart has no tempo).
pub open spec fn is_conversion<T: TimingInfo + LayoutInfo>(
    result: Result<TimingData<T>, TimingError>,
    chart: Seq<Measure>,
    bpms: Seq<BeatPair<i64>>,
    offset: int,
    rate: int,
) -> bool {
    match conversion_error(chart, bpms, offset, rate) {
        Some(error) => result == Err::<TimingData<T>, TimingError>(error),
        None => result is Ok && forall|c: int|
            0 <= c < NOTEFIELD_SIZE ==> (#[trigger] result->Ok_0.notes[c]).notes@ == if bpms.len()
                == 0 {
                Seq::<T>::empty()
            } else {
                timeline_of::<T>(
                    chart_column(chart, chart.len() as int, c),
                    TempoMap::segments_of(bpms, offset),
                    rate,
                )
            },
    }
}

/// A timeline of two runs of notes is the timeline of the first followed by
/// that of the second.
pub proof fn lemma_timeline_of_concat<T: LayoutInfo>(
    a: Seq<Placed>,
    b: Seq<Placed>,
    segs: Seq<TempoSegment>,
    rate: int,
)
    ensures
        timeline_of::<T>(a + b, segs, rate) == timeline_of::<T>(a, segs, rate) + timeline_of::<T>(
            b,
            segs,
            rate,
        ),
{
    assert(timeline_of::<T>(a + b, segs, rate) =~= timeline_of::<T>(a, segs, rate) + timeline_of::<
        T,
    >(b, segs, rate));
}

/// What is known of the holds of each column while a chart is read: whether
/// the column ends with a hold head, and whether its holds are paired so far.
struct Pairing {
    pending: [bool; NOTEFIELD_SIZE],
    paired: [bool; NOTEFIELD_SIZE],
}

impl Pairing {
    /// The flags of column `c` are those of the notes `notes`.
    spec fn tracks(self, c: int, notes: Seq<Placed>) -> bool {
        &&& self.pending[c] == ends_with_hold(notes)
        &&& self.paired[c] == holds_paired_so_far(notes)
    }

    /// The flags of columns without a note.
    fn new() -> (state: Self)
        ensures
            forall|c: int| 0 <= c < NOTEFIELD_SIZE ==> state.tracks(c, Seq::<Placed>::empty()),
    {
        Pairing { pending: [false, false, false, false], paired: [true, true, true, true] }
    }

    /// Takes note of one more note of column `column`.
    fn note(
        &mut self,
        column: usize,
        note: NoteType,
        Ghost(before): Ghost<Seq<Placed>>,
        Ghost(placed): Ghost<Placed>,
    )
        requires
            column < NOTEFIELD_SIZE,
            placed.2 == note,
            old(self).tracks(column as int, before),
        ensures
            final(self).tracks(column as int, before.push(placed)),
            forall|c: int|
                0 <= c < NOTEFIELD_SIZE && c != column ==> final(self).pending[c] == old(
                    self,
                ).pending[c] && final(self).paired[c] == old(self).paired[c],
    {
        let ghost after = before.push(placed);
        proof {
            lemma_paired_after_push(before, placed);
        }
        if self.pending[column] && note != NoteType::HoldEnd {
            self.paired[column] = false;
        }
        self.pending[column] = note == NoteType::Hold;
    }

    /// Column `c` has its holds paired and does not end with a hold head.
    spec fn settled(self, c: int) -> bool {
        self.paired[c] && !self.pending[c]
    }

    /// Whether the holds of every column are paired.
    fn all_paired(&self) -> (r: bool)
        ensures
            r == (self.settled(0) && self.settled(1) && self.settled(2) && self.settled(3)),
    {
        self.paired[0] && !self.pending[0] && self.paired[1] && !self.pending[1] && self.paired[2]
            && !self.pending[2] && self.paired[3] && !self.pending[3]
    }
}

/// A column with one more note has its holds paired so far exactly when it
/// had them paired before and the new note ends the hold, if any, that the
/// column ended with.
proof fn lemma_paired_after_push(before: Seq<Placed>, placed: Placed)
    ensures
        holds_paired_so_far(before.push(placed)) == (holds_paired_so_far(before) && (
        ends_with_hold(before) ==> placed.2 == NoteType::HoldEnd)),
        ends_with_hold(before.push(placed)) == (placed.2 == NoteType::Hold),
{
    let after = before.push(placed);
    if holds_paired_so_far(after) {
        assert forall|i: int| 0 <= i < before.len() - 1 implies #[trigger] hold_then_end(
            before,
            i,
        ) by {
            assert(hold_then_end(after, i));
        }
        if ends_with_hold(before) {
            assert(hold_then_end(after, before.len() - 1));
        }
    }
    if holds_paired_so_far(before) && (ends_with_hold(before) ==> placed.2 == NoteType::HoldEnd) {
        assert forall|i: int| 0 <= i < after.len() - 1 implies #[trigger] hold_then_end(
            after,
            i,
        ) by {
            if i < before.len() - 1 {
                assert(hold_then_end(before, i));
            }
        }
    }
}

/// Reads the notes of one row into the pairing flags.
fn scan_row(
    state: &mut Pairing,
    row: &Vec<(NoteType, usize)>,
    Ghost(measure): Ghost<int>,
    Ghost(f): Ghost<Fraction>,
    Ghost(before): Ghost<Seq<Seq<Placed>>>,
)
    requires
        before.len() == NOTEFIELD_SIZE,
        forall|c: int| 0 <= c < NOTEFIELD_SIZE ==> old(state).tracks(c, #[trigger] before[c]),
    ensures
        forall|c: int|
            0 <= c < NOTEFIELD_SIZE ==> final(state).tracks(
                c,
                #[trigger] before[c] + row_column(row@, row@.len() as int, measure, f, c),
            ),
{
    let mut k: usize = 0;
    proof {
        assert forall|c: int| 0 <= c < NOTEFIELD_SIZE implies state.tracks(
            c,
            #[trigger] before[c] + row_column(row@, 0, measure, f, c),
        ) by {
            assert(before[c] + row_column(row@, 0, measure, f, c) =~= before[c]);
        }
    }
    while k < row.len()
        invariant
            0 <= k <= row.len(),
            before.len() == NOTEFIELD_SIZE,
            forall|c: int|
                0 <= c < NOTEFIELD_SIZE ==> state.tracks(
                    c,
                    #[trigger] before[c] + row_column(row@, k as int, measure, f, c),
                ),
        decreases row.len() - k,
    {
        let (note, column) = row[k];
        let ghost earlier = *state;
        if column < NOTEFIELD_SIZE {
            let ghost so_far = before[column as int] + row_column(
                row@,
                k as int,
                measure,
                f,
                column as int,
            );
            state.note(column, note, Ghost(so_far), Ghost((measure, f, note)));
            proof {
                assert(so_far.push((measure, f, note)) =~= before[column as int] + row_column(
                    row@,
                    k as int + 1,
                    measure,
                    f,
                    column as int,
                ));
            }
        }
        proof {
            assert forall|c: int| 0 <= c < NOTEFIELD_SIZE implies state.tracks(
                c,
                #[trigger] before[c] + row_column(row@, k as int + 1, measure, f, c),
            ) by {
                if c != column {
                    assert(earlier.tracks(c, before[c] + row_column(row@, k as int, measure, f, c)));
                }
            }
        }
        k += 1;
    }
}

/// Checks the rows of one measure and reads their notes into the pairing
/// flags.
fn scan_measure(
    state: &mut Pairing,
    rows: &Vec<Row>,
    Ghost(measure): Ghost<int>,
    Ghost(before): Ghost<Seq<Seq<Placed>>>,
) -> (ok: bool)
    requires
        before.len() == NOTEFIELD_SIZE,
        forall|c: int| 0 <= c < NOTEFIELD_SIZE ==> old(state).tracks(c, #[trigger] before[c]),
    ensures
        ok == measure_valid(rows@),
        ok ==> forall|c: int|
            0 <= c < NOTEFIELD_SIZE ==> final(state).tracks(
                c,
                #[trigger] before[c] + measure_column(rows@, rows@.len() as int, measure, c),
            ),
{
    let mut r: usize = 0;
    proof {
        assert forall|c: int| 0 <= c < NOTEFIELD_SIZE implies state.tracks(
            c,
            #[trigger] before[c] + measure_column(rows@, 0, measure, c),
        ) by {
            assert(before[c] + measure_column(rows@, 0, measure, c) =~= before[c]);
        }
    }
    while r < rows.len()
        invariant
            0 <= r <= rows.len(),
            before.len() == NOTEFIELD_SIZE,
            forall|j: int| 0 <= j < r ==> row_valid(#[trigger] rows@[j]),
            forall|j: int| 0 < j < r ==> #[trigger] row_follows(rows@[j - 1], rows@[j]),
            forall|c: int|
                0 <= c < NOTEFIELD_SIZE ==> state.tracks(
                    c,
                    #[trigger] before[c] + measure_column(rows@, r as int, measure, c),
                ),
        decreases rows.len() - r,
    {
        let row = &rows[r];
        if !row.0.is_proper() {
            proof {
                if measure_valid(rows@) {
                    assert(row_valid(rows@[r as int]));
                }
            }
            return false;
        }
        if r > 0 && !rows[r - 1].0.lt(&row.0) {
            proof {
                if measure_valid(rows@) {
                    assert(row_follows(rows@[r as int - 1], rows@[r as int]));
                }
            }
            return false;
        }
        let ghost so_far = Seq::new(
            NOTEFIELD_SIZE as nat,
            |c: int| before[c] + measure_column(rows@, r as int, measure, c),
        );
        scan_row(state, &row.1.row, Ghost(measure), Ghost(row.0), Ghost(so_far));
        proof {
            assert forall|c: int| 0 <= c < NOTEFIELD_SIZE implies state.tracks(
                c,
                #[trigger] before[c] + measure_column(rows@, r as int + 1, measure, c),
            ) by {
                assert(state.tracks(
                    c,
                    so_far[c] + row_column(row.1.row@, row.1.row@.len() as int, measure, row.0, c),
                ));
                assert(so_far[c] + row_column(
                    row.1.row@,
                    row.1.row@.len() as int,
                    measure,
                    row.0,
                    c,
                ) =~= before[c] + measure_column(rows@, r as int + 1, measure, c));
            }
        }
        r += 1;
    }
    true
}

/// Whether a chart can be converted: in every measure the rows stand at
/// proper fractions that strictly increase, and in every column each hold
/// head is followed at once by a hold end.
pub fn check_structure(chart: &ChartData) -> (ok: bool)
    ensures
        ok == (chart_valid(chart@) && all_holds_paired(chart@)),
{
    let measures = chart.measures();
    let mut state = Pairing::new();
    let mut m: usize = 0;
    while m < measures.len()
        invariant
            0 <= m <= measures.len(),
            measures@ == chart@,
            forall|j: int| 0 <= j < m ==> measure_valid(#[trigger] chart@[j]@),
            forall|c: int|
                0 <= c < NOTEFIELD_SIZE ==> state.tracks(c, #[trigger] chart_column(chart@, m as int, c)),
        decreases measures.len() - m,
    {
        let ghost so_far = Seq::new(NOTEFIELD_SIZE as nat, |c: int| chart_column(chart@, m as int, c));
        let ok = scan_measure(&mut state, &measures[m], Ghost(m as int), Ghost(so_far));
        if !ok {
            return false;
        }
        proof {
            assert forall|c: int| 0 <= c < NOTEFIELD_SIZE implies state.tracks(
                c,
                #[trigger] chart_column(chart@, m as int + 1, c),
            ) by {
                assert(state.tracks(
                    c,
                    so_far[c] + measure_column(
                        measures@[m as int]@,
                        measures@[m as int]@.len() as int,
                        m as int,
                        c,
                    ),
                ));
            }
        }
        m += 1;
    }
    let paired = state.all_paired();
    proof {
        assert(m as int == chart@.len() as int);
        assert forall|c: int| 0 <= c < NOTEFIELD_SIZE implies (holds_paired(
            #[trigger] chart_column(chart@, chart@.len() as int, c),
        ) <==> state.settled(c)) by {
            assert(state.tracks(c, chart_column(chart@, m as int, c)));
        }
        assert(chart_valid(chart@));
        if !paired {
            let c: int = if !state.settled(0) {
                0
            } else if !state.settled(1) {
                1
            } else if !state.settled(2) {
                2
            } else {
                3
            };
            assert(!holds_paired(chart_column(chart@, chart@.len() as int, c)));
        }
    }
    paired
}

/// A cursor that stands on the first segment, or on one that begins at or
/// before a position, stands at or before the active segment of the position.
pub proof fn lemma_cursor_before_active(
    segs: Seq<TempoSegment>,
    cursor: int,
    measure: int,
    f: Fraction,
)
    requires
        segments_wf(segs),
        f.denom() > 0,
        0 <= cursor < segs.len(),
        cursor == 0 || position_le(segs[cursor].measure as int, segs[cursor].fraction, measure, f),
    ensures
        cursor <= active_segment(segs, measure, f),
{
    let a = active_segment(segs, measure, f);
    lemma_active_segment_bounds(segs, measure, f);
    if a < cursor {
        lemma_segments_ordered(segs, a + 1, cursor);
        assert(segment_valid(segs[a + 1]) && segment_valid(segs[cursor]));
        lemma_position_le_transitive(
            segs[a + 1].measure as int,
            segs[a + 1].fraction,
            segs[cursor].measure as int,
            segs[cursor].fraction,
            measure,
            f,
        );
    }
}

/// Appends the notes of one row, all at the time of the row, to the
/// timelines of their columns. A note of a column that the field does not
/// have is left out.
fn place_row<T: TimingInfo + LayoutInfo>(
    out: &mut [TimingColumn<T>; NOTEFIELD_SIZE],
    row: &Vec<(NoteType, usize)>,
    measure: usize,
    f: Fraction,
    time: i64,
    Ghost(segs): Ghost<Seq<TempoSegment>>,
    Ghost(rate): Ghost<int>,
)
    requires
        time == row_timestamp(segs, rate, measure as int, f),
    ensures
        forall|c: int|
            0 <= c < NOTEFIELD_SIZE ==> (#[trigger] final(out)[c]).notes@ == old(out)[c].notes@
                + timeline_of::<T>(
                row_column(row@, row@.len() as int, measure as int, f, c),
                segs,
                rate,
            ),
{
    let mut k: usize = 0;
    proof {
        assert forall|c: int| 0 <= c < NOTEFIELD_SIZE implies (#[trigger] out[c]).notes@ == old(
            out,
        )[c].notes@ + timeline_of::<T>(row_column(row@, 0, measure as int, f, c), segs, rate) by {
            assert(old(out)[c].notes@ + timeline_of::<T>(
                row_column(row@, 0, measure as int, f, c),
                segs,
                rate,
            ) =~= old(out)[c].notes@);
        }
    }
    while k < row.len()
        invariant
            0 <= k <= row.len(),
            time == row_timestamp(segs, rate, measure as int, f),
            forall|c: int|
                0 <= c < NOTEFIELD_SIZE ==> (#[trigger] out[c]).notes@ == old(out)[c].notes@
                    + timeline_of::<T>(row_column(row@, k as int, measure as int, f, c), segs, rate),
        decreases row.len() - k,
    {
        let (note, column) = row[k];
        let ghost earlier = *out;
        if column < NOTEFIELD_SIZE {
            let sprite = sprite_finder(measure, f, note, column);
            out[column].add(T::from_layout(time, sprite, note));
            proof {
                let placed: Placed = (measure as int, f, note);
                let had = row_column(row@, k as int, measure as int, f, column as int);
                assert(row_column(row@, k as int + 1, measure as int, f, column as int)
                    == had.push(placed));
                assert(timeline_of::<T>(had.push(placed), segs, rate) =~= timeline_of::<T>(
                    had,
                    segs,
                    rate,
                ).push(entry_of::<T>(placed, segs, rate)));
                assert(earlier[column as int].notes@ == old(out)[column as int].notes@
                    + timeline_of::<T>(had, segs, rate));
                assert(out[column as int].notes@ =~= old(out)[column as int].notes@
                    + timeline_of::<T>(had.push(placed), segs, rate));
            }
        }
        proof {
            assert forall|c: int| 0 <= c < NOTEFIELD_SIZE implies (#[trigger] out[c]).notes@
                == old(out)[c].notes@ + timeline_of::<T>(
                row_column(row@, k as int + 1, measure as int, f, c),
                segs,
                rate,
            ) by {
                if c != column {
                    assert(out[c] == earlier[c]);
                }
            }
        }
        k += 1;
    }
}

/// Appends the notes of one measure to the timelines, row by row, moving the
/// tempo cursor forward as the rows pass tempo changes.
fn place_measure<T: TimingInfo + LayoutInfo>(
    out: &mut [TimingColumn<T>; NOTEFIELD_SIZE],
    rows: &Vec<Row>,
    measure: usize,
    tempo: &TempoMap,
    rate: i64,
    cursor: usize,
) -> (r: Result<usize, TimingError>)
    requires
        measure_valid(rows@),
        rate > 0,
        tempo.wf(),
        cursor < tempo@.len(),
        cursor == 0 || tempo@[cursor as int].measure < measure,
    ensures
        r is Ok <==> forall|j: int|
            0 <= j < rows@.len() ==> fits_i64(time_us(tempo@, measure as int, (#[trigger] rows@[j]).0)),
        r matches Err(e) ==> e == TimingError::TimeOutOfRange,
        r matches Ok(k) ==> k < tempo@.len() && (k == 0 || tempo@[k as int].measure <= measure)
            && forall|c: int|
            0 <= c < NOTEFIELD_SIZE ==> (#[trigger] final(out)[c]).notes@ == old(out)[c].notes@
                + timeline_of::<T>(
                measure_column(rows@, rows@.len() as int, measure as int, c),
                tempo@,
                rate as int,
            ),
{
    let mut k: usize = cursor;
    let mut r: usize = 0;
    proof {
        assert forall|c: int| 0 <= c < NOTEFIELD_SIZE implies (#[trigger] out[c]).notes@ == old(
            out,
        )[c].notes@ + timeline_of::<T>(
            measure_column(rows@, 0, measure as int, c),
            tempo@,
            rate as int,
        ) by {
            assert(old(out)[c].notes@ + timeline_of::<T>(
                measure_column(rows@, 0, measure as int, c),
                tempo@,
                rate as int,
            ) =~= old(out)[c].notes@);
        }
    }
    while r < rows.len()
        invariant
            0 <= r <= rows.len(),
            measure_valid(rows@),
            rate > 0,
            tempo.wf(),
            k < tempo@.len(),
            r == 0 ==> k == 0 || tempo@[k as int].measure < measure,
            r > 0 ==> k == 0 || position_le(
                tempo@[k as int].measure as int,
                tempo@[k as int].fraction,
                measure as int,
                rows@[r as int - 1].0,
            ),
            forall|j: int|
                0 <= j < r ==> fits_i64(time_us(tempo@, measure as int, (#[trigger] rows@[j]).0)),
            forall|c: int|
                0 <= c < NOTEFIELD_SIZE ==> (#[trigger] out[c]).notes@ == old(out)[c].notes@
                    + timeline_of::<T>(
                    measure_column(rows@, r as int, measure as int, c),
                    tempo@,
                    rate as int,
                ),
        decreases rows.len() - r,
    {
        let row = &rows[r];
        let f: Fraction = row.0;
        proof {
            assert(row_valid(rows@[r as int]));
            assert(segment_valid(tempo@[k as int]));
            if r > 0 && k > 0 {
                assert(row_follows(rows@[r as int - 1], rows@[r as int]));
                assert(row_valid(rows@[r as int - 1]));
                lemma_position_le_transitive(
                    tempo@[k as int].measure as int,
                    tempo@[k as int].fraction,
                    measure as int,
                    rows@[r as int - 1].0,
                    measure as int,
                    f,
                );
            }
            lemma_cursor_before_active(tempo@, k as int, measure as int, f);
        }
        k = tempo.advance(k, measure, &f);
        proof {
            lemma_active_segment_bounds(tempo@, measure as int, f);
        }
        let time: i64 = match tempo.time_in_segment(k, measure, &f) {
            Some(time) => time,
            None => {
                return Err(TimingError::TimeOutOfRange);
            },
        };
        let stamp: i64 = scale_time(time, rate);
        let ghost earlier = *out;
        place_row(out, &row.1.row, measure, f, stamp, Ghost(tempo@), Ghost(rate as int));
        proof {
            assert forall|c: int| 0 <= c < NOTEFIELD_SIZE implies (#[trigger] out[c]).notes@
                == old(out)[c].notes@ + timeline_of::<T>(
                measure_column(rows@, r as int + 1, measure as int, c),
                tempo@,
                rate as int,
            ) by {
                let had = measure_column(rows@, r as int, measure as int, c);
                let more = row_column(row.1.row@, row.1.row@.len() as int, measure as int, f, c);
                lemma_timeline_of_concat::<T>(had, more, tempo@, rate as int);
                assert(earlier[c].notes@ == old(out)[c].notes@ + timeline_of::<T>(
                    had,
                    tempo@,
                    rate as int,
                ));
                assert(out[c].notes@ =~= old(out)[c].notes@ + timeline_of::<T>(
                    had + more,
                    tempo@,
                    rate as int,
                ));
            }
        }
        r += 1;
    }
    proof {
        if rows@.len() > 0 && k > 0 {
            assert(position_le(
                tempo@[k as int].measure as int,
                tempo@[k as int].fraction,
                measure as int,
                rows@[rows@.len() - 1].0,
            ));
        }
    }
    Ok(k)
}

impl<T> TimingData<T> where T: TimingInfo + LayoutInfo {
    /// Converts a chart to timelines with a tempo map, at a playback rate
    /// given in thousandths.
    ///
    /// A rate that is not positive is refused, then a chart that is not well
    /// formed, then one with a row whose time does not fit in 64 bits.
    /// Otherwise each column holds its notes in the order of the chart, each
    /// at the time of its row in milliseconds.
    pub fn convert(data: &ChartData, tempo: &TempoMap, rate: i64) -> (r: Result<Self, TimingError>)
        ensures
            is_conversion_with(r, data@, tempo@, rate as int),
    {
        if rate <= 0 {
            return Err(TimingError::InvalidRate);
        }
        if !check_structure(data) {
            return Err(TimingError::MalformedChart);
        }
        let count = tempo.len();
        let measures = data.measures();
        let mut out: TimingData<T> = TimingData::new();
        let mut cursor: usize = 0;
        let mut m: usize = 0;
        proof {
            assert forall|c: int| 0 <= c < NOTEFIELD_SIZE implies (#[trigger] out.notes[c]).notes@
                == timeline_of::<T>(chart_column(data@, 0, c), tempo@, rate as int) by {
                assert(timeline_of::<T>(chart_column(data@, 0, c), tempo@, rate as int)
                    =~= Seq::<T>::empty());
            }
        }
        while m < measures.len()
            invariant
                0 <= m <= measures.len(),
                measures@ == data@,
                chart_valid(data@),
                all_holds_paired(data@),
                rate > 0,
                tempo.wf(),
                cursor < tempo@.len(),
                cursor == 0 || tempo@[cursor as int].measure < m,
                forall|i: int, j: int|
                    0 <= i < m && 0 <= j < data@[i]@.len() ==> fits_i64(
                        time_us(tempo@, i, (#[trigger] data@[i]@[j]).0),
                    ),
                forall|c: int|
                    0 <= c < NOTEFIELD_SIZE ==> (#[trigger] out.notes[c]).notes@ == timeline_of::<T>(
                        chart_column(data@, m as int, c),
                        tempo@,
                        rate as int,
                    ),
            decreases measures.len() - m,
        {
            let ghost earlier = out.notes;
            proof {
                assert(measure_valid(data@[m as int]@));
            }
            match place_measure(&mut out.notes, &measures[m], m, tempo, rate, cursor) {
                Ok(k) => {
                    cursor = k;
                },
                Err(e) => {
                    proof {
                        let j = choose|j: int|
                            0 <= j < data@[m as int]@.len() && !fits_i64(
                                time_us(tempo@, m as int, (#[trigger] data@[m as int]@[j]).0),
                            );
                        assert(!times_fit(data@, tempo@));
                    }
                    return Err(e);
                },
            }
            proof {
                assert forall|c: int| 0 <= c < NOTEFIELD_SIZE implies (#[trigger] out.notes[c]).notes@
                    == timeline_of::<T>(chart_column(data@, m as int + 1, c), tempo@, rate as int) by {
                    let had = chart_column(data@, m as int, c);
                    let more = measure_column(
                        data@[m as int]@,
                        data@[m as int]@.len() as int,
                        m as int,
                        c,
                    );
                    lemma_timeline_of_concat::<T>(had, more, tempo@, rate as int);
                    assert(earlier[c].notes@ == timeline_of::<T>(had, tempo@, rate as int));
                }
            }
            m += 1;
        }
        proof {
            assert(times_fit(data@, tempo@));
        }
        Ok(out)
    }

    /// Converts one chart to timelines at a playback rate given in
    /// thousandths, with the tempo changes and the offset of its song.
    ///
    /// A rate that is not positive is refused. A chart without tempo gives
    /// empty timelines. Otherwise the tempo map of the song is built and the
    /// chart is converted with it.
    pub fn from_chartdata(data: &ChartData, meta: &ChartMetadata, rate: i64) -> (r: Result<
        Self,
        TimingError,
    >)
        ensures
            is_conversion(r, data@, meta.bpms@, offset_of(*meta), rate as int),
    {
        if rate <= 0 {
            return Err(TimingError::InvalidRate);
        }
        if meta.bpms.len() == 0 {
            return Ok(TimingData::new());
        }
        let offset: i64 = match meta.offset {
            Some(offset) => offset,
            None => 0,
        };
        match TempoMap::new(&meta.bpms, offset) {
            Ok(tempo) => Self::convert(data, &tempo, rate),
            Err(e) => Err(e),
        }
    }

    /// Converts every chart of a song, each on its own: a chart that cannot
    /// be converted does not keep the others from being converted.
    pub fn from_notedata(data: &NoteData, rate: i64) -> (timelines: Vec<Result<Self, TimingError>>)
        ensures
            timelines@.len() == data.notes@.len(),
            forall|i: int|
                0 <= i < timelines@.len() ==> is_conversion(
                    #[trigger] timelines@[i],
                    data.notes@[i]@,
                    data.data.bpms@,
                    offset_of(data.data),
                    rate as int,
                ),
    {
        let charts = data.charts();
        let mut timelines: Vec<Result<Self, TimingError>> = Vec::new();
        let mut i: usize = 0;
        while i < charts.len()
            invariant
                0 <= i <= charts.len(),
                charts@ == data.notes@,
                timelines@.len() == i,
                forall|j: int|
                    0 <= j < i ==> is_conversion(
                        #[trigger] timelines@[j],
                        data.notes@[j]@,
                        data.data.bpms@,
                        offset_of(data.data),
                        rate as int,
                    ),
            decreases charts.len() - i,
        {
            let converted = Self::from_chartdata(&charts[i], &data.data, rate);
            timelines.push(converted);
            i += 1;
        }
        timelines
    }
}

/// The notes of a column stand in the order of their positions, each at a
/// proper fraction of its measure.
pub open spec fn placed_in_order(notes: Seq<Placed>) -> bool {
    &&& forall|i: int| 0 <= i < notes.len() ==> is_proper((#[trigger] notes[i]).1)
    &&& forall|i: int, j: int|
        0 <= i <= j < notes.len() ==> position_le(
            (#[trigger] notes[i]).0,
            notes[i].1,
            (#[trigger] notes[j]).0,
            notes[j].1,
        )
}

/// The notes of a row all stand at the position of the row.
proof fn lemma_row_column_position(
    row: Seq<(NoteType, usize)>,
    n: int,
    measure: int,
    f: Fraction,
    column: int,
)
    ensures
        forall|i: int|
            0 <= i < row_column(row, n, measure, f, column).len() ==> (#[trigger] row_column(
                row,
                n,
                measure,
                f,
                column,
            )[i]).0 == measure && row_column(row, n, measure, f, column)[i].1 == f,
    decreases n,
{
    if n > 0 {
        lemma_row_column_position(row, n - 1, measure, f, column);
        let had = row_column(row, n - 1, measure, f, column);
        let all = row_column(row, n, measure, f, column);
        assert forall|i: int| 0 <= i < all.len() implies (#[trigger] all[i]).0 == measure
            && all[i].1 == f by {
            if i < had.len() {
                assert(all[i] == had[i]);
            }
        }
    }
}

/// The notes of a column in the first `n` rows of a valid measure stand in
/// that measure, in the order of the rows, none after row `n - 1`.
proof fn lemma_measure_column_in_order(rows: Seq<Row>, n: int, measure: int, column: int)
    requires
        measure_valid(rows),
        0 <= n <= rows.len(),
    ensures
        placed_in_order(measure_column(rows, n, measure, column)),
        forall|i: int|
            0 <= i < measure_column(rows, n, measure, column).len() ==> (#[trigger] measure_column(
                rows,
                n,
                measure,
                column,
            )[i]).0 == measure && measure_column(rows, n, measure, column)[i].1.numer() * rows[n
                - 1].0.denom() <= rows[n - 1].0.numer() * measure_column(
                rows,
                n,
                measure,
                column,
            )[i].1.denom(),
    decreases n,
{
    if n > 0 {
        let had = measure_column(rows, n - 1, measure, column);
        let f = rows[n - 1].0;
        let more = row_column(rows[n - 1].1.row@, rows[n - 1].1.row@.len() as int, measure, f, column);
        let all = measure_column(rows, n, measure, column);
        lemma_measure_column_in_order(rows, n - 1, measure, column);
        lemma_row_column_position(
            rows[n - 1].1.row@,
            rows[n - 1].1.row@.len() as int,
            measure,
            f,
            column,
        );
        assert(row_valid(rows[n - 1]));
        assert(all == had + more);
        assert forall|i: int| 0 <= i < all.len() implies (#[trigger] all[i]).0 == measure
            && is_proper(all[i].1) && all[i].1.numer() * f.denom() <= f.numer()
            * all[i].1.denom() by {
            if i < had.len() {
                assert(all[i] == had[i]);
                let g = rows[n - 2].0;
                assert(row_follows(rows[n - 2], rows[n - 1]));
                assert(row_valid(rows[n - 2]));
                let (a, b, c, d, e, h) = (
                    had[i].1.numer(),
                    had[i].1.denom(),
                    g.numer(),
                    g.denom(),
                    f.numer(),
                    f.denom(),
                );
                assert(a * h <= e * b) by (nonlinear_arith)
                    requires
                        a * d <= c * b,
                        c * h < e * d,
                        b > 0,
                        d > 0,
                        h > 0,
                ;
            } else {
                assert(all[i] == more[i - had.len()]);
            }
        }
        assert forall|i: int, j: int| 0 <= i <= j < all.len() implies position_le(
            (#[trigger] all[i]).0,
            all[i].1,
            (#[trigger] all[j]).0,
            all[j].1,
        ) by {
            if j < had.len() {
                assert(all[i] == had[i] && all[j] == had[j]);
            } else {
                assert(all[j] == more[j - had.len()]);
                assert(all[j].1 == f);
            }
        }
    }
}

/// **Chart order is position order.** The notes of a column of a valid chart
/// stand in the order of their positions, each at a proper fraction of one of
/// the first `n` measures.
pub proof fn lemma_chart_column_in_order(chart: Seq<Measure>, n: int, column: int)
    requires
        chart_valid(chart),
        0 <= n <= chart.len(),
    ensures
        placed_in_order(chart_column(chart, n, column)),
        forall|i: int|
            0 <= i < chart_column(chart, n, column).len() ==> 0 <= (#[trigger] chart_column(
                chart,
                n,
                column,
            )[i]).0 < n,
    decreases n,
{
    if n > 0 {
        let had = chart_column(chart, n - 1, column);
        let more = measure_column(chart[n - 1]@, chart[n - 1]@.len() as int, n - 1, column);
        let all = chart_column(chart, n, column);
        lemma_chart_column_in_order(chart, n - 1, column);
        assert(measure_valid(chart[n - 1]@));
        lemma_measure_column_in_order(chart[n - 1]@, chart[n - 1]@.len() as int, n - 1, column);
        assert(all == had + more);
        assert forall|i: int| 0 <= i < all.len() implies is_proper((#[trigger] all[i]).1) && 0
            <= all[i].0 < n && (i >= had.len() ==> all[i].0 == n - 1) by {
            if i < had.len() {
                assert(all[i] == had[i]);
            } else {
                assert(all[i] == more[i - had.len()]);
            }
        }
        assert forall|i: int, j: int| 0 <= i <= j < all.len() implies position_le(
            (#[trigger] all[i]).0,
            all[i].1,
            (#[trigger] all[j]).0,
            all[j].1,
        ) by {
            if j < had.len() {
                assert(all[i] == had[i] && all[j] == had[j]);
            } else if i >= had.len() {
                assert(all[i] == more[i - had.len()] && all[j] == more[j - had.len()]);
            } else {
                assert(all[i] == had[i]);
                assert(all[j].0 == n - 1);
            }
        }
    }
}

/// **Timelines never go back in time.** Whatever the chart and the tempo map,
/// as long as both are well formed and the rate is positive, the times of
/// the notes of a column never decrease along the column.
pub proof fn lemma_timeline_monotone(
    chart: Seq<Measure>,
    segs: Seq<TempoSegment>,
    rate: int,
    column: int,
)
    requires
        chart_valid(chart),
        segments_wf(segs),
        rate > 0,
    ensures
        timestamps_sorted(chart_column(chart, chart.len() as int, column), segs, rate),
{
    let notes = chart_column(chart, chart.len() as int, column);
    lemma_chart_column_in_order(chart, chart.len() as int, column);
    assert forall|i: int, j: int| 0 <= i <= j < notes.len() implies row_timestamp(
        segs,
        rate,
        notes[i].0,
        notes[i].1,
    ) <= row_timestamp(segs, rate, notes[j].0, notes[j].1) by {
        assert(position_le(notes[i].0, notes[i].1, notes[j].0, notes[j].1));
        lemma_time_monotone(segs, notes[i].0, notes[i].1, notes[j].0, notes[j].1);
        lemma_truncated_quotient_monotone(
            time_us(segs, notes[i].0, notes[i].1),
            time_us(segs, notes[j].0, notes[j].1),
            rate,
        );
    }
}

/// **A rate divides time.** The time of a row at a rate, multiplied by the
/// rate, is the time of the row in microseconds up to what rounding to whole
/// milliseconds takes away: it lies less than one rate unit from it, on the
/// side of zero.
pub proof fn lemma_rate_scaling_bound(segs: Seq<TempoSegment>, rate: int, measure: int, f: Fraction)
    requires
        rate > 0,
    ensures
        time_us(segs, measure, f) >= 0 ==> time_us(segs, measure, f) - rate < row_timestamp(
            segs,
            rate,
            measure,
            f,
        ) * rate <= time_us(segs, measure, f),
        time_us(segs, measure, f) <= 0 ==> time_us(segs, measure, f) <= row_timestamp(
            segs,
            rate,
            measure,
            f,
        ) * rate < time_us(segs, measure, f) + rate,
{
    let t = time_us(segs, measure, f);
    if t >= 0 {
        vstd::arithmetic::div_mod::lemma_fundamental_div_mod(t, rate);
        vstd::arithmetic::div_mod::lemma_mod_bound(t, rate);
        vstd::arithmetic::mul::lemma_mul_is_commutative(rate, t / rate);
    } else {
        vstd::arithmetic::div_mod::lemma_fundamental_div_mod(-t, rate);
        vstd::arithmetic::div_mod::lemma_mod_bound(-t, rate);
        vstd::arithmetic::mul::lemma_mul_is_commutative(rate, (-t) / rate);
        assert((-((-t) / rate)) * rate == -(((-t) / rate) * rate)) by (nonlinear_arith);
    }
}

/// **Rate scaling.** Where the time of a row in microseconds is a whole
/// number of milliseconds at the rate and at normal speed, its time at the
/// rate multiplied by the rate is its time at normal speed, a rate of one
/// being a thousand thousandths.
pub proof fn lemma_rate_scaling(segs: Seq<TempoSegment>, rate: int, measure: int, f: Fraction)
    requires
        rate > 0,
        time_us(segs, measure, f) % rate == 0,
        time_us(segs, measure, f) % 1000 == 0,
    ensures
        row_timestamp(segs, rate, measure, f) * rate == row_timestamp(segs, 1000, measure, f)
            * 1000,
{
    let t = time_us(segs, measure, f);
    lemma_exact_quotient(t, rate);
    lemma_exact_quotient(t, 1000);
}

/// A quotient without remainder, rounded toward zero and multiplied by the
/// divisor, is the dividend.
proof fn lemma_exact_quotient(t: int, d: int)
    requires
        d > 0,
        t % d == 0,
    ensures
        crate::tempo::truncated_quotient(t, d) * d == t,
{
    if t >= 0 {
        vstd::arithmetic::div_mod::lemma_fundamental_div_mod(t, d);
        vstd::arithmetic::mul::lemma_mul_is_commutative(d, t / d);
    } else {
        vstd::arithmetic::div_mod::lemma_fundamental_div_mod(t, d);
        vstd::arithmetic::div_mod::lemma_fundamental_div_mod(-t, d);
        // t == d * (t / d), so -t == d * (-(t / d)) has no remainder either
        assert(-t == d * (-(t / d))) by (nonlinear_arith)
            requires
                t == d * (t / d),
        ;
        vstd::arithmetic::div_mod::lemma_fundamental_div_mod_converse(-t, d, -(t / d), 0);
        assert((-((-t) / d)) * d == t) by (nonlinear_arith)
            requires
                (-t) / d == -(t / d),
                t == d * (t / d),
        ;
    }
}

/// **Converting twice gives the same.** Two results of converting the same
/// chart with the same tempo list, offset and rate are both errors, and then
/// the same error, or both timelines, and then equal column by column.
pub proof fn lemma_conversion_deterministic<T: TimingInfo + LayoutInfo>(
    first: Result<TimingData<T>, TimingError>,
    second: Result<TimingData<T>, TimingError>,
    chart: Seq<Measure>,
    bpms: Seq<BeatPair<i64>>,
    offset: int,
    rate: int,
)
    requires
        is_conversion(first, chart, bpms, offset, rate),
        is_conversion(second, chart, bpms, offset, rate),
    ensures
        first is Ok <==> second is Ok,
        first is Err ==> first->Err_0 == second->Err_0,
        first is Ok ==> forall|c: int|
            0 <= c < NOTEFIELD_SIZE ==> (#[trigger] first->Ok_0.notes[c]).notes@
                == second->Ok_0.notes[c].notes@,
{
}

/// The notes of a column in the first `n` rows of a measure have times that
/// fit in 64 bits when the rows have.
proof fn lemma_measure_column_fits(
    rows: Seq<Row>,
    n: int,
    measure: int,
    column: int,
    segs: Seq<TempoSegment>,
)
    requires
        0 <= n <= rows.len(),
        forall|r: int| 0 <= r < n ==> fits_i64(time_us(segs, measure, (#[trigger] rows[r]).0)),
    ensures
        forall|i: int|
            0 <= i < measure_column(rows, n, measure, column).len() ==> fits_i64(
                time_us(
                    segs,
                    (#[trigger] measure_column(rows, n, measure, column)[i]).0,
                    measure_column(rows, n, measure, column)[i].1,
                ),
            ),
    decreases n,
{
    if n > 0 {
        let had = measure_column(rows, n - 1, measure, column);
        let f = rows[n - 1].0;
        let more = row_column(rows[n - 1].1.row@, rows[n - 1].1.row@.len() as int, measure, f, column);
        let all = measure_column(rows, n, measure, column);
        lemma_measure_column_fits(rows, n - 1, measure, column, segs);
        lemma_row_column_position(
            rows[n - 1].1.row@,
            rows[n - 1].1.row@.len() as int,
            measure,
            f,
            column,
        );
        assert forall|i: int| 0 <= i < all.len() implies fits_i64(
            time_us(segs, (#[trigger] all[i]).0, all[i].1),
        ) by {
            if i < had.len() {
                assert(all[i] == had[i]);
            } else {
                assert(all[i] == more[i - had.len()]);
                assert(fits_i64(time_us(segs, measure, rows[n - 1].0)));
            }
        }
    }
}

/// The notes of a column of a chart have times that fit in 64 bits when the
/// rows of the chart have.
pub proof fn lemma_chart_column_fits(
    chart: Seq<Measure>,
    n: int,
    column: int,
    segs: Seq<TempoSegment>,
)
    requires
        0 <= n <= chart.len(),
        times_fit(chart, segs),
    ensures
        forall|i: int|
            0 <= i < chart_column(chart, n, column).len() ==> fits_i64(
                time_us(
                    segs,
                    (#[trigger] chart_column(chart, n, column)[i]).0,
                    chart_column(chart, n, column)[i].1,
                ),
            ),
    decreases n,
{
    if n > 0 {
        let had = chart_column(chart, n - 1, column);
        let more = measure_column(chart[n - 1]@, chart[n - 1]@.len() as int, n - 1, column);
        let all = chart_column(chart, n, column);
        lemma_chart_column_fits(chart, n - 1, column, segs);
        assert forall|r: int| 0 <= r < chart[n - 1]@.len() implies fits_i64(
            time_us(segs, n - 1, (#[trigger] chart[n - 1]@[r]).0),
        ) by {}
        lemma_measure_column_fits(chart[n - 1]@, chart[n - 1]@.len() as int, n - 1, column, segs);
        assert forall|i: int| 0 <= i < all.len() implies fits_i64(
            time_us(segs, (#[trigger] all[i]).0, all[i].1),
        ) by {
            if i < had.len() {
                assert(all[i] == had[i]);
            } else {
                assert(all[i] == more[i - had.len()]);
            }
        }
    }
}

/// A time that fits in 64 bits still fits when it is divided by a rate.
pub proof fn lemma_timestamp_fits(time: int, rate: int)
    requires
        rate > 0,
        fits_i64(time),
    ensures
        fits_i64(timestamp_ms(time, rate)),
{
    if time >= 0 {
        vstd::arithmetic::div_mod::lemma_div_pos_is_pos(time, rate);
        vstd::arithmetic::div_mod::lemma_div_nonincreasing(time, rate);
    } else {
        vstd::arithmetic::div_mod::lemma_div_pos_is_pos(-time, rate);
        vstd::arithmetic::div_mod::lemma_div_nonincreasing(-time, rate);
    }
}

/// **Monotonicity.** In the timelines that a conversion with a tempo map
/// gives, the times of a column never decrease from one entry to the next.
pub proof fn lemma_converted_times_sorted(
    result: Result<TimingData<GameplayInfo>, TimingError>,
    chart: Seq<Measure>,
    segs: Seq<TempoSegment>,
    rate: int,
    column: int,
)
    requires
        segments_wf(segs),
        is_conversion_with(result, chart, segs, rate),
        result is Ok,
        0 <= column < NOTEFIELD_SIZE,
    ensures
        forall|i: int, j: int|
            0 <= i <= j < result->Ok_0.notes[column].notes@.len()
                ==> result->Ok_0.notes[column].notes@[i].0 <= result->Ok_0.notes[column].notes@[j].0,
{
    let timeline = result->Ok_0.notes[column].notes@;
    let notes = chart_column(chart, chart.len() as int, column);
    lemma_timeline_monotone(chart, segs, rate, column);
    lemma_chart_column_fits(chart, chart.len() as int, column, segs);
    assert(timeline == timeline_of::<GameplayInfo>(notes, segs, rate));
    assert forall|i: int, j: int| 0 <= i <= j < timeline.len() implies timeline[i].0
        <= timeline[j].0 by {
        lemma_timestamp_fits(time_us(segs, notes[i].0, notes[i].1), rate);
        lemma_timestamp_fits(time_us(segs, notes[j].0, notes[j].1), rate);
        assert(timeline[i] == entry_of::<GameplayInfo>(notes[i], segs, rate));
        assert(timeline[j] == entry_of::<GameplayInfo>(notes[j], segs, rate));
    }
}

/// **Monotonicity.** In the timelines that the conversion of a chart with
/// the tempo list of its song gives, the times of a column never decrease
/// from one entry to the next.
pub proof fn lemma_song_times_sorted(
    result: Result<TimingData<GameplayInfo>, TimingError>,
    chart: Seq<Measure>,
    bpms: Seq<BeatPair<i64>>,
    offset: int,
    rate: int,
    column: int,
)
    requires
        is_conversion(result, chart, bpms, offset, rate),
        result is Ok,
        0 <= column < NOTEFIELD_SIZE,
    ensures
        forall|i: int, j: int|
            0 <= i <= j < result->Ok_0.notes[column].notes@.len()
                ==> result->Ok_0.notes[column].notes@[i].0 <= result->Ok_0.notes[column].notes@[j].0,
{
    if bpms.len() > 0 {
        let segs = TempoMap::segments_of(bpms, offset);
        TempoMap::lemma_segments_of_wf(bpms, offset);
        assert(is_conversion_with(result, chart, segs, rate));
        lemma_converted_times_sorted(result, chart, segs, rate, column);
    }
}

/// If entry `i` of a timeline is a hold head, it is not the last entry and
/// the next is a hold end.
pub open spec fn entry_is_paired(timeline: Seq<GameplayInfo>, i: int) -> bool {
    timeline[i].2 == NoteType::Hold ==> i + 1 < timeline.len() && timeline[i + 1].2
        == NoteType::HoldEnd
}

/// Every hold head of a timeline is followed at once by its end.
pub open spec fn timeline_paired(timeline: Seq<GameplayInfo>) -> bool {
    forall|i: int| 0 <= i < timeline.len() ==> #[trigger] entry_is_paired(timeline, i)
}

/// **Holds come out paired.** In the timelines that a conversion gives,
/// every hold head is followed at once by its end.
pub proof fn lemma_converted_holds_paired(
    result: Result<TimingData<GameplayInfo>, TimingError>,
    chart: Seq<Measure>,
    segs: Seq<TempoSegment>,
    rate: int,
    column: int,
)
    requires
        is_conversion_with(result, chart, segs, rate),
        result is Ok,
        0 <= column < NOTEFIELD_SIZE,
    ensures
        timeline_paired(result->Ok_0.notes[column].notes@),
{
    let timeline = result->Ok_0.notes[column].notes@;
    let notes = chart_column(chart, chart.len() as int, column);
    assert(holds_paired(notes));
    assert(timeline == timeline_of::<GameplayInfo>(notes, segs, rate));
    assert forall|i: int| 0 <= i < timeline.len() implies #[trigger] entry_is_paired(
        timeline,
        i,
    ) by {
        assert(timeline[i] == entry_of::<GameplayInfo>(notes[i], segs, rate));
        if i + 1 < timeline.len() {
            assert(hold_then_end(notes, i));
            assert(timeline[i + 1] == entry_of::<GameplayInfo>(notes[i + 1], segs, rate));
        } else {
            assert(notes.last() == notes[i]);
        }
    }
}

} // verus!
