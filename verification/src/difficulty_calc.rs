//! The whole-number part of the difficulty rating.
//!
//! A rating is made of two things that are counted here exactly: for every
//! tap and hold the squared gaps in time to the taps and holds before it in
//! its column, from which the stress of the note is summed; and for every
//! note the length of the run of notes after it that can be played as a jack.

use crate::notedata::NoteType;
use crate::tempo::truncated_quotient;
use crate::timingdata::{CalcInfo, TimingColumn, TimingData};
use crate::NOTEFIELD_SIZE;
use vstd::prelude::*;

verus! {

/// The most that a note may be off, in milliseconds, without breaking a
/// combo.
pub const COMBO_BREAK: i64 = 90;

/// Taps and holds count toward the stress of a chart.
pub open spec fn is_counted(note: NoteType) -> bool {
    note == NoteType::Tap || note == NoteType::Hold
}

/// The square of the gap between two times.
pub open spec fn squared_gap(a: i64, b: i64) -> u128 {
    ((a - b) * (a - b)) as u128
}

/// The squared gaps from the note `index` to the counted notes among the
/// first `n` of its column, in their order.
pub open spec fn gaps_before(notes: Seq<CalcInfo>, index: int, n: int) -> Seq<u128>
    decreases n,
{
    if n <= 0 {
        Seq::empty()
    } else if is_counted(notes[n - 1].1) {
        gaps_before(notes, index, n - 1).push(squared_gap(notes[index].0, notes[n - 1].0))
    } else {
        gaps_before(notes, index, n - 1)
    }
}

/// For each counted note among the first `n` of a column, the squared gaps to
/// the counted notes before it.
pub open spec fn column_gaps(notes: Seq<CalcInfo>, n: int) -> Seq<Seq<u128>>
    decreases n,
{
    if n <= 0 {
        Seq::empty()
    } else if is_counted(notes[n - 1].1) {
        column_gaps(notes, n - 1).push(gaps_before(notes, n - 1, n - 1))
    } else {
        column_gaps(notes, n - 1)
    }
}

/// The gaps of the counted notes of the first `n` columns, column after
/// column.
pub open spec fn chart_gaps(columns: Seq<TimingColumn<CalcInfo>>, n: int) -> Seq<Seq<u128>>
    decreases n,
{
    if n <= 0 {
        Seq::empty()
    } else {
        chart_gaps(columns, n - 1) + column_gaps(
            columns[n - 1].notes@,
            columns[n - 1].notes@.len() as int,
        )
    }
}

/// The lists hold these sequences, in this order.
pub open spec fn holds_lists(lists: Seq<Vec<u128>>, model: Seq<Seq<u128>>) -> bool {
    &&& lists.len() == model.len()
    &&& forall|i: int| 0 <= i < lists.len() ==> (#[trigger] lists[i])@ == model[i]
}

/// The square of the gap between two times, computed.
fn gap_squared(a: i64, b: i64) -> (gap: u128)
    ensures
        gap == squared_gap(a, b),
{
    let wide: i128 = (a as i128) - (b as i128);
    let size: u128 = if wide < 0 {
        (-wide) as u128
    } else {
        wide as u128
    };
    assert(size * size == (a - b) * (a - b)) by (nonlinear_arith)
        requires
            size == a - b || size == -(a - b),
    ;
    assert(size * size <= 0xffff_ffff_ffff_ffff * 0xffff_ffff_ffff_ffff) by (nonlinear_arith)
        requires
            0 <= size <= 0xffff_ffff_ffff_ffff,
    ;
    size * size
}

/// The squared gaps in milliseconds from a note to the taps and holds before
/// it in its column, nearest last.
pub fn note_gaps(column: &TimingColumn<CalcInfo>, index: usize) -> (gaps: Vec<u128>)
    requires
        index < column.notes@.len(),
    ensures
        gaps@ == gaps_before(column.notes@, index as int, index as int),
{
    let mut gaps: Vec<u128> = Vec::new();
    let base_time: i64 = column.notes[index].0;
    let mut j: usize = 0;
    while j < index
        invariant
            0 <= j <= index < column.notes@.len(),
            base_time == column.notes@[index as int].0,
            gaps@ == gaps_before(column.notes@, index as int, j as int),
        decreases index - j,
    {
        let other = column.notes[j];
        match other.1 {
            NoteType::Tap | NoteType::Hold => {
                gaps.push(gap_squared(base_time, other.0));
            },
            _ => {},
        }
        j += 1;
    }
    gaps
}

/// For every tap and hold of the chart, column after column, the squared
/// gaps from it to the taps and holds before it in its column. The stress of
/// a note is the sum over its gaps of a million divided by the gap.
pub fn stress_terms(notes: &TimingData<CalcInfo>) -> (terms: Vec<Vec<u128>>)
    ensures
        holds_lists(terms@, chart_gaps(notes.notes@, NOTEFIELD_SIZE as int)),
{
    let mut terms: Vec<Vec<u128>> = Vec::new();
    let mut c: usize = 0;
    while c < NOTEFIELD_SIZE
        invariant
            0 <= c <= NOTEFIELD_SIZE,
            holds_lists(terms@, chart_gaps(notes.notes@, c as int)),
        decreases NOTEFIELD_SIZE - c,
    {
        let column = &notes.notes[c];
        let ghost had = chart_gaps(notes.notes@, c as int);
        let mut index: usize = 0;
        proof {
            assert(had + column_gaps(column.notes@, 0) =~= had);
        }
        while index < column.notes.len()
            invariant
                0 <= index <= column.notes.len(),
                holds_lists(terms@, had + column_gaps(column.notes@, index as int)),
            decreases column.notes.len() - index,
        {
            let ghost model = had + column_gaps(column.notes@, index as int);
            match column.notes[index].1 {
                NoteType::Tap | NoteType::Hold => {
                    let gaps = note_gaps(column, index);
                    terms.push(gaps);
                    proof {
                        let next = had + column_gaps(column.notes@, index as int + 1);
                        assert(next =~= model.push(
                            gaps_before(column.notes@, index as int, index as int),
                        ));
                        assert forall|i: int| 0 <= i < terms@.len() implies (#[trigger] terms@[i])@
                            == next[i] by {
                            if i < model.len() {
                                assert(terms@[i]@ == model[i]);
                            }
                        }
                    }
                },
                _ => {},
            }
            index += 1;
        }
        c += 1;
    }
    terms
}

/// The time at which the middle note `i` of `between` notes between the note
/// `start` and the note after them would be played if they were spaced
/// evenly, less the size of the time at which it stands, is more than a
/// combo allows.
pub open spec fn jack_breaks(notes: Seq<CalcInfo>, start: int, between: int, i: int) -> bool {
    let first = notes[start].0;
    let last = notes[start + 1 + between].0;
    let middle = notes[start + 1 + i].0;
    first + truncated_quotient((i + 1) * (last - first), between + 1) - (if middle < 0 {
        -middle
    } else {
        middle as int
    }) > COMBO_BREAK
}

/// One of the first `n` of the `between` middle notes breaks the jack.
pub open spec fn jack_missed(notes: Seq<CalcInfo>, start: int, between: int, n: int) -> bool {
    exists|i: int| 0 <= i < n && #[trigger] jack_breaks(notes, start, between, i)
}

/// The length of the run after the note `start`: the least number of notes,
/// from `from` on, that cannot be played as a jack between `start` and the
/// note after them; the number of notes after `start` when there is none.
pub open spec fn jack_run_from(notes: Seq<CalcInfo>, start: int, from: int) -> int
    decreases notes.len() - start - from,
{
    if from < 0 || start + 1 + from >= notes.len() {
        from
    } else if jack_missed(notes, start, from, from) {
        from
    } else {
        jack_run_from(notes, start, from + 1)
    }
}

/// The length of the run of notes after the note `start` that can be played
/// as a jack.
pub open spec fn jack_run(notes: Seq<CalcInfo>, start: int) -> int {
    jack_run_from(notes, start, 0)
}

/// The run lengths of the first `n` notes of a column.
pub open spec fn column_runs(notes: Seq<CalcInfo>, n: int) -> Seq<usize>
    decreases n,
{
    if n <= 0 {
        Seq::empty()
    } else {
        column_runs(notes, n - 1).push(jack_run(notes, n - 1) as usize)
    }
}

/// The run lengths of the notes of the first `n` columns, column after
/// column.
pub open spec fn chart_runs(columns: Seq<TimingColumn<CalcInfo>>, n: int) -> Seq<usize>
    decreases n,
{
    if n <= 0 {
        Seq::empty()
    } else {
        chart_runs(columns, n - 1) + column_runs(
            columns[n - 1].notes@,
            columns[n - 1].notes@.len() as int,
        )
    }
}

/// A run is never longer than the notes that follow its start.
pub proof fn lemma_jack_run_bounds(notes: Seq<CalcInfo>, start: int, from: int)
    requires
        0 <= start < notes.len(),
        0 <= from <= notes.len() - start - 1,
    ensures
        from <= jack_run_from(notes, start, from) <= notes.len() - start - 1,
    decreases notes.len() - start - from,
{
    if start + 1 + from < notes.len() && !jack_missed(notes, start, from, from) {
        lemma_jack_run_bounds(notes, start, from + 1);
    }
}

/// Whether the middle note `i` breaks the jack.
fn breaks_jack(column: &TimingColumn<CalcInfo>, start: usize, between: usize, i: usize) -> (r: bool)
    requires
        start + 1 + between < column.notes@.len(),
        i < between,
    ensures
        r == jack_breaks(column.notes@, start as int, between as int, i as int),
{
    let count: usize = column.notes.len();
    let first: i128 = column.notes[start].0 as i128;
    let last: i128 = column.notes[start + 1 + between].0 as i128;
    let middle: i128 = column.notes[start + 1 + i].0 as i128;
    let span: i128 = last - first;
    let steps: u128 = (i as u128) + 1;
    let parts: u128 = (between as u128) + 1;
    let size: u128 = if span < 0 {
        (-span) as u128
    } else {
        span as u128
    };
    assert(steps * size <= 0xffff_ffff_ffff_ffff * 0xffff_ffff_ffff_ffff) by (nonlinear_arith)
        requires
            0 <= steps <= 0xffff_ffff_ffff_ffff,
            0 <= size <= 0xffff_ffff_ffff_ffff,
    ;
    let scaled: u128 = steps * size;
    let share: u128 = scaled / parts;
    proof {
        // the share is no more than the span, since the steps are no more
        // than the parts
        assert(scaled <= parts * size) by (nonlinear_arith)
            requires
                scaled == steps * size,
                steps <= parts,
                size >= 0,
        ;
        vstd::arithmetic::div_mod::lemma_div_is_ordered(
            scaled as int,
            (parts * size) as int,
            parts as int,
        );
        vstd::arithmetic::div_mod::lemma_div_multiples_vanish(size as int, parts as int);
        vstd::arithmetic::mul::lemma_mul_is_commutative(size as int, parts as int);
        assert(share <= size);
        if span < 0 {
            assert((i + 1) * (last - first) == -(scaled as int)) by (nonlinear_arith)
                requires
                    scaled == steps * size,
                    steps == i + 1,
                    size == -(last - first),
            ;
            if scaled == 0 {
                assert(steps * size == 0 && steps > 0 ==> size == 0) by (nonlinear_arith);
            }
        } else {
            assert((i + 1) * (last - first) == scaled as int) by (nonlinear_arith)
                requires
                    scaled == steps * size,
                    steps == i + 1,
                    size == last - first,
            ;
        }
    }
    let even: i128 = if span < 0 {
        -(share as i128)
    } else {
        share as i128
    };
    let standing: i128 = if middle < 0 {
        -middle
    } else {
        middle
    };
    first + even - standing > (COMBO_BREAK as i128)
}

/// Whether one of the `between` notes after the note `start` breaks the jack
/// that ends on the note after them.
fn misses_jack(column: &TimingColumn<CalcInfo>, start: usize, between: usize) -> (r: bool)
    requires
        start + 1 + between < column.notes@.len(),
    ensures
        r == jack_missed(column.notes@, start as int, between as int, between as int),
{
    let mut i: usize = 0;
    while i < between
        invariant
            0 <= i <= between,
            start + 1 + between < column.notes@.len(),
            !jack_missed(column.notes@, start as int, between as int, i as int),
        decreases between - i,
    {
        if breaks_jack(column, start, between, i) {
            return true;
        }
        proof {
            if jack_missed(column.notes@, start as int, between as int, i as int + 1) {
                let k = choose|k: int|
                    0 <= k < i + 1 && #[trigger] jack_breaks(
                        column.notes@,
                        start as int,
                        between as int,
                        k,
                    );
                assert(k < i);
            }
        }
        i += 1;
    }
    false
}

/// The length of the run of notes after the note `start` that can be played
/// as a jack: the notes after `start` are taken one after another as the end
/// of a jack, and the run ends with the first end for which one of the notes
/// between, played evenly spaced, would break the combo.
pub fn run_length(column: &TimingColumn<CalcInfo>, start: usize) -> (run: usize)
    requires
        start < column.notes@.len(),
    ensures
        run == jack_run(column.notes@, start as int),
        run <= column.notes@.len() - start - 1,
{
    let count: usize = column.notes.len();
    let mut total_intermediate: usize = 0;
    proof {
        lemma_jack_run_bounds(column.notes@, start as int, 0);
    }
    while start + 1 + total_intermediate < count
        invariant
            start < count == column.notes@.len(),
            0 <= total_intermediate <= count - start - 1,
            jack_run_from(column.notes@, start as int, total_intermediate as int) == jack_run(
                column.notes@,
                start as int,
            ),
        decreases count - total_intermediate,
    {
        if misses_jack(column, start, total_intermediate) {
            return total_intermediate;
        }
        total_intermediate += 1;
    }
    total_intermediate
}

/// For every note of the chart, column after column, the length of the run
/// of notes after it that can be played as a jack.
pub fn jack_runs(notes: &TimingData<CalcInfo>) -> (runs: Vec<usize>)
    ensures
        runs@ == chart_runs(notes.notes@, NOTEFIELD_SIZE as int),
{
    let mut runs: Vec<usize> = Vec::new();
    let mut c: usize = 0;
    while c < NOTEFIELD_SIZE
        invariant
            0 <= c <= NOTEFIELD_SIZE,
            runs@ == chart_runs(notes.notes@, c as int),
        decreases NOTEFIELD_SIZE - c,
    {
        let column = &notes.notes[c];
        let ghost had = chart_runs(notes.notes@, c as int);
        let mut start: usize = 0;
        proof {
            assert(had + column_runs(column.notes@, 0) =~= had);
        }
        while start < column.notes.len()
            invariant
                0 <= start <= column.notes.len(),
                runs@ == had + column_runs(column.notes@, start as int),
            decreases column.notes.len() - start,
        {
            let run = run_length(column, start);
            runs.push(run);
            proof {
                assert(runs@ =~= had + column_runs(column.notes@, start as int + 1));
            }
            start += 1;
        }
        c += 1;
    }
    runs
}

} // verus!
