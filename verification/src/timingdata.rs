//! Timelines: for each column the notes of a chart in the order in which they
//! are played, each with its time in milliseconds, and the judgements that a
//! player earns on them.

use crate::fraction::Fraction;
use crate::notedata::NoteType;
use crate::NOTEFIELD_SIZE;
use vstd::prelude::*;

verus! {

/// A part of a sprite sheet, in thousandths of the sheet's width and height.
#[derive(Copy, Clone, Debug, PartialEq, Eq, Structural)]
pub struct Rectangle {
    pub x: i32,
    pub y: i32,
    pub w: i32,
    pub h: i32,
}

impl Rectangle {
    pub fn new(x: i32, y: i32, w: i32, h: i32) -> (r: Self)
        ensures
            r == (Rectangle { x, y, w, h }),
    {
        Rectangle { x, y, w, h }
    }
}

/// The denominator of a position within a measure when it is counted in
/// quarters of a measure.
pub open spec fn beat_division(denominator: int) -> int {
    if denominator % 4 == 0 {
        denominator / 4
    } else if denominator % 2 == 0 {
        denominator / 2
    } else {
        denominator
    }
}

/// The row of the sprite sheet for notes that divide a beat into `division`
/// parts: the sheet has eight rows, the last for every other division.
pub open spec fn snap_row(division: int) -> int {
    if division == 1 {
        0
    } else if division == 2 {
        1
    } else if division == 3 {
        2
    } else if division == 4 {
        3
    } else if division == 6 {
        4
    } else if division == 8 {
        5
    } else if division == 12 {
        6
    } else {
        7
    }
}

/// The sprite of a note: taps and hold heads are coloured by the division of
/// the beat on which they stand, every other note uses its whole sheet.
pub open spec fn sprite_for(row_alignment: Fraction, note_type: NoteType) -> Rectangle {
    match note_type {
        NoteType::Tap | NoteType::Hold => Rectangle {
            x: 0,
            y: (125 * snap_row(beat_division(row_alignment.denom()))) as i32,
            w: 1000,
            h: 125,
        },
        _ => Rectangle { x: 0, y: 0, w: 1000, h: 1000 },
    }
}

/// Picks the sprite of a note from the place of its row in the measure.
pub fn sprite_finder(
    _measure: usize,
    row_alignment: Fraction,
    note_type: NoteType,
    _column: usize,
) -> (sprite: Rectangle)
    ensures
        sprite == sprite_for(row_alignment, note_type),
{
    match note_type {
        NoteType::Tap | NoteType::Hold => {
            let (_, denominator) = row_alignment.contents();
            let division: u64 = if denominator % 4 == 0 {
                denominator / 4
            } else if denominator % 2 == 0 {
                denominator / 2
            } else {
                denominator
            };
            let row: i32 = match division {
                1 => 0,
                2 => 1,
                3 => 2,
                4 => 3,
                6 => 4,
                8 => 5,
                12 => 6,
                _ => 7,
            };
            Rectangle::new(0, 125 * row, 1000, 125)
        },
        _ => Rectangle::new(0, 0, 1000, 1000),
    }
}

/// What can stand in a timeline.
pub trait TimingInfo {

}

/// What can be made from a note of a chart once its time is known.
pub trait LayoutInfo: Sized {
    /// The value made from a time, a sprite and a kind of note.
    spec fn layout(time: i64, sprite: Rectangle, note: NoteType) -> Self;

    fn from_layout(time: i64, sprite: Rectangle, note: NoteType) -> (made: Self)
        ensures
            made == Self::layout(time, sprite, note),
    ;
}

/// A note as the playing field needs it: time, sprite and kind.
#[derive(Copy, Clone, Debug, PartialEq, Eq, Structural)]
pub struct GameplayInfo(pub i64, pub Rectangle, pub NoteType);

impl TimingInfo for GameplayInfo {

}

impl LayoutInfo for GameplayInfo {
    open spec fn layout(time: i64, sprite: Rectangle, note: NoteType) -> Self {
        GameplayInfo(time, sprite, note)
    }

    fn from_layout(time: i64, sprite: Rectangle, note: NoteType) -> (made: Self) {
        GameplayInfo(time, sprite, note)
    }
}

/// A note as the difficulty rating needs it: time and kind.
#[derive(Copy, Clone, Debug, PartialEq, Eq, Structural)]
pub struct CalcInfo(pub i64, pub NoteType);

impl TimingInfo for CalcInfo {

}

impl LayoutInfo for CalcInfo {
    open spec fn layout(time: i64, sprite: Rectangle, note: NoteType) -> Self {
        CalcInfo(time, note)
    }

    fn from_layout(time: i64, _sprite: Rectangle, note: NoteType) -> (made: Self) {
        CalcInfo(time, note)
    }
}

/// How the player did on one note.
#[derive(Copy, Clone, PartialEq, Eq, Debug, Structural)]
pub enum Judgement {
    /// The note was hit; the note's time minus the time of the key press, in
    /// milliseconds.
    Hit(i64),
    /// The note went by without a key press.
    Miss,
    /// A hold ended: `true` when it was held to its end.
    Hold(bool),
    /// A mine went by: `true` when it was hit.
    Mine(bool),
}

impl TimingInfo for Judgement {

}

impl Judgement {
    /// The most points that a note with this judgement could have earned.
    pub open spec fn spec_max_points(self) -> int {
        match self {
            Judgement::Hit(_) | Judgement::Miss => 2,
            Judgement::Hold(_) | Judgement::Mine(_) => 0,
        }
    }

    /// The points of a judgement that do not depend on how well a note was
    /// timed; a hit has none.
    pub open spec fn spec_fixed_points(self) -> Option<int> {
        match self {
            Judgement::Hit(_) => None,
            Judgement::Miss => Some(-8),
            Judgement::Hold(ok) => Some(
                if ok {
                    0
                } else {
                    -6
                },
            ),
            Judgement::Mine(hit) => Some(
                if hit {
                    -8
                } else {
                    0
                },
            ),
        }
    }

    /// The square of a hit's offset, on which alone its points depend; other
    /// judgements have none.
    pub open spec fn spec_deviation_squared(self) -> Option<int> {
        match self {
            Judgement::Hit(offset) => Some(offset * offset),
            _ => None,
        }
    }

    /// The most points that a note with this judgement could have earned: two
    /// for a note that is hit or missed, none for a hold's end or a mine.
    pub fn max_points(self) -> (points: i64)
        ensures
            points == self.spec_max_points(),
    {
        match self {
            Judgement::Hit(_) | Judgement::Miss => 2,
            Judgement::Hold(_) | Judgement::Mine(_) => 0,
        }
    }

    /// The points of a judgement other than a hit.
    pub fn fixed_points(self) -> (points: Option<i64>)
        ensures
            points is Some == self.spec_fixed_points() is Some,
            points matches Some(p) ==> self.spec_fixed_points() == Some(p as int),
    {
        match self {
            Judgement::Hit(_) => None,
            Judgement::Miss => Some(-8),
            Judgement::Hold(ok) => Some(
                if ok {
                    0
                } else {
                    -6
                },
            ),
            Judgement::Mine(hit) => Some(
                if hit {
                    -8
                } else {
                    0
                },
            ),
        }
    }

    /// The square of a hit's offset in milliseconds.
    pub fn deviation_squared(self) -> (squared: Option<u128>)
        ensures
            squared is Some == self.spec_deviation_squared() is Some,
            squared matches Some(s) ==> self.spec_deviation_squared() == Some(s as int),
    {
        match self {
            Judgement::Hit(offset) => {
                let size: u128 = if offset < 0 {
                    (-(offset as i128)) as u128
                } else {
                    offset as u128
                };
                assert(size * size == offset * offset) by (nonlinear_arith)
                    requires
                        size == offset || size == -offset,
                ;
                assert(size * size <= 0x8000_0000_0000_0000 * 0x8000_0000_0000_0000)
                    by (nonlinear_arith)
                    requires
                        0 <= size <= 0x8000_0000_0000_0000,
                ;
                Some(size * size)
            },
            _ => None,
        }
    }

    /// **Early and late count alike.** A hit that is early by some offset has
    /// the same squared deviation as one that is late by it.
    pub proof fn lemma_deviation_symmetric(offset: i64)
        requires
            offset > i64::MIN,
        ensures
            Judgement::Hit((-offset) as i64).spec_deviation_squared() == Judgement::Hit(
                offset,
            ).spec_deviation_squared(),
    {
        assert((-offset) * (-offset) == offset * offset) by (nonlinear_arith);
    }

    /// **A perfect hit deviates least.** The squared deviation of a hit is
    /// zero exactly when its offset is zero.
    pub proof fn lemma_deviation_zero(offset: i64)
        ensures
            (Judgement::Hit(offset).spec_deviation_squared() == Some(0int)) <==> offset == 0,
    {
        assert((offset * offset == 0) <==> offset == 0) by (nonlinear_arith);
    }

    /// **Deviation grows with the offset.** Of two late hits, the later one
    /// has the strictly greater squared deviation.
    pub proof fn lemma_deviation_increasing(near: i64, far: i64)
        requires
            0 <= near < far,
        ensures
            Judgement::Hit(near).spec_deviation_squared()->0 < Judgement::Hit(
                far,
            ).spec_deviation_squared()->0,
    {
        assert(near * near < far * far) by (nonlinear_arith)
            requires
                0 <= near < far,
        ;
    }
}

/// The timeline of one column.
#[derive(Debug, PartialEq, Eq, Clone)]
pub struct TimingColumn<T> where T: TimingInfo {
    pub notes: Vec<T>,
}

impl<T> TimingColumn<T> where T: TimingInfo {
    /// Appends an entry to the timeline.
    pub fn add(&mut self, offset: T)
        ensures
            final(self).notes@ == old(self).notes@.push(offset),
    {
        self.notes.push(offset);
    }

    /// An empty timeline.
    pub fn new() -> (column: Self)
        ensures
            column.notes@ == Seq::<T>::empty(),
    {
        TimingColumn { notes: Vec::new() }
    }
}

/// The sum of the most points that the first `n` judgements could have earned.
pub open spec fn max_points_sum(judgements: Seq<Judgement>, n: int) -> int
    decreases n,
{
    if n <= 0 {
        0
    } else {
        max_points_sum(judgements, n - 1) + judgements[n - 1].spec_max_points()
    }
}

/// The sum of the fixed points of those of the first `n` judgements that are
/// not hits.
pub open spec fn fixed_points_sum(judgements: Seq<Judgement>, n: int) -> int
    decreases n,
{
    if n <= 0 {
        0
    } else {
        fixed_points_sum(judgements, n - 1) + match judgements[n - 1].spec_fixed_points() {
            Some(p) => p,
            None => 0,
        }
    }
}

impl TimingColumn<Judgement> {
    /// The most points that the judged notes of the column could have earned.
    pub fn max_points(&self) -> (points: i128)
        ensures
            points == max_points_sum(self.notes@, self.notes@.len() as int),
    {
        let mut points: i128 = 0;
        let mut i: usize = 0;
        while i < self.notes.len()
            invariant
                0 <= i <= self.notes.len(),
                points == max_points_sum(self.notes@, i as int),
                0 <= points <= 2 * i,
            decreases self.notes.len() - i,
        {
            points = points + (self.notes[i].max_points() as i128);
            i += 1;
        }
        points
    }

    /// The points that the judgements other than hits have cost.
    pub fn fixed_points(&self) -> (points: i128)
        ensures
            points == fixed_points_sum(self.notes@, self.notes@.len() as int),
    {
        let mut points: i128 = 0;
        let mut i: usize = 0;
        while i < self.notes.len()
            invariant
                0 <= i <= self.notes.len(),
                points == fixed_points_sum(self.notes@, i as int),
                -8 * i <= points <= 0,
            decreases self.notes.len() - i,
        {
            let fixed: i64 = match self.notes[i].fixed_points() {
                Some(p) => p,
                None => 0,
            };
            points = points + (fixed as i128);
            i += 1;
        }
        points
    }
}

/// The timelines of a chart, one for each column.
#[derive(Debug, PartialEq, Eq)]
pub struct TimingData<T> where T: TimingInfo {
    pub notes: [TimingColumn<T>; NOTEFIELD_SIZE],
}

/// Builds the columns of an empty set of timelines.
///
/// Calls `array_init::array_init`, which fills an array by calling its
/// argument once for each index; the argument here makes an empty column
/// whatever the index, so every column of the result is empty.
#[verifier::external_body]
fn empty_columns<T: TimingInfo>() -> (columns: [TimingColumn<T>; NOTEFIELD_SIZE])
    ensures
        forall|c: int| 0 <= c < NOTEFIELD_SIZE ==> (#[trigger] columns[c]).notes@ == Seq::<T>::empty(),
{
    array_init::array_init(|_| TimingColumn::new())
}

impl<T> TimingData<T> where T: TimingInfo {
    /// Timelines without a note.
    pub fn new() -> (data: Self)
        ensures
            forall|c: int|
                0 <= c < NOTEFIELD_SIZE ==> (#[trigger] data.notes[c]).notes@ == Seq::<T>::empty(),
    {
        TimingData { notes: empty_columns() }
    }

    /// The timelines in the order of their columns.
    pub fn columns(&self) -> (columns: &[TimingColumn<T>; NOTEFIELD_SIZE])
        ensures
            *columns == self.notes,
    {
        &self.notes
    }
}

/// The most points that the judged notes of the first `n` columns could have
/// earned.
pub open spec fn columns_max_points(columns: Seq<TimingColumn<Judgement>>, n: int) -> int
    decreases n,
{
    if n <= 0 {
        0
    } else {
        columns_max_points(columns, n - 1) + max_points_sum(
            columns[n - 1].notes@,
            columns[n - 1].notes@.len() as int,
        )
    }
}

impl TimingData<Judgement> {
    /// The most points that the judged notes of all columns could have
    /// earned.
    pub fn max_points(&self) -> (points: i128)
        ensures
            points == columns_max_points(self.notes@, NOTEFIELD_SIZE as int),
    {
        let mut points: i128 = 0;
        let mut c: usize = 0;
        while c < NOTEFIELD_SIZE
            invariant
                0 <= c <= NOTEFIELD_SIZE,
                points == columns_max_points(self.notes@, c as int),
                0 <= points <= 2 * c * usize::MAX,
            decreases NOTEFIELD_SIZE - c,
        {
            let length: usize = self.notes[c].notes.len();
            proof {
                lemma_max_points_bounds(self.notes[c as int].notes@, length as int);
            }
            points = points + self.notes[c].max_points();
            c += 1;
        }
        points
    }
}

/// The most points of `n` judgements lie between zero and twice `n`.
pub proof fn lemma_max_points_bounds(judgements: Seq<Judgement>, n: int)
    requires
        0 <= n,
    ensures
        0 <= max_points_sum(judgements, n) <= 2 * n,
    decreases n,
{
    if n > 0 {
        lemma_max_points_bounds(judgements, n - 1);
    }
}

} // verus!
