//! Judging a player against the timelines of a chart.
//!
//! Each column is a small state machine: a cursor on the next note to hit,
//! the end of the hold that is being held, if any, and the judgements earned
//! so far. Time moves it with [`ColumnInfo::advance_time`], keys move it with
//! [`ColumnInfo::handle_key`]. What each step does is written down once, on
//! the plain state [`ColumnState`], and the code is proved to do just that.

use crate::notedata::NoteType;
use crate::timingdata::{GameplayInfo, Judgement, TimingColumn, TimingData};
use crate::NOTEFIELD_SIZE;
use vstd::prelude::*;

verus! {

/// Half the width of the window around a note in which a key press hits it,
/// in milliseconds.
pub const HIT_WINDOW: i64 = 180;

/// What a part of the screen tells the screen after a frame.
#[derive(Copy, Clone, Debug, PartialEq, Eq, Structural)]
pub enum Message {
    /// Nothing to report.
    Idle,
    /// The part is done.
    Finish,
}

/// A note is so far in the past that it can no longer be hit.
pub open spec fn expired(note_time: i64, now: i64) -> bool {
    note_time - now < -HIT_WINDOW
}

/// A key press now hits a note of that time.
pub open spec fn in_window(note_time: i64, now: i64) -> bool {
    -HIT_WINDOW < note_time - now < HIT_WINDOW
}

/// The first note from `from` on that has not expired; the length of the
/// timeline when all have.
pub open spec fn first_live(timeline: Seq<GameplayInfo>, from: int, now: i64) -> int
    decreases timeline.len() - from,
{
    if 0 <= from < timeline.len() && expired(timeline[from].0, now) {
        first_live(timeline, from + 1, now)
    } else {
        from
    }
}

/// The first note from `from` on that is not a hold end; the length of the
/// timeline when all are.
pub open spec fn past_hold_ends(timeline: Seq<GameplayInfo>, from: int) -> int
    decreases timeline.len() - from,
{
    if 0 <= from < timeline.len() && timeline[from].2 == NoteType::HoldEnd {
        past_hold_ends(timeline, from + 1)
    } else {
        from
    }
}

/// The judgements of a note that went by without a key press: a tap is
/// missed, a hold is missed and failed, a mine is avoided, any other note is
/// not judged.
pub open spec fn miss_judgements(note: NoteType) -> Seq<Judgement> {
    match note {
        NoteType::Tap => seq![Judgement::Miss],
        NoteType::Hold => seq![Judgement::Miss, Judgement::Hold(false)],
        NoteType::Mine => seq![Judgement::Mine(false)],
        _ => Seq::empty(),
    }
}

/// The judgements of the notes from `from` up to `to` when all of them go by
/// without a key press.
pub open spec fn missed_between(timeline: Seq<GameplayInfo>, from: int, to: int) -> Seq<Judgement>
    decreases to - from,
{
    if to <= from {
        Seq::empty()
    } else {
        missed_between(timeline, from, to - 1) + miss_judgements(timeline[to - 1].2)
    }
}

/// There is a tap or a hold among the notes from `from` up to `to`.
pub open spec fn any_missed(timeline: Seq<GameplayInfo>, from: int, to: int) -> bool {
    exists|i: int|
        from <= i < to && ((#[trigger] timeline[i]).2 == NoteType::Tap || timeline[i].2
            == NoteType::Hold)
}

/// The state of one column during play.
pub struct ColumnState {
    /// The index of the next note to hit.
    pub cursor: int,
    /// The time at which the hold that is being held ends.
    pub hold: Option<i64>,
    /// The notes of the column.
    pub timeline: Seq<GameplayInfo>,
    /// The judgements earned so far, oldest first.
    pub judgements: Seq<Judgement>,
}

impl ColumnState {
    /// The cursor stands on a note or at the end of the timeline.
    pub open spec fn wf(self) -> bool {
        0 <= self.cursor <= self.timeline.len()
    }

    /// The hold that is being held is judged as held once its end is reached.
    pub open spec fn settle_hold(self, now: i64) -> ColumnState {
        match self.hold {
            Some(end) if end <= now => ColumnState {
                hold: None,
                judgements: self.judgements.push(Judgement::Hold(true)),
                ..self
            },
            _ => self,
        }
    }

    /// The notes at the cursor that have expired are judged as missed and the
    /// cursor moves past them, then on past any hold ends.
    pub open spec fn update_misses(self, now: i64) -> ColumnState {
        let live = first_live(self.timeline, self.cursor, now);
        ColumnState {
            cursor: past_hold_ends(self.timeline, live),
            judgements: self.judgements + missed_between(self.timeline, self.cursor, live),
            ..self
        }
    }

    /// A tap or a hold is missed when time moves to `now`.
    pub open spec fn misses(self, now: i64) -> bool {
        any_missed(self.timeline, self.cursor, first_live(self.timeline, self.cursor, now))
    }

    /// What a tick of the clock does: the hold is settled, then the misses
    /// are taken.
    pub open spec fn advance_time(self, now: i64) -> ColumnState {
        self.settle_hold(now).update_misses(now)
    }

    /// A key press now meets a note.
    pub open spec fn can_hit(self, now: i64) -> bool {
        0 <= self.cursor < self.timeline.len() && in_window(self.timeline[self.cursor].0, now)
    }

    /// What a key press does. Outside the window of the next note it does
    /// nothing. Inside it, a tap is hit; a hold is hit and held until the
    /// time of the entry after it, on which the cursor comes to stand; a mine
    /// goes off; any other note is passed unjudged. But for a hold, the
    /// cursor moves on past any hold ends.
    pub open spec fn press(self, now: i64) -> ColumnState {
        if !self.can_hit(now) {
            self
        } else {
            let note = self.timeline[self.cursor];
            let offset = (note.0 - now) as i64;
            match note.2 {
                NoteType::Tap => ColumnState {
                    cursor: past_hold_ends(self.timeline, self.cursor + 1),
                    judgements: self.judgements.push(Judgement::Hit(offset)),
                    ..self
                },
                NoteType::Hold => ColumnState {
                    cursor: self.cursor + 1,
                    hold: if self.cursor + 1 < self.timeline.len() {
                        Some(self.timeline[self.cursor + 1].0)
                    } else {
                        None
                    },
                    judgements: self.judgements.push(Judgement::Hit(offset)),
                    ..self
                },
                NoteType::Mine => ColumnState {
                    cursor: past_hold_ends(self.timeline, self.cursor + 1),
                    judgements: self.judgements.push(Judgement::Mine(true)),
                    ..self
                },
                _ => ColumnState { cursor: past_hold_ends(self.timeline, self.cursor + 1), ..self },
            }
        }
    }

    /// What a key release does: the hold that is being held, if any, ends,
    /// held when its end is reached and failed when it is not.
    pub open spec fn release(self, now: i64) -> ColumnState {
        match self.hold {
            Some(end) => ColumnState {
                hold: None,
                judgements: self.judgements.push(Judgement::Hold(now >= end)),
                ..self
            },
            None => self,
        }
    }

    /// What a key event does.
    pub open spec fn handle_key(self, now: i64, pressed: bool) -> ColumnState {
        if pressed {
            self.press(now)
        } else {
            self.release(now)
        }
    }

    /// The judgement that a key press earns: a hit for a tap or a hold in
    /// the window, a mine that goes off, and nothing otherwise.
    pub open spec fn press_earns(self, now: i64) -> Option<Judgement> {
        if !self.can_hit(now) {
            None
        } else {
            let note = self.timeline[self.cursor];
            match note.2 {
                NoteType::Tap | NoteType::Hold => Some(Judgement::Hit((note.0 - now) as i64)),
                NoteType::Mine => Some(Judgement::Mine(true)),
                _ => None,
            }
        }
    }

    /// The judgement that a key release earns: that of the hold that is
    /// being held, if one is.
    pub open spec fn release_earns(self, now: i64) -> Option<Judgement> {
        match self.hold {
            Some(end) => Some(Judgement::Hold(now >= end)),
            None => None,
        }
    }

    /// The judgement that a key event earns.
    pub open spec fn earns(self, now: i64, pressed: bool) -> Option<Judgement> {
        if pressed {
            self.press_earns(now)
        } else {
            self.release_earns(now)
        }
    }

    /// The latest judgement, if there is one.
    pub open spec fn latest(self) -> Option<Judgement> {
        if self.judgements.len() > 0 {
            Some(self.judgements.last())
        } else {
            None
        }
    }

    /// The column is done: no note is left and no hold is being held.
    pub open spec fn finished(self) -> bool {
        self.cursor == self.timeline.len() && self.hold is None
    }

    /// `later` can come after `self` in one play of the column: the notes
    /// are the same, the cursor has not moved back, and the judgements of
    /// `self` are still there, in their order, at the start of those of
    /// `later`.
    pub open spec fn precedes(self, later: ColumnState) -> bool {
        &&& later.timeline == self.timeline
        &&& self.cursor <= later.cursor
        &&& self.judgements.len() <= later.judgements.len()
        &&& later.judgements.subrange(0, self.judgements.len() as int) == self.judgements
    }
}

/// The first live note from a place in the timeline is at or after that
/// place and within the timeline.
pub proof fn lemma_first_live_bounds(timeline: Seq<GameplayInfo>, from: int, now: i64)
    requires
        0 <= from <= timeline.len(),
    ensures
        from <= first_live(timeline, from, now) <= timeline.len(),
        first_live(timeline, from, now) < timeline.len() ==> !expired(
            timeline[first_live(timeline, from, now)].0,
            now,
        ),
        forall|i: int|
            from <= i < first_live(timeline, from, now) ==> expired((#[trigger] timeline[i]).0, now),
    decreases timeline.len() - from,
{
    if from < timeline.len() && expired(timeline[from].0, now) {
        lemma_first_live_bounds(timeline, from + 1, now);
    }
}

/// Skipping hold ends from a place in the timeline ends at or after that
/// place, within the timeline, and not on a hold end.
pub proof fn lemma_past_hold_ends_bounds(timeline: Seq<GameplayInfo>, from: int)
    requires
        0 <= from <= timeline.len(),
    ensures
        from <= past_hold_ends(timeline, from) <= timeline.len(),
        past_hold_ends(timeline, from) < timeline.len() ==> timeline[past_hold_ends(
            timeline,
            from,
        )].2 != NoteType::HoldEnd,
        forall|i: int|
            from <= i < past_hold_ends(timeline, from) ==> (#[trigger] timeline[i]).2
                == NoteType::HoldEnd,
    decreases timeline.len() - from,
{
    if from < timeline.len() && timeline[from].2 == NoteType::HoldEnd {
        lemma_past_hold_ends_bounds(timeline, from + 1);
    }
}

/// **The cursor never moves back and the history only grows.** Whatever the
/// time and whatever the key, after a tick, a press or a release the column
/// is well formed, has the same notes, a cursor that is not before the old
/// one, and all the old judgements in front of the new ones.
pub proof fn lemma_steps_only_go_forward(state: ColumnState, now: i64, pressed: bool)
    requires
        state.wf(),
    ensures
        state.advance_time(now).wf(),
        state.precedes(state.advance_time(now)),
        state.handle_key(now, pressed).wf(),
        state.precedes(state.handle_key(now, pressed)),
{
    let live = first_live(state.timeline, state.cursor, now);
    lemma_first_live_bounds(state.timeline, state.cursor, now);
    lemma_past_hold_ends_bounds(state.timeline, live);
    let ticked = state.advance_time(now);
    assert(ticked.judgements.subrange(0, state.judgements.len() as int) =~= state.judgements);
    let keyed = state.handle_key(now, pressed);
    if state.cursor < state.timeline.len() {
        lemma_past_hold_ends_bounds(state.timeline, state.cursor + 1);
    }
    assert(keyed.judgements.subrange(0, state.judgements.len() as int) =~= state.judgements);
}

/// **After a tick no note at the cursor is overdue.** Once time has moved
/// to `now`, the cursor stands at the end of the timeline or on a note that
/// is neither a hold end nor expired, provided the notes are in the order of
/// their times.
pub proof fn lemma_tick_leaves_live_note(state: ColumnState, now: i64)
    requires
        state.wf(),
        forall|i: int, j: int|
            0 <= i <= j < state.timeline.len() ==> state.timeline[i].0 <= state.timeline[j].0,
    ensures
        state.advance_time(now).cursor == state.timeline.len() || ({
            let note = state.timeline[state.advance_time(now).cursor];
            note.2 != NoteType::HoldEnd && !expired(note.0, now)
        }),
{
    let live = first_live(state.timeline, state.cursor, now);
    lemma_first_live_bounds(state.timeline, state.cursor, now);
    lemma_past_hold_ends_bounds(state.timeline, live);
}

/// The play of one column: its notes, the cursor on the next note to hit, the
/// hold that is being held, and the judgements so far.
#[derive(Debug, PartialEq, Eq)]
pub struct ColumnInfo {
    next_to_hit: usize,
    active_hold: Option<i64>,
    notes: TimingColumn<GameplayInfo>,
    judgement_list: TimingColumn<Judgement>,
}

impl ColumnInfo {
    /// The state of the column.
    pub closed spec fn view(&self) -> ColumnState {
        ColumnState {
            cursor: self.next_to_hit as int,
            hold: self.active_hold,
            timeline: self.notes.notes@,
            judgements: self.judgement_list.notes@,
        }
    }

    /// A column at the start of play: the cursor on the first note, no hold,
    /// no judgement.
    pub fn new(notes: TimingColumn<GameplayInfo>) -> (column: Self)
        ensures
            column@ == (ColumnState {
                cursor: 0,
                hold: None,
                timeline: notes.notes@,
                judgements: Seq::empty(),
            }),
    {
        ColumnInfo { next_to_hit: 0, active_hold: None, notes, judgement_list: TimingColumn::new() }
    }

    /// The index of the next note to hit.
    pub fn next_to_hit(&self) -> (cursor: usize)
        ensures
            cursor == self@.cursor,
    {
        self.next_to_hit
    }

    /// The time at which the hold that is being held ends.
    pub fn active_hold(&self) -> (hold: Option<i64>)
        ensures
            hold == self@.hold,
    {
        self.active_hold
    }

    /// The notes of the column.
    pub fn notes(&self) -> (notes: &TimingColumn<GameplayInfo>)
        ensures
            notes.notes@ == self@.timeline,
    {
        &self.notes
    }

    /// The judgements so far, oldest first.
    pub fn judgement_list(&self) -> (judgements: &TimingColumn<Judgement>)
        ensures
            judgements.notes@ == self@.judgements,
    {
        &self.judgement_list
    }

    /// Whether no note is left and no hold is being held.
    pub fn is_finished(&self) -> (done: bool)
        ensures
            done == self@.finished(),
    {
        self.next_to_hit == self.notes.notes.len() && self.active_hold.is_none()
    }

    /// Whether a note of that time can no longer be hit.
    fn is_expired(note_time: i64, now: i64) -> (r: bool)
        ensures
            r == expired(note_time, now),
    {
        (note_time as i128) - (now as i128) < -(HIT_WINDOW as i128)
    }

    /// Moves the cursor past any hold ends.
    fn skip_hold_ends(&mut self)
        ensures
            final(self)@ == (ColumnState {
                cursor: past_hold_ends(old(self)@.timeline, old(self)@.cursor),
                ..old(self)@
            }),
    {
        while self.next_to_hit < self.notes.notes.len() && self.notes.notes[self.next_to_hit].2
            == NoteType::HoldEnd
            invariant
                self.notes == old(self).notes,
                self.judgement_list == old(self).judgement_list,
                self.active_hold == old(self).active_hold,
                old(self).next_to_hit <= self.next_to_hit,
                past_hold_ends(self.notes.notes@, self.next_to_hit as int) == past_hold_ends(
                    self.notes.notes@,
                    old(self).next_to_hit as int,
                ),
            decreases self.notes.notes.len() - self.next_to_hit,
        {
            self.next_to_hit += 1;
        }
    }

    /// Judges the notes that have gone by without a key press and moves the
    /// cursor to the next note that can still be hit. Says whether a tap or a
    /// hold was missed.
    pub fn update_misses(&mut self, time: i64) -> (missed_judge: bool)
        ensures
            final(self)@ == old(self)@.update_misses(time),
            missed_judge == old(self)@.misses(time),
    {
        let mut missed_judge = false;
        let ghost timeline = self.notes.notes@;
        let ghost start = self.next_to_hit as int;
        let ghost live = first_live(timeline, start, time);
        proof {
            if start <= timeline.len() {
                lemma_first_live_bounds(timeline, start, time);
            }
        }
        while self.next_to_hit < self.notes.notes.len() && Self::is_expired(
            self.notes.notes[self.next_to_hit].0,
            time,
        )
            invariant
                start <= self.next_to_hit <= live,
                timeline == self.notes.notes@,
                self.notes == old(self).notes,
                self.active_hold == old(self).active_hold,
                start == old(self).next_to_hit,
                live == first_live(timeline, start, time),
                live == first_live(timeline, self.next_to_hit as int, time),
                self.judgement_list.notes@ == old(self).judgement_list.notes@ + missed_between(
                    timeline,
                    start,
                    self.next_to_hit as int,
                ),
                missed_judge == any_missed(timeline, start, self.next_to_hit as int),
            decreases timeline.len() - self.next_to_hit,
        {
            let note = self.notes.notes[self.next_to_hit].2;
            let ghost had = self.judgement_list.notes@;
            let ghost at = self.next_to_hit as int;
            match note {
                NoteType::Tap => {
                    missed_judge = true;
                    self.judgement_list.add(Judgement::Miss);
                },
                NoteType::Hold => {
                    missed_judge = true;
                    self.judgement_list.add(Judgement::Miss);
                    self.judgement_list.add(Judgement::Hold(false));
                },
                NoteType::Mine => {
                    self.judgement_list.add(Judgement::Mine(false));
                },
                _ => {},
            }
            self.next_to_hit += 1;
            proof {
                lemma_first_live_bounds(timeline, at + 1, time);
                assert(self.judgement_list.notes@ =~= had + miss_judgements(note));
                assert(self.judgement_list.notes@ =~= old(self).judgement_list.notes@
                    + missed_between(timeline, start, at + 1));
                if any_missed(timeline, start, at + 1) {
                    let i = choose|i: int|
                        start <= i < at + 1 && ((#[trigger] timeline[i]).2 == NoteType::Tap
                            || timeline[i].2 == NoteType::Hold);
                    if i < at {
                        assert(any_missed(timeline, start, at));
                    }
                }
                if any_missed(timeline, start, at) {
                    let i = choose|i: int|
                        start <= i < at && ((#[trigger] timeline[i]).2 == NoteType::Tap
                            || timeline[i].2 == NoteType::Hold);
                    assert(start <= i < at + 1);
                }
                if note == NoteType::Tap || note == NoteType::Hold {
                    assert(timeline[at].2 == note);
                }
            }
        }
        self.skip_hold_ends();
        missed_judge
    }

    /// Moves the column to the time `now`: the hold that is being held is
    /// judged as held once its end is reached, then the notes that have gone
    /// by are judged as missed. Says whether a tap or a hold was missed.
    pub fn advance_time(&mut self, now: i64) -> (missed: bool)
        ensures
            final(self)@ == old(self)@.advance_time(now),
            missed == old(self)@.settle_hold(now).misses(now),
    {
        if let Some(end) = self.active_hold {
            if end <= now {
                self.judgement_list.add(Judgement::Hold(true));
                self.active_hold = None;
            }
        }
        self.update_misses(now)
    }

    /// Judges a key press at the time `time` and returns the judgement that
    /// it earns, if it earns one.
    pub fn handle_hit(&mut self, time: i64) -> (earned: Option<Judgement>)
        ensures
            final(self)@ == old(self)@.press(time),
            earned == old(self)@.press_earns(time),
    {
        if self.next_to_hit < self.notes.notes.len() {
            let note = self.notes.notes[self.next_to_hit];
            let offset: i128 = (note.0 as i128) - (time as i128);
            if -(HIT_WINDOW as i128) < offset && offset < (HIT_WINDOW as i128) {
                match note.2 {
                    NoteType::Tap => {
                        let judge = Judgement::Hit(offset as i64);
                        self.judgement_list.add(judge);
                        self.next_to_hit += 1;
                        self.skip_hold_ends();
                        return Some(judge);
                    },
                    NoteType::Hold => {
                        let judge = Judgement::Hit(offset as i64);
                        self.judgement_list.add(judge);
                        self.next_to_hit += 1;
                        self.active_hold = if self.next_to_hit < self.notes.notes.len() {
                            Some(self.notes.notes[self.next_to_hit].0)
                        } else {
                            None
                        };
                        return Some(judge);
                    },
                    NoteType::Mine => {
                        self.judgement_list.add(Judgement::Mine(true));
                        self.next_to_hit += 1;
                        self.skip_hold_ends();
                        return Some(Judgement::Mine(true));
                    },
                    _ => {
                        self.next_to_hit += 1;
                        self.skip_hold_ends();
                    },
                }
            }
        }
        None
    }

    /// The latest judgement of the column, if there is one.
    pub fn latest_judgement(&self) -> (latest: Option<Judgement>)
        ensures
            latest == self@.latest(),
    {
        let count = self.judgement_list.notes.len();
        if count > 0 {
            Some(self.judgement_list.notes[count - 1])
        } else {
            None
        }
    }

    /// Judges a key event at the time `now`: a press as
    /// [`ColumnInfo::handle_hit`] does; a release ends the hold that is being
    /// held, as held when its end is reached and as failed when it is not.
    /// Returns the judgement that the event earns, if it earns one.
    pub fn handle_key(&mut self, now: i64, pressed: bool) -> (earned: Option<Judgement>)
        ensures
            final(self)@ == old(self)@.handle_key(now, pressed),
            earned == old(self)@.earns(now, pressed),
    {
        if pressed {
            self.handle_hit(now)
        } else {
            match self.active_hold {
                Some(end) => {
                    let judge = Judgement::Hold(now >= end);
                    self.judgement_list.add(judge);
                    self.active_hold = None;
                    Some(judge)
                },
                None => None,
            }
        }
    }
}

/// The judgement that the field shows after a new one: hits and misses are
/// shown, the end of a hold and a mine leave the old one standing.
pub open spec fn shown_after(shown: Option<Judgement>, judge: Judgement) -> Option<Judgement> {
    match judge {
        Judgement::Hit(_) | Judgement::Miss => Some(judge),
        _ => shown,
    }
}

/// The state of a playing field: its columns and the judgement it shows.
pub struct FieldState {
    pub columns: Seq<ColumnState>,
    pub last_judgement: Option<Judgement>,
}

impl FieldState {
    /// Column `c` misses a tap or a hold when time moves to `now`.
    pub open spec fn column_misses(self, c: int, now: i64) -> bool {
        self.columns[c].settle_hold(now).misses(now)
    }

    /// One of the first `n` columns misses a tap or a hold when time moves
    /// to `now`.
    pub open spec fn misses(self, n: int, now: i64) -> bool {
        exists|c: int| 0 <= c < n && #[trigger] self.column_misses(c, now)
    }

    /// What a frame does. Before the chart has started there is no time and
    /// nothing happens. Otherwise every column moves to the time, and a miss
    /// in any of them is shown.
    pub open spec fn run(self, time: Option<i64>) -> FieldState {
        match time {
            None => self,
            Some(now) => FieldState {
                columns: Seq::new(self.columns.len(), |c: int| self.columns[c].advance_time(now)),
                last_judgement: if self.misses(self.columns.len() as int, now) {
                    Some(Judgement::Miss)
                } else {
                    self.last_judgement
                },
            },
        }
    }

    /// Every column is done.
    pub open spec fn finished(self) -> bool {
        forall|c: int| 0 <= c < self.columns.len() ==> (#[trigger] self.columns[c]).finished()
    }

    /// What a key event does. A key that belongs to no column, or one that
    /// comes before the chart has started, does nothing. Otherwise the
    /// column handles it, and the judgement that the event earns, if it is a
    /// hit, is shown.
    pub open spec fn handle_event(self, column: int, time: Option<i64>, key_down: bool) -> FieldState {
        match time {
            Some(now) if 0 <= column < self.columns.len() => FieldState {
                columns: self.columns.update(
                    column,
                    self.columns[column].handle_key(now, key_down),
                ),
                last_judgement: match self.columns[column].earns(now, key_down) {
                    Some(judge) => shown_after(self.last_judgement, judge),
                    None => self.last_judgement,
                },
            },
            _ => self,
        }
    }
}

/// A copy of a timeline of judgements.
pub fn copy_judgements(column: &TimingColumn<Judgement>) -> (copy: TimingColumn<Judgement>)
    ensures
        copy.notes@ == column.notes@,
{
    let mut copy: TimingColumn<Judgement> = TimingColumn::new();
    let mut i: usize = 0;
    while i < column.notes.len()
        invariant
            0 <= i <= column.notes.len(),
            copy.notes@ == column.notes@.take(i as int),
        decreases column.notes.len() - i,
    {
        copy.add(column.notes[i]);
        proof {
            assert(copy.notes@ =~= column.notes@.take(i as int + 1));
        }
        i += 1;
    }
    proof {
        assert(column.notes@.take(i as int) =~= column.notes@);
    }
    copy
}

/// A copy of a timeline of notes.
pub fn copy_notes(column: &TimingColumn<GameplayInfo>) -> (copy: TimingColumn<GameplayInfo>)
    ensures
        copy.notes@ == column.notes@,
{
    let mut copy: TimingColumn<GameplayInfo> = TimingColumn::new();
    let mut i: usize = 0;
    while i < column.notes.len()
        invariant
            0 <= i <= column.notes.len(),
            copy.notes@ == column.notes@.take(i as int),
        decreases column.notes.len() - i,
    {
        copy.add(column.notes[i]);
        proof {
            assert(copy.notes@ =~= column.notes@.take(i as int + 1));
        }
        i += 1;
    }
    proof {
        assert(column.notes@.take(i as int) =~= column.notes@);
    }
    copy
}

/// The playing field of one player: the columns of a chart in play and the
/// judgement that is on show.
#[derive(Debug, PartialEq, Eq)]
pub struct Notefield {
    column_info: [ColumnInfo; NOTEFIELD_SIZE],
    last_judgement: Option<Judgement>,
}

impl Notefield {
    /// The state of the field.
    pub closed spec fn view(&self) -> FieldState {
        FieldState {
            columns: Seq::new(NOTEFIELD_SIZE as nat, |c: int| self.column_info[c]@),
            last_judgement: self.last_judgement,
        }
    }

    /// A field at the start of play: every column has the notes of its
    /// timeline, the cursor on the first, no hold and no judgement; no
    /// judgement is on show.
    pub fn new(notes: &TimingData<GameplayInfo>) -> (field: Self)
        ensures
            field@.columns.len() == NOTEFIELD_SIZE,
            field@.last_judgement is None,
            forall|c: int|
                0 <= c < NOTEFIELD_SIZE ==> #[trigger] field@.columns[c] == (ColumnState {
                    cursor: 0,
                    hold: None,
                    timeline: notes.notes[c].notes@,
                    judgements: Seq::empty(),
                }),
    {
        Notefield {
            column_info: [
                ColumnInfo::new(copy_notes(&notes.notes[0])),
                ColumnInfo::new(copy_notes(&notes.notes[1])),
                ColumnInfo::new(copy_notes(&notes.notes[2])),
                ColumnInfo::new(copy_notes(&notes.notes[3])),
            ],
            last_judgement: None,
        }
    }

    /// Puts a judgement on show if it is a hit or a miss.
    fn handle_judgement(&mut self, judge: Judgement)
        ensures
            final(self).column_info == old(self).column_info,
            final(self).last_judgement == shown_after(old(self).last_judgement, judge),
    {
        match judge {
            Judgement::Hit(_) | Judgement::Miss => {
                self.last_judgement = Some(judge);
            },
            _ => {},
        }
    }

    /// One frame of play at the time `time`, which is `None` until the chart
    /// has started: every column is moved to the time, a miss is put on
    /// show, and the field reports `Finish` when every column is done.
    pub fn run(&mut self, time: Option<i64>) -> (message: Message)
        ensures
            final(self)@ == old(self)@.run(time),
            message == if time is Some && final(self)@.finished() {
                Message::Finish
            } else {
                Message::Idle
            },
    {
        let time = match time {
            Some(time) => time,
            None => {
                return Message::Idle;
            },
        };
        let mut completed = true;
        let mut c: usize = 0;
        while c < NOTEFIELD_SIZE
            invariant
                0 <= c <= NOTEFIELD_SIZE,
                forall|k: int|
                    0 <= k < c ==> (#[trigger] self.column_info[k])@ == old(
                        self,
                    ).column_info[k]@.advance_time(time),
                forall|k: int|
                    c <= k < NOTEFIELD_SIZE ==> #[trigger] self.column_info[k] == old(
                        self,
                    ).column_info[k],
                self.last_judgement == if old(self)@.misses(c as int, time) {
                    Some(Judgement::Miss)
                } else {
                    old(self).last_judgement
                },
                completed == forall|k: int|
                    0 <= k < c ==> (#[trigger] self.column_info[k])@.finished(),
            decreases NOTEFIELD_SIZE - c,
        {
            let ghost earlier = *self;
            let missed = self.column_info[c].advance_time(time);
            if missed {
                self.handle_judgement(Judgement::Miss);
            }
            let done = self.column_info[c].is_finished();
            completed = completed && done;
            proof {
                assert(old(self)@.columns[c as int] == old(self).column_info[c as int]@);
                assert(missed == old(self)@.column_misses(c as int, time));
                if old(self)@.misses(c as int + 1, time) {
                    let k = choose|k: int|
                        0 <= k < c + 1 && #[trigger] old(self)@.column_misses(k, time);
                    if k < c {
                        assert(old(self)@.misses(c as int, time));
                    }
                }
                if old(self)@.misses(c as int, time) {
                    let k = choose|k: int| 0 <= k < c && #[trigger] old(self)@.column_misses(k, time);
                    assert(0 <= k < c + 1);
                }
                assert forall|k: int| 0 <= k < c + 1 implies (#[trigger] self.column_info[k])@
                    == old(self).column_info[k]@.advance_time(time) by {
                    if k < c {
                        assert(self.column_info[k] == earlier.column_info[k]);
                    }
                }
                if completed {
                    assert forall|k: int| 0 <= k < c + 1 implies (#[trigger] self.column_info[k])@.finished() by {
                        if k < c {
                            assert(self.column_info[k] == earlier.column_info[k]);
                        }
                    }
                } else if done {
                    let k = choose|k: int|
                        0 <= k < c && !(#[trigger] earlier.column_info[k])@.finished();
                    assert(self.column_info[k] == earlier.column_info[k]);
                }
            }
            c += 1;
        }
        proof {
            assert(self@.columns =~= old(self)@.run(Some(time)).columns);
            assert(completed == self@.finished()) by {
                if completed {
                    assert forall|k: int| 0 <= k < self@.columns.len() implies (
                    #[trigger] self@.columns[k]).finished() by {
                        assert(self.column_info[k]@.finished());
                    }
                } else {
                    let k = choose|k: int|
                        0 <= k < NOTEFIELD_SIZE && !(#[trigger] self.column_info[k])@.finished();
                    assert(!self@.columns[k].finished());
                }
            }
        }
        if completed {
            Message::Finish
        } else {
            Message::Idle
        }
    }

    /// A key of column `column` went down or up at the time `time`, which is
    /// `None` until the chart has started.
    pub fn handle_event(&mut self, column: usize, time: Option<i64>, key_down: bool)
        ensures
            final(self)@ == old(self)@.handle_event(column as int, time, key_down),
    {
        if column >= NOTEFIELD_SIZE {
            return ;
        }
        let time = match time {
            Some(time) => time,
            None => {
                return ;
            },
        };
        let ghost before = self.column_info;
        let earned = self.column_info[column].handle_key(time, key_down);
        if let Some(value) = earned {
            self.handle_judgement(value);
        }
        proof {
            assert(old(self)@.columns[column as int] == before[column as int]@);
            assert(self@.columns =~= old(self)@.columns.update(
                column as int,
                before[column as int]@.handle_key(time, key_down),
            ));
        }
    }

    /// The judgement that is on show.
    pub fn last_judgement(&self) -> (shown: Option<Judgement>)
        ensures
            shown == self@.last_judgement,
    {
        self.last_judgement
    }

    /// The play of column `c`.
    pub fn column(&self, c: usize) -> (column: &ColumnInfo)
        requires
            c < NOTEFIELD_SIZE,
        ensures
            column@ == self@.columns[c as int],
    {
        &self.column_info[c]
    }

    /// The record of the play: a copy of the judgements of each column.
    pub fn finish(&self) -> (replay: Vec<TimingColumn<Judgement>>)
        ensures
            replay@.len() == NOTEFIELD_SIZE,
            forall|c: int|
                0 <= c < NOTEFIELD_SIZE ==> (#[trigger] replay@[c]).notes@
                    == self@.columns[c].judgements,
    {
        let mut replay: Vec<TimingColumn<Judgement>> = Vec::new();
        let mut c: usize = 0;
        while c < NOTEFIELD_SIZE
            invariant
                0 <= c <= NOTEFIELD_SIZE,
                replay@.len() == c,
                forall|k: int|
                    0 <= k < c ==> (#[trigger] replay@[k]).notes@ == self@.columns[k].judgements,
            decreases NOTEFIELD_SIZE - c,
        {
            let copy = copy_judgements(self.column_info[c].judgement_list());
            replay.push(copy);
            c += 1;
        }
        replay
    }
}

/// The whole milliseconds of a span of time that is given as whole seconds
/// and the milliseconds of the second that has begun; the greatest time there
/// is when the span is longer than that.
pub open spec fn span_milliseconds(seconds: u64, subsec_millis: u32) -> int {
    if seconds * 1000 + subsec_millis <= i64::MAX {
        seconds * 1000 + subsec_millis
    } else {
        i64::MAX as int
    }
}

/// The time of the chart in milliseconds when the clock stands a span of
/// time away from the start of the chart: after it, or before it during the
/// countdown.
pub open spec fn chart_time(before_start: bool, seconds: u64, subsec_millis: u32) -> int {
    if before_start {
        -span_milliseconds(seconds, subsec_millis)
    } else {
        span_milliseconds(seconds, subsec_millis)
    }
}

/// A span of time in whole milliseconds.
pub fn to_milliseconds(seconds: u64, subsec_millis: u32) -> (ms: i64)
    ensures
        ms == span_milliseconds(seconds, subsec_millis),
{
    let wide: u128 = (seconds as u128) * 1000 + (subsec_millis as u128);
    if wide <= i64::MAX as u128 {
        wide as i64
    } else {
        i64::MAX
    }
}

/// The time of the chart when the clock stands `seconds` and
/// `subsec_millis` away from the start of the chart, before it if
/// `before_start` says so.
pub fn start_time_to_milliseconds(before_start: bool, seconds: u64, subsec_millis: u32) -> (now:
    i64)
    ensures
        now == chart_time(before_start, seconds, subsec_millis),
{
    let span = to_milliseconds(seconds, subsec_millis);
    if before_start {
        -span
    } else {
        span
    }
}

} // verus!
