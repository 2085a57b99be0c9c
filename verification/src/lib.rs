//! Timing and judgement core of a four-column rhythm game.
//!
//! A chart places notes by measure and by exact fraction of a measure. This
//! library turns such a chart and its tempo changes into per-column timelines
//! in milliseconds, judges key presses and releases against a timeline, and
//! prepares the integer quantities from which a difficulty rating is derived.

use vstd::prelude::*;

pub mod fraction;
pub mod strings;
pub mod notedata;
pub mod tempo;
pub mod timingdata;
pub mod conversion;
pub mod notefield;
pub mod difficulty_calc;
pub mod sm_parser;
pub mod sm_writer;
pub mod simfile;

verus! {

/// Number of playable columns in a standard layout.
pub const NOTEFIELD_SIZE: usize = 4;

} // verus!
