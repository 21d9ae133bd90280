//! A bidirectional Morse-code codec and a timed playback planner.
//!
//! [`codec::Alphabet`] maps text to Morse notation and back through a
//! configurable symbol table. [`player::Executor`] turns an encoded message
//! into the exact sequence of signal transitions and pauses that realizes the
//! standard Morse timing ratios at a configured speed.

use vstd::prelude::*;

pub mod codec;
pub mod player;
pub mod text;

verus! {

/// The ways configuration or table loading can fail.
#[derive(Debug, PartialEq, Eq, Structural, Clone, Copy)]
pub enum MorseError {
    /// A transmission speed of zero words per minute was requested.
    InvalidWpm,
    /// The symbol-table text could not be parsed.
    TableUnavailable,
}

} // verus!
