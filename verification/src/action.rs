//! The discrete actions a board can execute.

use vstd::prelude::*;

use crate::hex::HexCoord;
use crate::marble::Marble;

verus! {

/// How many ticks a cycle takes to finish.
pub const CYCLE_TIME: u32 = 10;

/// How many ticks a color deletion takes to finish.
pub const DELETE_COLOR_TIME: u32 = 30;

/// How many ticks a blob clear takes to finish.
pub const CLEAR_BLOBS_TIME: u32 = 20;

/// Abstract actions that can happen on the board.
#[derive(Clone, Debug)]
pub enum BoardAction {
    /// Shunt the marble on each listed coordinate along to the next one,
    /// the last wrapping around to the first.  The list must not repeat its
    /// first coordinate at the end; the rotation wraps by itself.
    Cycle(Vec<HexCoord>),
    /// Delete all marbles of the given color.
    DeleteColor(Marble),
    /// Clear all the large enough blobs of marbles, with the given score
    /// multiplier.
    ClearBlobs(u32),
}

impl BoardAction {
    pub open spec fn spec_time(self) -> u32 {
        match self {
            BoardAction::Cycle(_) => CYCLE_TIME,
            BoardAction::DeleteColor(_) => DELETE_COLOR_TIME,
            BoardAction::ClearBlobs(_) => CLEAR_BLOBS_TIME,
        }
    }

    /// How many ticks should it take to finish this action?
    pub fn time(&self) -> (t: u32)
        ensures
            t == self.spec_time(),
    {
        match self {
            BoardAction::Cycle(_) => CYCLE_TIME,
            BoardAction::DeleteColor(_) => DELETE_COLOR_TIME,
            BoardAction::ClearBlobs(_) => CLEAR_BLOBS_TIME,
        }
    }
}

} // verus!
