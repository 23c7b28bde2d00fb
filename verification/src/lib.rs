//! A compact, verified model of the Ballcube board game: a 3x3 grid of ball
//! columns over four sliding gate layers, with a bit-packed board and state
//! representation, a gravity simulator, a win checker, and an exhaustive
//! game-tree solver.

use vstd::prelude::*;

pub mod ball_bitmask;
pub mod bits;
pub mod board;
pub mod builder;
pub mod codec;
pub mod dependency;
pub mod dfs;
pub mod features;
pub mod island;
pub mod move_check;
pub mod rng;
pub mod state;
pub mod win_check;

verus! {

/// Color of balls a player controls.
#[derive(Clone, Copy, PartialEq, Eq, Structural, Debug)]
pub enum Player {
    Gold,
    Silver,
}

impl Player {
    /// The player opposing the current player.
    pub fn other(self) -> (r: Self)
        ensures
            r == self.spec_other(),
    {
        match self {
            Self::Gold => Self::Silver,
            Self::Silver => Self::Gold,
        }
    }

    pub open spec fn spec_other(self) -> Self {
        match self {
            Self::Gold => Self::Silver,
            Self::Silver => Self::Gold,
        }
    }
}

} // verus!
