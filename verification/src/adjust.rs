//! Adjustment factors for the number of beads added to or taken from
//! each visited matchbox when a game ends.

use vstd::prelude::*;

verus! {

/// The three game outcomes an episode can be credited with.
#[allow(non_camel_case_types)]
#[derive(Clone, Copy, Debug, PartialEq, Eq, Structural)]
pub enum Adjust {
    WIN,
    LOSE,
    DRAW,
}

impl Adjust {
    /// The signed bead delta this outcome applies to every visited count.
    pub fn delta(&self) -> (d: i32)
        ensures
            *self == Adjust::WIN ==> d == crate::menace::WIN_REWARD,
            *self == Adjust::LOSE ==> d == crate::menace::LOSE_REWARD,
            *self == Adjust::DRAW ==> d == crate::menace::DRAW_REWARD,
    {
        match self {
            Adjust::WIN => 3,
            Adjust::LOSE => -1,
            Adjust::DRAW => 1,
        }
    }
}

} // verus!
