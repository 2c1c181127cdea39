//! Clue cells of the isowatari puzzle.

use vstd::prelude::*;

verus! {

/// One clue cell: no clue, a white circle, or a black circle.
#[derive(Clone, Copy, Debug, PartialEq, Eq, Structural)]
pub enum IsowatariClue {
    Empty,
    White,
    Black,
}

} // verus!
