//! Clue dots of the kurarin puzzle and their digit encoding.

use vstd::prelude::*;

verus! {

/// One clue dot: absent, or demanding fewer, equal, or more black cells
/// than white ones around it.
#[derive(Clone, Copy, PartialEq, Eq, Debug, Structural)]
pub enum KurarinClue {
    Empty,
    White,
    Gray,
    Black,
}

impl KurarinClue {
    /// The digit a clue is stored as in the puzzle data.
    pub open spec fn digit_spec(self) -> int {
        match self {
            KurarinClue::Empty => 0,
            KurarinClue::Black => 1,
            KurarinClue::Gray => 2,
            KurarinClue::White => 3,
        }
    }

    /// The clue a digit decodes to; digits outside the table mean no clue.
    pub open spec fn from_digit_spec(digit: int) -> KurarinClue {
        if digit == 1 {
            KurarinClue::Black
        } else if digit == 2 {
            KurarinClue::Gray
        } else if digit == 3 {
            KurarinClue::White
        } else {
            KurarinClue::Empty
        }
    }

    /// Encodes a clue as its digit.
    pub fn to_digit(self) -> (d: i32)
        ensures
            d == self.digit_spec(),
    {
        match self {
            KurarinClue::Empty => 0,
            KurarinClue::Black => 1,
            KurarinClue::Gray => 2,
            KurarinClue::White => 3,
        }
    }

    /// Decodes a digit to its clue.
    pub fn from_digit(digit: i32) -> (c: Self)
        ensures
            c == Self::from_digit_spec(digit as int),
    {
        if digit == 1 {
            KurarinClue::Black
        } else if digit == 2 {
            KurarinClue::Gray
        } else if digit == 3 {
            KurarinClue::White
        } else {
            KurarinClue::Empty
        }
    }
}

/// Decoding the digit of a clue returns the clue: the digit table is a
/// faithful round trip.
pub proof fn lemma_clue_digit_round_trip(c: KurarinClue)
    ensures
        KurarinClue::from_digit_spec(c.digit_spec()) == c,
{
}

} // verus!
