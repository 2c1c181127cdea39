//! Clue types and piece tables of the individual puzzles.

pub mod isowatari;
pub mod kurarin;
pub mod polyominous;
pub mod ringring;
pub mod shugaku;
