//! Cell contents of the shugaku puzzle.

use vstd::prelude::*;

verus! {

/// What occupies one cell of a solved board.
#[derive(PartialEq, Eq, Debug, Clone, Copy, Structural)]
pub enum ShugakuKind {
    Pillar,
    Aisle,
    Pillow,
    Futon,
}

/// Which way a pillow's futon extends: west or east along the row, or
/// south down the column.  Pillars and aisles have no direction.
#[derive(PartialEq, Eq, Debug, Clone, Copy, Structural)]
pub enum ShugakuDirection {
    Undirected,
    West,
    East,
    South,
}

} // verus!
