//! Front ends that turn a puzzle's problem and its solver answer into a
//! rendered board.
//!
//! Each front end takes the parsed problem and the answer the constraint
//! solver produced, both optional: an absent problem means the puzzle URL
//! could not be read, an absent answer that the solver found none.

use vstd::prelude::*;

pub mod easyasabc;
pub mod kurarin;
pub mod shugaku;
pub mod waterwalk;

verus! {

/// The rows of a grid as sequences.
pub open spec fn gridv<T>(g: Seq<Vec<T>>) -> Seq<Seq<T>> {
    g.map_values(|row: Vec<T>| row@)
}

/// Every cell of the grid is decided.
pub open spec fn all_decided<T>(g: Seq<Seq<Option<T>>>) -> bool {
    forall|y: int, x: int|
        0 <= y < g.len() && 0 <= x < g[y].len() ==> (#[trigger] g[y][x]) is Some
}

/// Whether every cell of a grid of optional values is decided; the answer
/// is unique exactly when nothing was left open.
pub fn all_some<T>(g: &Vec<Vec<Option<T>>>) -> (r: bool)
    ensures
        r == all_decided(gridv(g@)),
{
    let mut y: usize = 0;
    while y < g.len()
        invariant
            y <= g@.len(),
            forall|yy: int, x: int|
                0 <= yy < y && 0 <= x < g@[yy]@.len() ==> (#[trigger] g@[yy]@[x]) is Some,
        decreases g@.len() - y,
    {
        let row = &g[y];
        let mut x: usize = 0;
        while x < row.len()
            invariant
                x <= row@.len(),
                y < g@.len(),
                row == g@[y as int],
                forall|yy: int, xx: int|
                    0 <= yy < y && 0 <= xx < g@[yy]@.len() ==> (#[trigger] g@[yy]@[xx]) is Some,
                forall|xx: int| 0 <= xx < x ==> (#[trigger] row@[xx]) is Some,
            decreases row@.len() - x,
        {
            if row[x].is_none() {
                proof {
                    assert(gridv(g@)[y as int][x as int] is None);
                }
                return false;
            }
            x += 1;
        }
        y += 1;
    }
    proof {
        assert forall|y: int, x: int|
            0 <= y < gridv(g@).len() && 0 <= x < gridv(g@)[y].len() implies (#[trigger] gridv(
            g@,
        )[y][x]) is Some by {
            assert(g@[y]@[x] is Some);
        }
    }
    true
}

} // verus!
