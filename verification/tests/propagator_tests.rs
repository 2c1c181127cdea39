//! Behavior of the incremental propagator.

use polyprop::propagator::{AnyminoConstraint, CellState};

/// A grid split into horizontal stripes of full rows: `row_rooms[y]` names
/// the room of every cell of row `y`.
fn striped(height: usize, width: usize, row_rooms: &[usize]) -> AnyminoConstraint {
    assert_eq!(row_rooms.len(), height);
    let nrooms = row_rooms.iter().copied().max().unwrap() + 1;
    let mut rooms: Vec<Vec<(usize, usize)>> = vec![Vec::new(); nrooms];
    let mut room_id_map = vec![vec![0usize; width]; height];
    for y in 0..height {
        for x in 0..width {
            rooms[row_rooms[y]].push((y, x));
            room_id_map[y][x] = row_rooms[y];
        }
    }
    AnyminoConstraint::new(height, width, rooms, room_id_map)
}

#[test]
fn test_conflict_two_lines() {
    // a 2x4 grid split into two 1x4 rooms; all cells black: both rooms
    // close to the same 1x4 shape and touch, so a conflict is reported
    let mut c = striped(2, 4, &[0, 1]);
    c.initialize_sat(8);
    for idx in 0..8 {
        c.notify(idx, true);
    }
    let expl = c.find_inconsistency().expect("the two lines must conflict");
    // every cell appears as a positive literal, nothing as a negative one
    assert_eq!(expl.len(), 8);
    assert!(expl.iter().all(|&(_, v)| v));
    let mut indices: Vec<usize> = expl.iter().map(|&(i, _)| i).collect();
    indices.sort();
    assert_eq!(indices, (0..8).collect::<Vec<usize>>());
}

#[test]
fn test_no_false_positive_different_shapes() {
    // top room closes to a 1x4 line, bottom room to an L of three cells:
    // adjacent but of different shapes, so no conflict
    let mut c = striped(2, 4, &[0, 1]);
    c.initialize_sat(8);
    for idx in 0..4 {
        c.notify(idx, true);
    }
    c.notify(4, true);
    c.notify(5, true);
    c.notify(6, false);
    c.notify(7, false);
    assert!(c.find_inconsistency().is_none());
}

#[test]
fn test_non_adjacent_same_shape() {
    // rows 0 and 2 close to the same 1x4 line but row 1 is all white
    // between them: same shape, not black-adjacent, no conflict
    let mut c = striped(3, 4, &[0, 1, 2]);
    c.initialize_sat(12);
    for idx in 0..4 {
        c.notify(idx, true);
    }
    for idx in 4..8 {
        c.notify(idx, false);
    }
    for idx in 8..12 {
        c.notify(idx, true);
    }
    assert!(c.find_inconsistency().is_none());
}

#[test]
fn test_open_room_never_triggers() {
    // the bottom room still has an undecided neighbor of a black cell, so
    // however suggestive its three black cells look, it is not closed and
    // cannot conflict
    let mut c = striped(2, 4, &[0, 1]);
    c.initialize_sat(8);
    for idx in 0..4 {
        c.notify(idx, true);
    }
    c.notify(4, true);
    c.notify(5, true);
    c.notify(6, true);
    // cell 7 stays undecided
    assert!(c.find_inconsistency().is_none());
}

#[test]
fn test_stack_discipline() {
    // notifies followed by as many undos restore the all-undecided board
    let mut c = striped(2, 4, &[0, 1]);
    c.initialize_sat(8);
    assert_eq!(c.stack_len(), 0);
    let values = [true, false, true, true, false, true];
    for (idx, &v) in values.iter().enumerate() {
        c.notify(idx, v);
    }
    assert_eq!(c.stack_len(), 6);
    for _step in 0..6 {
        c.undo();
    }
    assert_eq!(c.stack_len(), 0);
    for y in 0..2 {
        for x in 0..4 {
            assert_eq!(c.cell_state(y, x), CellState::Undecided);
        }
    }
}

#[test]
fn test_undo_clears_conflict() {
    let mut c = striped(2, 4, &[0, 1]);
    c.initialize_sat(8);
    for idx in 0..8 {
        c.notify(idx, true);
    }
    assert!(c.find_inconsistency().is_some());
    // find_inconsistency mutates nothing: asking twice answers the same
    assert!(c.find_inconsistency().is_some());
    c.undo();
    assert!(c.find_inconsistency().is_none());
    assert_eq!(c.cell_state(1, 3), CellState::Undecided);
    // deciding the freed cell white separates the shapes for good
    c.notify(7, false);
    assert!(c.find_inconsistency().is_none());
}

#[test]
fn test_explanation_includes_boundary_whites() {
    // a 2x4 grid, rooms of one row each; in each room three black cells
    // and one white cell at the same end: both rooms close to an identical
    // 1x3 line, touch through black cells, and each white cell borders a
    // black cell of its room, so it joins the explanation negatively
    let mut c = striped(2, 4, &[0, 1]);
    c.initialize_sat(8);
    c.notify(0, true);
    c.notify(1, true);
    c.notify(2, true);
    c.notify(3, false);
    c.notify(4, true);
    c.notify(5, true);
    c.notify(6, true);
    c.notify(7, false);
    let expl = c.find_inconsistency().expect("identical adjacent lines must conflict");
    let mut positives: Vec<usize> =
        expl.iter().filter(|&&(_, v)| v).map(|&(i, _)| i).collect();
    positives.sort();
    assert_eq!(positives, vec![0, 1, 2, 4, 5, 6]);
    let mut negatives: Vec<usize> =
        expl.iter().filter(|&&(_, v)| !v).map(|&(i, _)| i).collect();
    negatives.sort();
    assert_eq!(negatives, vec![3, 7]);
}

#[test]
fn test_initialize_resets() {
    let mut c = striped(2, 4, &[0, 1]);
    c.initialize_sat(8);
    for idx in 0..8 {
        c.notify(idx, true);
    }
    c.initialize_sat(8);
    assert_eq!(c.stack_len(), 0);
    assert_eq!(c.cell_state(0, 0), CellState::Undecided);
    assert!(c.find_inconsistency().is_none());
}
