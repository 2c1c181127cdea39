//! Behavior of the puzzle piece tables and clue encodings.

use polyprop::puzzles::kurarin::KurarinClue;
use polyprop::puzzles::polyominous::{
    adjacent_edges, bbox, enumerate_variants, flip, get_pieces, pentominoes, rotate,
    tetrominoes, PieceSet,
};

#[test]
fn test_kurarin_digit_round_trip() {
    let clues = [KurarinClue::Empty, KurarinClue::White, KurarinClue::Gray, KurarinClue::Black];
    for c in clues {
        assert_eq!(KurarinClue::from_digit(c.to_digit()), c);
    }
    assert_eq!(KurarinClue::Empty.to_digit(), 0);
    assert_eq!(KurarinClue::Black.to_digit(), 1);
    assert_eq!(KurarinClue::Gray.to_digit(), 2);
    assert_eq!(KurarinClue::White.to_digit(), 3);
    // digits outside the table decode to the absent clue
    assert_eq!(KurarinClue::from_digit(9), KurarinClue::Empty);
    assert_eq!(KurarinClue::from_digit(-1), KurarinClue::Empty);
}

#[test]
fn test_bbox() {
    assert_eq!(bbox(&vec![(0, 0), (0, 1), (0, 2), (1, 1), (2, 1)]), (3, 3));
    assert_eq!(bbox(&vec![(0, 0)]), (1, 1));
    assert_eq!(bbox(&Vec::new()), (0, 0));
}

#[test]
fn test_rotate_and_flip() {
    // the S tetromino
    let s = vec![(0, 0), (0, 1), (1, 1), (1, 2)];
    assert_eq!(rotate(&s), vec![(0, 1), (1, 1), (1, 0), (2, 0)]);
    assert_eq!(flip(&s), vec![(1, 0), (1, 1), (0, 1), (0, 2)]);
    // four quarter turns come back to the piece
    let once = rotate(&s);
    let twice = rotate(&once);
    let thrice = rotate(&twice);
    let around = rotate(&thrice);
    let mut a = around.clone();
    let mut b = s.clone();
    a.sort();
    b.sort();
    assert_eq!(a, b);
}

/// The distinct cell sets among a piece's variants.
fn distinct_shapes(variants: &[Vec<(usize, usize)>]) -> usize {
    let mut shapes: Vec<Vec<(usize, usize)>> = variants
        .iter()
        .map(|v| {
            let mut s = v.clone();
            s.sort();
            s
        })
        .collect();
    shapes.sort();
    shapes.dedup();
    shapes.len()
}

#[test]
fn test_enumerate_variants_counts() {
    // the variants are coordinate lists; as cell sets, the square has a
    // single orientation, the straight tetromino two, the S four, and the
    // L pentomino all eight
    let o = vec![(0, 0), (0, 1), (1, 0), (1, 1)];
    assert_eq!(distinct_shapes(&enumerate_variants(&o)), 1);
    let i = vec![(0, 0), (0, 1), (0, 2), (0, 3)];
    assert_eq!(distinct_shapes(&enumerate_variants(&i)), 2);
    let s = vec![(0, 0), (0, 1), (1, 1), (1, 2)];
    assert_eq!(distinct_shapes(&enumerate_variants(&s)), 4);
    let l = vec![(0, 0), (0, 1), (0, 2), (0, 3), (1, 0)];
    let lv = enumerate_variants(&l);
    assert_eq!(distinct_shapes(&lv), 8);
    assert_eq!(lv.len(), 8);
}

#[test]
fn test_enumerate_variants_sorted_distinct() {
    let t = vec![(0, 0), (0, 1), (0, 2), (1, 1)];
    let vars = enumerate_variants(&t);
    assert_eq!(distinct_shapes(&vars), 4);
    for w in vars.windows(2) {
        assert!(w[0] < w[1]);
    }
}

#[test]
fn test_adjacent_edges() {
    // the square: two vertical inner edges, two horizontal ones
    let o = vec![(0, 0), (0, 1), (1, 0), (1, 1)];
    let (horizontal, vertical) = adjacent_edges(&o);
    assert_eq!(horizontal, vec![(0, 0), (0, 1)]);
    assert_eq!(vertical, vec![(0, 0), (1, 0)]);
    // a straight horizontal piece has no vertical neighbors
    let i = vec![(0, 0), (0, 1), (0, 2)];
    let (horizontal, vertical) = adjacent_edges(&i);
    assert!(horizontal.is_empty());
    assert_eq!(vertical, vec![(0, 0), (0, 1)]);
}

#[test]
fn test_piece_tables() {
    let pent = pentominoes();
    assert_eq!(pent.len(), 12);
    for (_, cells) in &pent {
        assert_eq!(cells.len(), 5);
    }
    let letters: Vec<char> = pent.iter().map(|e| e.0).collect();
    assert_eq!(letters, vec!['F', 'I', 'L', 'N', 'P', 'T', 'U', 'V', 'W', 'X', 'Y', 'Z']);
    let tet = tetrominoes();
    assert_eq!(tet.len(), 5);
    let letters: Vec<char> = tet.iter().map(|e| e.0).collect();
    assert_eq!(letters, vec!['I', 'L', 'O', 'S', 'T']);
    assert_eq!(get_pieces(PieceSet::Pentomino).len(), 12);
    assert_eq!(get_pieces(PieceSet::Tetromino).len(), 5);
    // spot-check the cells of a few entries
    assert_eq!(pent[1].1, vec![(0, 0), (0, 1), (0, 2), (0, 3), (0, 4)]);
    assert_eq!(pent[9].1, vec![(0, 1), (1, 0), (1, 1), (1, 2), (2, 1)]);
    assert_eq!(tet[2].1, vec![(0, 0), (0, 1), (1, 0), (1, 1)]);
    assert_eq!(tet[3].1, vec![(0, 0), (0, 1), (1, 1), (1, 2)]);
}
