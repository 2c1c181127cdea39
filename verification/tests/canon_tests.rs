//! Behavior of the shape canonicalizer.

use polyprop::canon::normalize_block;

fn canon(cells: &[(i32, i32)]) -> Vec<(i32, i32)> {
    normalize_block(cells.to_vec())
}

#[test]
fn test_normalize_block_exact_value() {
    // an L tromino: its least image starts a row of two at the origin
    let c = canon(&[(0, 0), (1, 0), (1, 1)]);
    assert_eq!(c, vec![(0, 0), (0, 1), (1, 0)]);
}

#[test]
fn test_normalize_block_empty() {
    let c = canon(&[]);
    assert_eq!(c, Vec::new());
}

#[test]
fn test_normalize_block_single_cell() {
    let c = canon(&[(7, -3)]);
    assert_eq!(c, vec![(0, 0)]);
}

/// A quarter turn about the lattice origin.
fn quarter_turn(v: &[(i32, i32)]) -> Vec<(i32, i32)> {
    v.iter().map(|&(r, c)| (c, -r)).collect()
}

/// A row reflection about the lattice origin.
fn reflect(v: &[(i32, i32)]) -> Vec<(i32, i32)> {
    v.iter().map(|&(r, c)| (-r, c)).collect()
}

#[test]
fn test_normalize_block_symmetry_invariance() {
    // all eight symmetric images of an S tetromino, plus translations,
    // canonicalize identically
    let start = vec![(0, 1), (0, 2), (1, 0), (1, 1)];
    let base = canon(&start);
    let mut image = start.clone();
    for _turn in 0..4 {
        assert_eq!(canon(&image), base);
        assert_eq!(canon(&reflect(&image)), base);
        image = quarter_turn(&image);
    }
    // a translation far across the lattice
    let moved: Vec<(i32, i32)> = start.iter().map(|&(r, c)| (r + 1000, c - 500)).collect();
    assert_eq!(canon(&moved), base);
}

#[test]
fn test_normalize_block_idempotence() {
    let pieces: Vec<Vec<(i32, i32)>> = vec![
        vec![(0, 0), (1, 0), (1, 1), (1, 2), (2, 1)],
        vec![(3, 4), (3, 5), (4, 4)],
        vec![(0, 0), (0, 1), (0, 2), (0, 3), (0, 4)],
        vec![(-2, -2), (-1, -2), (0, -2), (0, -1)],
    ];
    for p in pieces {
        let once = canon(&p);
        let twice = canon(&once);
        assert_eq!(twice, once);
    }
}

#[test]
fn test_normalize_block_order_independence() {
    let a = canon(&[(0, 0), (1, 0), (1, 1), (1, 2), (2, 2)]);
    let b = canon(&[(2, 2), (1, 1), (0, 0), (1, 2), (1, 0)]);
    let c = canon(&[(1, 2), (2, 2), (1, 0), (1, 1), (0, 0)]);
    assert_eq!(a, b);
    assert_eq!(a, c);
}

#[test]
fn test_normalize_block_output_sorted() {
    let c = canon(&[(5, 5), (5, 6), (6, 5), (6, 6), (7, 5)]);
    for w in c.windows(2) {
        assert!(w[0] < w[1]);
    }
}

#[test]
fn test_normalize_block_distinguishes_shapes() {
    // an L tromino and a straight tromino are different polyominoes
    let l = canon(&[(0, 0), (1, 0), (1, 1)]);
    let i = canon(&[(0, 0), (0, 1), (0, 2)]);
    assert_ne!(l, i);
}
