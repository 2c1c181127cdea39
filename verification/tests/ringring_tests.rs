//! Behavior of the ringring URL decoder.

use polyprop::puzzles::ringring::deserialize_problem;

fn to_bool_2d<const H: usize, const W: usize>(g: [[i32; W]; H]) -> Vec<Vec<bool>> {
    g.iter().map(|row| row.iter().map(|&v| v == 1).collect()).collect()
}

#[test]
fn test_ringring_deserializer() {
    let url = "https://puzz.link/p?ringring/8/6/063cd4";
    let expected = to_bool_2d([
        [1, 0, 0, 0, 0, 0, 0, 1],
        [0, 0, 0, 1, 0, 0, 0, 0],
        [0, 0, 0, 0, 0, 0, 0, 0],
        [1, 0, 0, 0, 0, 0, 0, 0],
        [0, 0, 0, 0, 0, 0, 1, 0],
        [0, 0, 0, 1, 0, 0, 0, 0],
    ]);
    assert_eq!(deserialize_problem(url), Some(expected));
}

#[test]
fn test_ringring_deserializer_bare_url() {
    // the data may come without any scheme or host
    let got = deserialize_problem("ringring/2/2/02").unwrap();
    assert_eq!(got, vec![vec![true, false], vec![false, true]]);
}

#[test]
fn test_ringring_deserializer_dot_skips() {
    // a dot advances the cursor by thirty-six cells
    let got = deserialize_problem("ringring/8/5/.3").unwrap();
    assert!(got[4][7]);
    let marked: usize = got.iter().flatten().filter(|&&b| b).count();
    assert_eq!(marked, 1);
}

#[test]
fn test_ringring_deserializer_rejects() {
    // a different puzzle kind
    assert_eq!(deserialize_problem("https://puzz.link/p?lits/8/6/063cd4"), None);
    // too few tokens
    assert_eq!(deserialize_problem("https://puzz.link/p?ringring/8"), None);
    // a mark walking off the end of the grid
    assert_eq!(deserialize_problem("ringring/2/2/03"), None);
    // a dimension that is not a number
    assert_eq!(deserialize_problem("ringring/a/6/0"), None);
    // no data token at all
    assert_eq!(deserialize_problem("ringring/8/6"), None);
}

#[test]
fn test_ringring_deserializer_empty_data() {
    // an empty data token is a grid with nothing marked
    let got = deserialize_problem("ringring/3/2/").unwrap();
    assert_eq!(got, vec![vec![false; 3]; 2]);
}
