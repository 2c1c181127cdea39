//! Behavior of the board-rendering front ends.

use polyprop::backend::{easyasabc, kurarin, shugaku, waterwalk};
use polyprop::board::{BoolGridEdgesFacts, ItemColor, ItemKind};
use polyprop::puzzles::kurarin::KurarinClue;
use polyprop::puzzles::shugaku::{ShugakuDirection, ShugakuKind};

#[test]
fn test_easyasabc_errors() {
    assert_eq!(easyasabc::solve(None, None).err(), Some("invalid url"));
    let problem = (
        2,
        vec![None, None],
        vec![None, None],
        vec![None, None],
        vec![None, None],
        vec![vec![None, None], vec![None, None]],
    );
    assert_eq!(easyasabc::solve(Some(problem), None).err(), Some("no answer"));
}

#[test]
fn test_easyasabc_board() {
    // a 2x2 board with one given letter and a fully solved answer
    let problem = (
        1,
        vec![None, None],
        vec![None, None],
        vec![None, None],
        vec![None, None],
        vec![vec![Some(1), None], vec![None, None]],
    );
    let ans = vec![vec![Some(1), Some(0)], vec![Some(0), Some(1)]];
    let board = easyasabc::solve(Some(problem), Some(ans)).unwrap();
    assert_eq!(board.height, 2);
    assert_eq!(board.width, 2);
    assert!(board.is_unique);
    assert_eq!(board.items.len(), 4);
    // the given letter is black, the solved cells green, zero a cross
    assert_eq!(board.items[0].color, ItemColor::Black);
    assert_eq!(board.items[0].kind, ItemKind::Num(1));
    assert_eq!(board.items[1].color, ItemColor::Green);
    assert_eq!(board.items[1].kind, ItemKind::Cross);
    assert_eq!(board.items[3].kind, ItemKind::Num(1));
}

#[test]
fn test_easyasabc_not_unique() {
    let problem = (
        1,
        vec![None],
        vec![None],
        vec![None],
        vec![None],
        vec![vec![None]],
    );
    let ans = vec![vec![None]];
    let board = easyasabc::solve(Some(problem), Some(ans)).unwrap();
    assert!(!board.is_unique);
    assert!(board.items.is_empty());
}

#[test]
fn test_shugaku_board() {
    // one clue cell and one decided pillow facing east
    let problem = vec![vec![Some(2), None]];
    let kind = vec![vec![None, Some(ShugakuKind::Pillow)]];
    let direction = vec![vec![None, Some(ShugakuDirection::East)]];
    let board = shugaku::solve(Some(problem), Some((kind, direction))).unwrap();
    assert_eq!(board.height, 1);
    assert_eq!(board.width, 2);
    assert!(!board.is_unique);
    let kinds: Vec<ItemKind> = board.items.iter().map(|i| i.kind).collect();
    assert_eq!(
        kinds,
        vec![ItemKind::Circle, ItemKind::Num(2), ItemKind::ShugakuPillow, ItemKind::ShugakuEast],
    );
}

#[test]
fn test_shugaku_errors() {
    assert_eq!(shugaku::solve(None, None).err(), Some("invalid url"));
    assert_eq!(shugaku::solve(Some(vec![vec![None]]), None).err(), Some("no answer"));
}

#[test]
fn test_kurarin_board() {
    // one cell black, one white, a single decided edge between the white
    // cell and its neighbor below
    let dots = vec![vec![KurarinClue::Empty; 3]; 3];
    let edges = BoolGridEdgesFacts {
        horizontal: vec![vec![Some(false)], vec![Some(false)]],
        vertical: vec![vec![Some(true), Some(false)]],
    };
    let is_black = vec![vec![Some(false), Some(true)], vec![Some(false), Some(false)]];
    let board = kurarin::solve(Some(dots), Some((edges, is_black))).unwrap();
    assert_eq!(board.height, 2);
    assert_eq!(board.width, 2);
    assert!(board.is_unique);
    let kinds: Vec<ItemKind> = board.items.iter().map(|i| i.kind).collect();
    assert_eq!(
        kinds,
        vec![
            ItemKind::Dot,
            ItemKind::Block,
            ItemKind::Dot,
            ItemKind::Dot,
            ItemKind::LineDown,
        ],
    );
    let line = board.items[4];
    assert_eq!((line.y, line.x), (0, 0));
}

#[test]
fn test_kurarin_skips_lines_at_black_cells() {
    // the only decided edge touches a black cell, so no line is drawn
    let dots = vec![vec![KurarinClue::Empty; 3]; 3];
    let edges = BoolGridEdgesFacts {
        horizontal: vec![vec![Some(false)], vec![Some(false)]],
        vertical: vec![vec![Some(true), Some(false)]],
    };
    let is_black = vec![vec![Some(true), Some(false)], vec![Some(false), Some(false)]];
    let board = kurarin::solve(Some(dots), Some((edges, is_black))).unwrap();
    let kinds: Vec<ItemKind> = board.items.iter().map(|i| i.kind).collect();
    assert_eq!(
        kinds,
        vec![ItemKind::Block, ItemKind::Dot, ItemKind::Dot, ItemKind::Dot],
    );
}

#[test]
fn test_waterwalk_board() {
    let water = vec![vec![true, false], vec![false, false]];
    let num = vec![vec![None, Some(3)], vec![None, None]];
    let edges = BoolGridEdgesFacts {
        horizontal: vec![vec![Some(true)], vec![None]],
        vertical: vec![vec![Some(false), Some(true)]],
    };
    let board = waterwalk::solve(Some((water, num)), Some(edges)).unwrap();
    assert_eq!(board.height, 2);
    assert_eq!(board.width, 2);
    assert!(!board.is_unique);
    let summary: Vec<(usize, usize, ItemKind)> =
        board.items.iter().map(|i| (i.y, i.x, i.kind)).collect();
    assert_eq!(
        summary,
        vec![
            (0, 0, ItemKind::Fill),
            (0, 1, ItemKind::Num(3)),
            (0, 0, ItemKind::LineRight),
            (0, 1, ItemKind::LineDown),
        ],
    );
    assert_eq!(board.items[0].color, ItemColor::Water);
}

#[test]
fn test_waterwalk_errors() {
    assert_eq!(waterwalk::solve(None, None).err(), Some("invalid url"));
    let water = vec![vec![false]];
    let num = vec![vec![None]];
    assert_eq!(waterwalk::solve(Some((water, num)), None).err(), Some("no answer"));
}
