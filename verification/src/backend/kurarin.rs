//! Front end of the kurarin puzzle.

use vstd::prelude::*;

use crate::backend::{all_decided, all_some, gridv};
use crate::board::{
    edgev, hline_items, skipv, vline_items, Board, BoardKind, BoolGridEdgesFacts, Item,
    ItemColor, ItemKind,
};
use crate::puzzles::kurarin::KurarinClue;

verus! {

/// A parsed problem: the clue dots, on a grid twice as fine as the cells.
pub type Problem = Vec<Vec<KurarinClue>>;

/// A solved board: the decided loop edges and the decided black cells.
pub type Answer = (BoolGridEdgesFacts, Vec<Vec<Option<bool>>>);

/// The skip mask of the line drawing: cells decided black carry no loop.
pub open spec fn black_mask(
    is_black: Seq<Seq<Option<bool>>>,
    height: int,
    width: int,
) -> Seq<Seq<bool>> {
    Seq::new(height as nat, |y: int| Seq::new(width as nat, |x: int| is_black[y][x] == Some(true)))
}

/// The items drawn for one cell: a decided cell shows a block when black
/// and a dot when white.
pub open spec fn cell_items(is_black: Seq<Seq<Option<bool>>>, y: int, x: int) -> Seq<Item> {
    match is_black[y][x] {
        Option::Some(b) => seq![
            Item {
                y: y as usize,
                x: x as usize,
                color: ItemColor::Green,
                kind: if b {
                    ItemKind::Block
                } else {
                    ItemKind::Dot
                },
            },
        ],
        Option::None => Seq::empty(),
    }
}

/// The items of row `y`, through column `upto`.
pub open spec fn row_items(is_black: Seq<Seq<Option<bool>>>, y: int, upto: int) -> Seq<Item>
    decreases upto,
{
    if upto <= 0 {
        Seq::empty()
    } else {
        row_items(is_black, y, upto - 1) + cell_items(is_black, y, upto - 1)
    }
}

/// The items of the first `upto` rows, each `width` cells wide.
pub open spec fn board_items(
    is_black: Seq<Seq<Option<bool>>>,
    width: int,
    upto: int,
) -> Seq<Item>
    decreases upto,
{
    if upto <= 0 {
        Seq::empty()
    } else {
        board_items(is_black, width, upto - 1) + row_items(is_black, upto - 1, width)
    }
}

/// Renders the answer of a kurarin puzzle.
///
/// The clue grid is twice as fine as the cell grid, so an `hd` by `wd` dot
/// grid describes a `(hd+1)/2` by `(wd+1)/2` board.  An absent problem
/// yields `Err("invalid url")`, an absent answer `Err("no answer")`.
/// Otherwise the board lists each decided cell as a block or dot, then the
/// decided loop edges, leaving out edges between cells decided black, and
/// is marked unique exactly when every cell and edge is decided.
#[verifier::loop_isolation(false)]
pub fn solve(problem: Option<Problem>, ans: Option<Answer>) -> (r: Result<Board, &'static str>)
    requires
        problem matches Some(p) ==> p@.len() > 0 && p@.len() < 0x10000000 && p@[0]@.len()
            < 0x10000000,
        problem matches Some(p) && ans matches Some(a) ==> {
            let height = (p@.len() + 1) / 2;
            let width = (p@[0]@.len() + 1) / 2;
            &&& a.1@.len() == height
            &&& forall|y: int| 0 <= y < height ==> (#[trigger] a.1@[y])@.len() == width
            &&& a.0.horizontal@.len() == height
            &&& forall|y: int|
                0 <= y < height ==> (#[trigger] a.0.horizontal@[y])@.len() + 1 == width
            &&& a.0.vertical@.len() + 1 == height
            &&& forall|y: int| 0 <= y + 1 < height ==> (#[trigger] a.0.vertical@[y])@.len()
                == width
        },
    ensures
        r is Ok <==> problem is Some && ans is Some,
        problem is None ==> (r matches Err(e) && e@ == "invalid url"@),
        problem is Some && ans is None ==> (r matches Err(e) && e@ == "no answer"@),
        r matches Ok(b) ==> {
            let p = problem->Some_0;
            let a = ans->Some_0;
            let height = (p@.len() + 1) / 2;
            let width = (p@[0]@.len() + 1) / 2;
            let mask = black_mask(gridv(a.1@), height as int, width as int);
            &&& b.kind == BoardKind::Grid
            &&& b.height == height
            &&& b.width == width
            &&& b.is_unique == (all_decided(gridv(a.0.horizontal@)) && all_decided(
                gridv(a.0.vertical@),
            ) && all_decided(gridv(a.1@)))
            &&& b.items@ == board_items(gridv(a.1@), width as int, height as int)
                + hline_items(
                edgev(a.0.horizontal@),
                mask,
                true,
                a.0.horizontal@.len() as int,
            ) + vline_items(edgev(a.0.vertical@), mask, true, a.0.vertical@.len() as int)
        },
{
    let problem = match problem {
        Some(p) => p,
        None => {
            return Err("invalid url");
        },
    };
    let (is_line, is_black) = match ans {
        Some(a) => a,
        None => {
            return Err("no answer");
        },
    };
    let height = (problem.len() + 1) / 2;
    let width = (problem[0].len() + 1) / 2;
    let unique = all_some(&is_line.horizontal) && all_some(&is_line.vertical) && all_some(
        &is_black,
    );
    let mut board = Board::new(BoardKind::Grid, height, width, unique);
    let ghost bv = gridv(is_black@);
    // the loop is not drawn over cells decided black
    let mut skip_line: Vec<Vec<bool>> = Vec::new();
    let mut y: usize = 0;
    while y < height
        invariant
            y <= height,
            skip_line@.len() == y,
            forall|yy: int| 0 <= yy < y ==> (#[trigger] skip_line@[yy])@.len() == width,
            forall|yy: int, x: int|
                0 <= yy < y && 0 <= x < width ==> #[trigger] skip_line@[yy]@[x] == (bv[yy][x]
                    == Some(true)),
        decreases height - y,
    {
        let mut row: Vec<bool> = Vec::new();
        let mut x: usize = 0;
        while x < width
            invariant
                y < height,
                x <= width,
                row@.len() == x,
                forall|xx: int| 0 <= xx < x ==> #[trigger] row@[xx] == (bv[y as int][xx] == Some(
                    true,
                )),
            decreases width - x,
        {
            row.push(is_black[y][x] == Some(true));
            proof {
                assert(bv[y as int][x as int] == is_black@[y as int]@[x as int]);
            }
            x += 1;
        }
        skip_line.push(row);
        y += 1;
    }
    proof {
        assert(skipv(skip_line@) =~~= black_mask(bv, height as int, width as int));
    }
    let mut y: usize = 0;
    while y < height
        invariant
            board.kind == BoardKind::Grid,
            board.height == height,
            board.width == width,
            board.is_unique == unique,
            y <= height,
            board.items@ == board_items(bv, width as int, y as int),
        decreases height - y,
    {
        let mut x: usize = 0;
        while x < width
            invariant
                board.kind == BoardKind::Grid,
                board.height == height,
                board.width == width,
                board.is_unique == unique,
                y < height,
                x <= width,
                board.items@ == board_items(bv, width as int, y as int) + row_items(
                    bv,
                    y as int,
                    x as int,
                ),
            decreases width - x,
        {
            match is_black[y][x] {
                Some(b) => {
                    let kind = if b {
                        ItemKind::Block
                    } else {
                        ItemKind::Dot
                    };
                    board.push(Item::cell(y, x, ItemColor::Green, kind));
                },
                None => {},
            }
            proof {
                assert(bv[y as int][x as int] == is_black@[y as int]@[x as int]);
            }
            x += 1;
        }
        y += 1;
    }
    board.add_lines_irrefutable_facts(&is_line, Some(&skip_line));
    Ok(board)
}

} // verus!
