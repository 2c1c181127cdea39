//! Front end of the easy-as-abc puzzle.

use vstd::prelude::*;

use crate::backend::{all_decided, all_some, gridv};
use crate::board::{Board, BoardKind, Item, ItemColor, ItemKind};

verus! {

/// A parsed problem: the letter count, the four border clue lines (up,
/// right, down, left), and the given center letters.
pub type Problem = (
    i32,
    Vec<Option<i32>>,
    Vec<Option<i32>>,
    Vec<Option<i32>>,
    Vec<Option<i32>>,
    Vec<Vec<Option<i32>>>,
);

/// The items drawn for one cell: a given letter in black, otherwise a
/// solved letter in green, a cross standing for a solved blank.
pub open spec fn cell_items(
    center: Seq<Seq<Option<i32>>>,
    ans: Seq<Seq<Option<i32>>>,
    y: int,
    x: int,
) -> Seq<Item> {
    match center[y][x] {
        Option::Some(n) => seq![
            Item {
                y: y as usize,
                x: x as usize,
                color: ItemColor::Black,
                kind: ItemKind::Num(n),
            },
        ],
        Option::None => match ans[y][x] {
            Option::Some(n) => seq![
                Item {
                    y: y as usize,
                    x: x as usize,
                    color: ItemColor::Green,
                    kind: if n == 0 {
                        ItemKind::Cross
                    } else {
                        ItemKind::Num(n)
                    },
                },
            ],
            Option::None => Seq::empty(),
        },
    }
}

/// The items of row `y`, through column `upto`.
pub open spec fn row_items(
    center: Seq<Seq<Option<i32>>>,
    ans: Seq<Seq<Option<i32>>>,
    y: int,
    upto: int,
) -> Seq<Item>
    decreases upto,
{
    if upto <= 0 {
        Seq::empty()
    } else {
        row_items(center, ans, y, upto - 1) + cell_items(center, ans, y, upto - 1)
    }
}

/// The items of the first `upto` rows, each `width` cells wide.
pub open spec fn board_items(
    center: Seq<Seq<Option<i32>>>,
    ans: Seq<Seq<Option<i32>>>,
    width: int,
    upto: int,
) -> Seq<Item>
    decreases upto,
{
    if upto <= 0 {
        Seq::empty()
    } else {
        board_items(center, ans, width, upto - 1) + row_items(center, ans, upto - 1, width)
    }
}

/// Renders the answer of an easy-as-abc puzzle.
///
/// An absent problem means the puzzle URL could not be read and yields
/// `Err("invalid url")`; an absent answer yields `Err("no answer")`.
/// Otherwise the board lists, cell by cell in row-major order, the given
/// letters in black and the solved letters in green, and is marked unique
/// exactly when the solver decided every cell.
#[verifier::loop_isolation(false)]
pub fn solve(problem: Option<Problem>, ans: Option<Vec<Vec<Option<i32>>>>) -> (r: Result<
    Board,
    &'static str,
>)
    requires
        problem matches Some(p) ==> {
            &&& p.5@.len() == p.2@.len()
            &&& forall|y: int| 0 <= y < p.5@.len() ==> (#[trigger] p.5@[y])@.len() == p.1@.len()
        },
        problem matches Some(p) && ans matches Some(a) ==> {
            &&& a@.len() == p.2@.len()
            &&& forall|y: int| 0 <= y < a@.len() ==> (#[trigger] a@[y])@.len() == p.1@.len()
        },
    ensures
        r is Ok <==> problem is Some && ans is Some,
        problem is None ==> (r matches Err(e) && e@ == "invalid url"@),
        problem is Some && ans is None ==> (r matches Err(e) && e@ == "no answer"@),
        r matches Ok(b) ==> {
            let p = problem->Some_0;
            let a = ans->Some_0;
            &&& b.kind == BoardKind::Grid
            &&& b.height == p.2@.len()
            &&& b.width == p.1@.len()
            &&& b.is_unique == all_decided(gridv(a@))
            &&& b.items@ == board_items(
                gridv(p.5@),
                gridv(a@),
                p.1@.len() as int,
                p.2@.len() as int,
            )
        },
{
    let problem = match problem {
        Some(p) => p,
        None => {
            return Err("invalid url");
        },
    };
    let ans = match ans {
        Some(a) => a,
        None => {
            return Err("no answer");
        },
    };
    let height = problem.2.len();
    let width = problem.1.len();
    let unique = all_some(&ans);
    let mut board = Board::new(BoardKind::Grid, height, width, unique);
    let ghost centerv = gridv(problem.5@);
    let ghost ansv = gridv(ans@);
    let center = &problem.5;
    let mut y: usize = 0;
    while y < height
        invariant
            board.kind == BoardKind::Grid,
            board.height == height,
            board.width == width,
            board.is_unique == unique,
            y <= height,
            board.items@ == board_items(centerv, ansv, width as int, y as int),
        decreases height - y,
    {
        let mut x: usize = 0;
        while x < width
            invariant
                board.kind == BoardKind::Grid,
                board.height == height,
                board.width == width,
                board.is_unique == unique,
                y < height,
                x <= width,
                board.items@ == board_items(centerv, ansv, width as int, y as int) + row_items(
                    centerv,
                    ansv,
                    y as int,
                    x as int,
                ),
            decreases width - x,
        {
            match center[y][x] {
                Some(n) => {
                    board.push(Item::cell(y, x, ItemColor::Black, ItemKind::Num(n)));
                },
                None => {
                    match ans[y][x] {
                        Some(n) => {
                            let kind = if n == 0 {
                                ItemKind::Cross
                            } else {
                                ItemKind::Num(n)
                            };
                            board.push(Item::cell(y, x, ItemColor::Green, kind));
                        },
                        None => {},
                    }
                },
            }
            proof {
                assert(centerv[y as int][x as int] == center@[y as int]@[x as int]);
                assert(ansv[y as int][x as int] == ans@[y as int]@[x as int]);
            }
            x += 1;
        }
        y += 1;
    }
    Ok(board)
}

} // verus!
