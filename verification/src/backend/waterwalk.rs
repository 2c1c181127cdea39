//! Front end of the waterwalk puzzle.

use vstd::prelude::*;

use crate::backend::{all_decided, all_some, gridv};
use crate::board::{
    edgev, hline_items, vline_items, Board, BoardKind, BoolGridEdgesFacts, Item, ItemColor,
    ItemKind,
};

verus! {

/// A parsed problem: which cells are water, and the clue number of each
/// clue cell.
pub type Problem = (Vec<Vec<bool>>, Vec<Vec<Option<i32>>>);

/// A solved board: the decided path edges.
pub type Answer = BoolGridEdgesFacts;

/// The items drawn for one cell: water cells are shaded, clue cells show
/// their number.
pub open spec fn cell_items(
    water: Seq<Seq<bool>>,
    num: Seq<Seq<Option<i32>>>,
    y: int,
    x: int,
) -> Seq<Item> {
    (if water[y][x] {
        seq![
            Item { y: y as usize, x: x as usize, color: ItemColor::Water, kind: ItemKind::Fill },
        ]
    } else {
        Seq::empty()
    }) + (match num[y][x] {
        Option::Some(n) => seq![
            Item {
                y: y as usize,
                x: x as usize,
                color: ItemColor::Black,
                kind: ItemKind::Num(n),
            },
        ],
        Option::None => Seq::empty(),
    })
}

/// The items of row `y`, through column `upto`.
pub open spec fn row_items(
    water: Seq<Seq<bool>>,
    num: Seq<Seq<Option<i32>>>,
    y: int,
    upto: int,
) -> Seq<Item>
    decreases upto,
{
    if upto <= 0 {
        Seq::empty()
    } else {
        row_items(water, num, y, upto - 1) + cell_items(water, num, y, upto - 1)
    }
}

/// The items of the first `upto` rows, each `width` cells wide.
pub open spec fn board_items(
    water: Seq<Seq<bool>>,
    num: Seq<Seq<Option<i32>>>,
    width: int,
    upto: int,
) -> Seq<Item>
    decreases upto,
{
    if upto <= 0 {
        Seq::empty()
    } else {
        board_items(water, num, width, upto - 1) + row_items(water, num, upto - 1, width)
    }
}

/// Renders the answer of a waterwalk puzzle.
///
/// An absent problem yields `Err("invalid url")`, an absent answer
/// `Err("no answer")`.  Otherwise the board shades the water cells, lists
/// the clue numbers, and draws every decided path edge, and is marked
/// unique exactly when every edge is decided.
#[verifier::loop_isolation(false)]
pub fn solve(problem: Option<Problem>, ans: Option<Answer>) -> (r: Result<Board, &'static str>)
    requires
        problem matches Some(p) ==> {
            &&& p.0@.len() > 0
            &&& p.1@.len() == p.0@.len()
            &&& forall|y: int| 0 <= y < p.0@.len() ==> (#[trigger] p.0@[y])@.len()
                == p.0@[0]@.len()
            &&& forall|y: int| 0 <= y < p.1@.len() ==> (#[trigger] p.1@[y])@.len()
                == p.0@[0]@.len()
        },
    ensures
        r is Ok <==> problem is Some && ans is Some,
        problem is None ==> (r matches Err(e) && e@ == "invalid url"@),
        problem is Some && ans is None ==> (r matches Err(e) && e@ == "no answer"@),
        r matches Ok(b) ==> {
            let p = problem->Some_0;
            let a = ans->Some_0;
            &&& b.kind == BoardKind::Grid
            &&& b.height == p.0@.len()
            &&& b.width == p.0@[0]@.len()
            &&& b.is_unique == (all_decided(gridv(a.horizontal@)) && all_decided(
                gridv(a.vertical@),
            ))
            &&& b.items@ == board_items(
                gridv(p.0@),
                gridv(p.1@),
                p.0@[0]@.len() as int,
                p.0@.len() as int,
            ) + hline_items(
                edgev(a.horizontal@),
                Seq::empty(),
                false,
                a.horizontal@.len() as int,
            ) + vline_items(edgev(a.vertical@), Seq::empty(), false, a.vertical@.len() as int)
        },
{
    let problem = match problem {
        Some(p) => p,
        None => {
            return Err("invalid url");
        },
    };
    let is_line = match ans {
        Some(a) => a,
        None => {
            return Err("no answer");
        },
    };
    let (water, num) = problem;
    let height = water.len();
    let width = water[0].len();
    let unique = all_some(&is_line.horizontal) && all_some(&is_line.vertical);
    let mut board = Board::new(BoardKind::Grid, height, width, unique);
    let ghost wv = gridv(water@);
    let ghost nv = gridv(num@);
    let mut y: usize = 0;
    while y < height
        invariant
            board.kind == BoardKind::Grid,
            board.height == height,
            board.width == width,
            board.is_unique == unique,
            y <= height,
            board.items@ == board_items(wv, nv, width as int, y as int),
        decreases height - y,
    {
        let mut x: usize = 0;
        while x < width
            invariant
                board.kind == BoardKind::Grid,
                board.height == height,
                board.width == width,
                board.is_unique == unique,
                y < height,
                x <= width,
                board.items@ == board_items(wv, nv, width as int, y as int) + row_items(
                    wv,
                    nv,
                    y as int,
                    x as int,
                ),
            decreases width - x,
        {
            if water[y][x] {
                board.push(Item::cell(y, x, ItemColor::Water, ItemKind::Fill));
            }
            match num[y][x] {
                Some(n) => {
                    board.push(Item::cell(y, x, ItemColor::Black, ItemKind::Num(n)));
                },
                None => {},
            }
            proof {
                assert(wv[y as int][x as int] == water@[y as int]@[x as int]);
                assert(nv[y as int][x as int] == num@[y as int]@[x as int]);
            }
            x += 1;
        }
        y += 1;
    }
    board.add_lines_irrefutable_facts(&is_line, None);
    Ok(board)
}

} // verus!
