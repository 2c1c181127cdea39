//! Front end of the shugaku puzzle.

use vstd::prelude::*;

use crate::backend::{all_decided, all_some, gridv};
use crate::board::{Board, BoardKind, Item, ItemColor, ItemKind};
use crate::puzzles::shugaku::{ShugakuDirection, ShugakuKind};

verus! {

/// A parsed problem: the clue number of each pillar cell, if any.
pub type Problem = Vec<Vec<Option<i32>>>;

/// A solved board: what occupies each decided cell and which way it faces.
pub type Answer = (Vec<Vec<Option<ShugakuKind>>>, Vec<Vec<Option<ShugakuDirection>>>);

/// The items drawn for one cell: a clue cell shows a black circle and its
/// number; any other cell shows its decided contents and direction in
/// green.
pub open spec fn cell_items(
    problem: Seq<Seq<Option<i32>>>,
    kind: Seq<Seq<Option<ShugakuKind>>>,
    direction: Seq<Seq<Option<ShugakuDirection>>>,
    y: int,
    x: int,
) -> Seq<Item> {
    match problem[y][x] {
        Option::Some(n) => seq![
            Item { y: y as usize, x: x as usize, color: ItemColor::Black, kind: ItemKind::Circle },
        ] + if 0 <= n <= 4 {
            seq![
                Item {
                    y: y as usize,
                    x: x as usize,
                    color: ItemColor::Black,
                    kind: ItemKind::Num(n),
                },
            ]
        } else {
            Seq::empty()
        },
        Option::None => (match kind[y][x] {
            Option::Some(ShugakuKind::Aisle) => seq![
                Item {
                    y: y as usize,
                    x: x as usize,
                    color: ItemColor::Green,
                    kind: ItemKind::Fill,
                },
            ],
            Option::Some(ShugakuKind::Pillow) => seq![
                Item {
                    y: y as usize,
                    x: x as usize,
                    color: ItemColor::Green,
                    kind: ItemKind::ShugakuPillow,
                },
            ],
            Option::Some(ShugakuKind::Futon) => seq![
                Item {
                    y: y as usize,
                    x: x as usize,
                    color: ItemColor::Green,
                    kind: ItemKind::ShugakuFuton,
                },
            ],
            _ => Seq::empty(),
        }) + (match direction[y][x] {
            Option::Some(ShugakuDirection::West) => seq![
                Item {
                    y: y as usize,
                    x: x as usize,
                    color: ItemColor::Green,
                    kind: ItemKind::ShugakuWest,
                },
            ],
            Option::Some(ShugakuDirection::East) => seq![
                Item {
                    y: y as usize,
                    x: x as usize,
                    color: ItemColor::Green,
                    kind: ItemKind::ShugakuEast,
                },
            ],
            Option::Some(ShugakuDirection::South) => seq![
                Item {
                    y: y as usize,
                    x: x as usize,
                    color: ItemColor::Green,
                    kind: ItemKind::ShugakuSouth,
                },
            ],
            _ => Seq::empty(),
        }),
    }
}

/// The items of row `y`, through column `upto`.
pub open spec fn row_items(
    problem: Seq<Seq<Option<i32>>>,
    kind: Seq<Seq<Option<ShugakuKind>>>,
    direction: Seq<Seq<Option<ShugakuDirection>>>,
    y: int,
    upto: int,
) -> Seq<Item>
    decreases upto,
{
    if upto <= 0 {
        Seq::empty()
    } else {
        row_items(problem, kind, direction, y, upto - 1) + cell_items(
            problem,
            kind,
            direction,
            y,
            upto - 1,
        )
    }
}

/// The items of the first `upto` rows, each `width` cells wide.
pub open spec fn board_items(
    problem: Seq<Seq<Option<i32>>>,
    kind: Seq<Seq<Option<ShugakuKind>>>,
    direction: Seq<Seq<Option<ShugakuDirection>>>,
    width: int,
    upto: int,
) -> Seq<Item>
    decreases upto,
{
    if upto <= 0 {
        Seq::empty()
    } else {
        board_items(problem, kind, direction, width, upto - 1) + row_items(
            problem,
            kind,
            direction,
            upto - 1,
            width,
        )
    }
}

/// Renders the answer of a shugaku puzzle.
///
/// An absent problem yields `Err("invalid url")`, an absent answer
/// `Err("no answer")`.  Otherwise the board lists, cell by cell in
/// row-major order, the clue circles in black and the decided cell
/// contents in green, and is marked unique exactly when every cell's kind
/// and direction are decided.
#[verifier::loop_isolation(false)]
#[verifier::rlimit(60)]
pub fn solve(problem: Option<Problem>, ans: Option<Answer>) -> (r: Result<Board, &'static str>)
    requires
        problem matches Some(p) ==> {
            &&& p@.len() > 0
            &&& forall|y: int| 0 <= y < p@.len() ==> (#[trigger] p@[y])@.len() == p@[0]@.len()
        },
        problem matches Some(p) && ans matches Some(a) ==> {
            &&& a.0@.len() == p@.len()
            &&& a.1@.len() == p@.len()
            &&& forall|y: int| 0 <= y < p@.len() ==> (#[trigger] a.0@[y])@.len() == p@[0]@.len()
            &&& forall|y: int| 0 <= y < p@.len() ==> (#[trigger] a.1@[y])@.len() == p@[0]@.len()
        },
    ensures
        r is Ok <==> problem is Some && ans is Some,
        problem is None ==> (r matches Err(e) && e@ == "invalid url"@),
        problem is Some && ans is None ==> (r matches Err(e) && e@ == "no answer"@),
        r matches Ok(b) ==> {
            let p = problem->Some_0;
            let a = ans->Some_0;
            &&& b.kind == BoardKind::Grid
            &&& b.height == p@.len()
            &&& b.width == p@[0]@.len()
            &&& b.is_unique == (all_decided(gridv(a.0@)) && all_decided(gridv(a.1@)))
            &&& b.items@ == board_items(
                gridv(p@),
                gridv(a.0@),
                gridv(a.1@),
                p@[0]@.len() as int,
                p@.len() as int,
            )
        },
{
    let problem = match problem {
        Some(p) => p,
        None => {
            return Err("invalid url");
        },
    };
    let (kind, direction) = match ans {
        Some(a) => a,
        None => {
            return Err("no answer");
        },
    };
    let height = problem.len();
    let width = problem[0].len();
    let unique = all_some(&kind) && all_some(&direction);
    let mut board = Board::new(BoardKind::Grid, height, width, unique);
    let ghost pv = gridv(problem@);
    let ghost kv = gridv(kind@);
    let ghost dv = gridv(direction@);
    let mut y: usize = 0;
    while y < height
        invariant
            board.kind == BoardKind::Grid,
            board.height == height,
            board.width == width,
            board.is_unique == unique,
            y <= height,
            board.items@ == board_items(pv, kv, dv, width as int, y as int),
        decreases height - y,
    {
        let mut x: usize = 0;
        while x < width
            invariant
                board.kind == BoardKind::Grid,
                board.height == height,
                board.width == width,
                board.is_unique == unique,
                y < height,
                x <= width,
                board.items@ == board_items(pv, kv, dv, width as int, y as int) + row_items(
                    pv,
                    kv,
                    dv,
                    y as int,
                    x as int,
                ),
            decreases width - x,
        {
            match problem[y][x] {
                Some(n) => {
                    board.push(Item::cell(y, x, ItemColor::Black, ItemKind::Circle));
                    if 0 <= n && n <= 4 {
                        board.push(Item::cell(y, x, ItemColor::Black, ItemKind::Num(n)));
                    }
                },
                None => {
                    match kind[y][x] {
                        Some(ShugakuKind::Aisle) => {
                            board.push(Item::cell(y, x, ItemColor::Green, ItemKind::Fill));
                        },
                        Some(ShugakuKind::Pillow) => {
                            board.push(
                                Item::cell(y, x, ItemColor::Green, ItemKind::ShugakuPillow),
                            );
                        },
                        Some(ShugakuKind::Futon) => {
                            board.push(
                                Item::cell(y, x, ItemColor::Green, ItemKind::ShugakuFuton),
                            );
                        },
                        _ => {},
                    }
                    match direction[y][x] {
                        Some(ShugakuDirection::West) => {
                            board.push(
                                Item::cell(y, x, ItemColor::Green, ItemKind::ShugakuWest),
                            );
                        },
                        Some(ShugakuDirection::East) => {
                            board.push(
                                Item::cell(y, x, ItemColor::Green, ItemKind::ShugakuEast),
                            );
                        },
                        Some(ShugakuDirection::South) => {
                            board.push(
                                Item::cell(y, x, ItemColor::Green, ItemKind::ShugakuSouth),
                            );
                        },
                        _ => {},
                    }
                },
            }
            proof {
                assert(pv[y as int][x as int] == problem@[y as int]@[x as int]);
                assert(kv[y as int][x as int] == kind@[y as int]@[x as int]);
                assert(dv[y as int][x as int] == direction@[y as int]@[x as int]);
            }
            x += 1;
        }
        y += 1;
    }
    Ok(board)
}

} // verus!
