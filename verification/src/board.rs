//! The rendered answer board.
//!
//! A solver front end turns a puzzle's problem and its partially decided
//! answer into a flat list of drawing items: one entry per decided cell or
//! edge, carrying its position, color, and glyph.

use vstd::prelude::*;

verus! {

/// The family of board being rendered.
#[derive(Clone, Copy, Debug, PartialEq, Eq, Structural)]
pub enum BoardKind {
    Grid,
}

/// Drawing colors used by the front ends.
#[derive(Clone, Copy, Debug, PartialEq, Eq, Structural)]
pub enum ItemColor {
    Black,
    Green,
    Water,
}

/// The glyph drawn for one item.
#[derive(Clone, Copy, Debug, PartialEq, Eq, Structural)]
pub enum ItemKind {
    Dot,
    Block,
    Fill,
    Circle,
    Cross,
    Num(i32),
    ShugakuPillow,
    ShugakuFuton,
    ShugakuWest,
    ShugakuEast,
    ShugakuSouth,
    LineRight,
    LineDown,
}

/// One drawing item at a cell.
#[derive(Clone, Copy, Debug, PartialEq, Eq, Structural)]
pub struct Item {
    pub y: usize,
    pub x: usize,
    pub color: ItemColor,
    pub kind: ItemKind,
}

impl Item {
    /// An item at cell `(y, x)`.
    pub fn cell(y: usize, x: usize, color: ItemColor, kind: ItemKind) -> (r: Item)
        ensures
            r == (Item { y, x, color, kind }),
    {
        Item { y, x, color, kind }
    }
}

/// The decided halves of a grid's edge variables: `horizontal[y][x]` is the
/// edge between cells `(y, x)` and `(y, x + 1)`, `vertical[y][x]` the edge
/// between `(y, x)` and `(y + 1, x)`; `None` marks an edge the solver left
/// open.
pub struct BoolGridEdgesFacts {
    pub horizontal: Vec<Vec<Option<bool>>>,
    pub vertical: Vec<Vec<Option<bool>>>,
}

/// A rendered board: its dimensions, whether the answer was uniquely
/// determined, and the drawing items in the order they were produced.
pub struct Board {
    pub kind: BoardKind,
    pub height: usize,
    pub width: usize,
    pub is_unique: bool,
    pub items: Vec<Item>,
}

impl Board {
    /// An empty board.
    pub fn new(kind: BoardKind, height: usize, width: usize, is_unique: bool) -> (r: Board)
        ensures
            r.kind == kind,
            r.height == height,
            r.width == width,
            r.is_unique == is_unique,
            r.items@ == Seq::<Item>::empty(),
    {
        Board { kind, height, width, is_unique, items: Vec::new() }
    }

    /// Appends one drawing item.
    pub fn push(&mut self, item: Item)
        ensures
            final(self).kind == old(self).kind,
            final(self).height == old(self).height,
            final(self).width == old(self).width,
            final(self).is_unique == old(self).is_unique,
            final(self).items@ == old(self).items@.push(item),
    {
        self.items.push(item);
    }
}

/// The line items of one row of horizontal edges, through column `upto`.
pub open spec fn hline_row_items(
    row: Seq<Option<bool>>,
    skip: Seq<Seq<bool>>,
    use_skip: bool,
    y: int,
    upto: int,
) -> Seq<Item>
    decreases upto,
{
    if upto <= 0 {
        Seq::empty()
    } else {
        let rest = hline_row_items(row, skip, use_skip, y, upto - 1);
        let x = upto - 1;
        if row[x] == Some(true) && (!use_skip || (!skip[y][x] && !skip[y][x + 1])) {
            rest.push(
                Item { y: y as usize, x: x as usize, color: ItemColor::Green, kind: ItemKind::LineRight },
            )
        } else {
            rest
        }
    }
}

/// The line items of one row of vertical edges, through column `upto`.
pub open spec fn vline_row_items(
    row: Seq<Option<bool>>,
    skip: Seq<Seq<bool>>,
    use_skip: bool,
    y: int,
    upto: int,
) -> Seq<Item>
    decreases upto,
{
    if upto <= 0 {
        Seq::empty()
    } else {
        let rest = vline_row_items(row, skip, use_skip, y, upto - 1);
        let x = upto - 1;
        if row[x] == Some(true) && (!use_skip || (!skip[y][x] && !skip[y + 1][x])) {
            rest.push(
                Item { y: y as usize, x: x as usize, color: ItemColor::Green, kind: ItemKind::LineDown },
            )
        } else {
            rest
        }
    }
}

/// The line items of the first `upto` rows of horizontal edges.
pub open spec fn hline_items(
    edges: Seq<Seq<Option<bool>>>,
    skip: Seq<Seq<bool>>,
    use_skip: bool,
    upto: int,
) -> Seq<Item>
    decreases upto,
{
    if upto <= 0 {
        Seq::empty()
    } else {
        hline_items(edges, skip, use_skip, upto - 1) + hline_row_items(
            edges[upto - 1],
            skip,
            use_skip,
            upto - 1,
            edges[upto - 1].len() as int,
        )
    }
}

/// The line items of the first `upto` rows of vertical edges.
pub open spec fn vline_items(
    edges: Seq<Seq<Option<bool>>>,
    skip: Seq<Seq<bool>>,
    use_skip: bool,
    upto: int,
) -> Seq<Item>
    decreases upto,
{
    if upto <= 0 {
        Seq::empty()
    } else {
        vline_items(edges, skip, use_skip, upto - 1) + vline_row_items(
            edges[upto - 1],
            skip,
            use_skip,
            upto - 1,
            edges[upto - 1].len() as int,
        )
    }
}

/// The view of a skip mask.
pub open spec fn skipv(skip: Seq<Vec<bool>>) -> Seq<Seq<bool>> {
    skip.map_values(|row: Vec<bool>| row@)
}

/// The view of an edge grid.
pub open spec fn edgev(edges: Seq<Vec<Option<bool>>>) -> Seq<Seq<Option<bool>>> {
    edges.map_values(|row: Vec<Option<bool>>| row@)
}

impl Board {
    /// Draws every edge the solver decided to be a line, first all
    /// horizontal edges in row-major order, then all vertical ones.  An
    /// edge both of whose endpoints are marked in the skip mask is left
    /// out.
    #[verifier::loop_isolation(false)]
    pub fn add_lines_irrefutable_facts(
        &mut self,
        lines: &BoolGridEdgesFacts,
        skip_line: Option<&Vec<Vec<bool>>>,
    )
        requires
            match skip_line {
                Some(skip) => {
                    &&& skip@.len() >= lines.horizontal@.len()
                    &&& skip@.len() > lines.vertical@.len()
                    &&& forall|y: int|
                        0 <= y < lines.horizontal@.len() ==> (#[trigger] skip@[y])@.len()
                            >= lines.horizontal@[y]@.len() + 1
                    &&& forall|y: int|
                        0 <= y < lines.vertical@.len() ==> (#[trigger] skip@[y])@.len()
                            >= lines.vertical@[y]@.len() && skip@[y + 1]@.len()
                            >= lines.vertical@[y]@.len()
                },
                None => true,
            },
        ensures
            final(self).kind == old(self).kind,
            final(self).height == old(self).height,
            final(self).width == old(self).width,
            final(self).is_unique == old(self).is_unique,
            final(self).items@ == old(self).items@ + hline_items(
                edgev(lines.horizontal@),
                match skip_line {
                    Some(skip) => skipv(skip@),
                    None => Seq::empty(),
                },
                skip_line is Some,
                lines.horizontal@.len() as int,
            ) + vline_items(
                edgev(lines.vertical@),
                match skip_line {
                    Some(skip) => skipv(skip@),
                    None => Seq::empty(),
                },
                skip_line is Some,
                lines.vertical@.len() as int,
            ),
    {
        let ghost base = self.items@;
        let ghost gskip: Seq<Seq<bool>> = match skip_line {
            Some(skip) => skipv(skip@),
            None => Seq::empty(),
        };
        let ghost use_skip = skip_line is Some;
        let mut y: usize = 0;
        while y < lines.horizontal.len()
            invariant
                y <= lines.horizontal@.len(),
                self.kind == old(self).kind,
                self.height == old(self).height,
                self.width == old(self).width,
                self.is_unique == old(self).is_unique,
                base == old(self).items@,
                gskip == match skip_line {
                    Some(skip) => skipv(skip@),
                    None => Seq::<Seq<bool>>::empty(),
                },
                use_skip == skip_line is Some,
                match skip_line {
                    Some(skip) => {
                        &&& skip@.len() >= lines.horizontal@.len()
                        &&& skip@.len() > lines.vertical@.len()
                        &&& forall|yy: int|
                            0 <= yy < lines.horizontal@.len() ==> (#[trigger] skip@[yy])@.len()
                                >= lines.horizontal@[yy]@.len() + 1
                        &&& forall|yy: int|
                            0 <= yy < lines.vertical@.len() ==> (#[trigger] skip@[yy])@.len()
                                >= lines.vertical@[yy]@.len() && skip@[yy + 1]@.len()
                                >= lines.vertical@[yy]@.len()
                    },
                    None => true,
                },
                self.items@ == base + hline_items(
                    edgev(lines.horizontal@),
                    gskip,
                    use_skip,
                    y as int,
                ),
            decreases lines.horizontal@.len() - y,
        {
            let row = &lines.horizontal[y];
            let ghost rowbase = self.items@;
            let mut x: usize = 0;
            while x < row.len()
                invariant
                    x <= row@.len(),
                    y < lines.horizontal@.len(),
                    row == lines.horizontal@[y as int],
                    self.kind == old(self).kind,
                    self.height == old(self).height,
                    self.width == old(self).width,
                    self.is_unique == old(self).is_unique,
                    gskip == match skip_line {
                        Some(skip) => skipv(skip@),
                        None => Seq::<Seq<bool>>::empty(),
                    },
                    use_skip == skip_line is Some,
                    match skip_line {
                        Some(skip) => {
                            &&& skip@.len() >= lines.horizontal@.len()
                            &&& forall|yy: int|
                                0 <= yy < lines.horizontal@.len() ==> (
                                #[trigger] skip@[yy])@.len() >= lines.horizontal@[yy]@.len()
                                    + 1
                        },
                        None => true,
                    },
                    self.items@ == rowbase + hline_row_items(
                        row@,
                        gskip,
                        use_skip,
                        y as int,
                        x as int,
                    ),
                decreases row@.len() - x,
            {
                let keep: bool = match (row[x], skip_line) {
                    (Some(true), Some(skip)) => !skip[y][x] && !skip[y][x + 1],
                    (Some(true), None) => true,
                    _ => false,
                };
                if keep {
                    self.items.push(
                        Item { y, x, color: ItemColor::Green, kind: ItemKind::LineRight },
                    );
                }
                proof {
                    if keep {
                        assert(row@[x as int] == Some(true));
                    }
                }
                x += 1;
            }
            proof {
                assert(row@.len() as int == lines.horizontal@[y as int]@.len() as int);
                assert(edgev(lines.horizontal@)[y as int] == row@);
                assert(self.items@ == base + hline_items(
                    edgev(lines.horizontal@),
                    gskip,
                    use_skip,
                    y as int + 1,
                ));
            }
            y += 1;
        }
        let ghost hdone = self.items@;
        let mut y: usize = 0;
        while y < lines.vertical.len()
            invariant
                y <= lines.vertical@.len(),
                self.kind == old(self).kind,
                self.height == old(self).height,
                self.width == old(self).width,
                self.is_unique == old(self).is_unique,
                hdone == base + hline_items(
                    edgev(lines.horizontal@),
                    gskip,
                    use_skip,
                    lines.horizontal@.len() as int,
                ),
                base == old(self).items@,
                gskip == match skip_line {
                    Some(skip) => skipv(skip@),
                    None => Seq::<Seq<bool>>::empty(),
                },
                use_skip == skip_line is Some,
                match skip_line {
                    Some(skip) => {
                        &&& skip@.len() > lines.vertical@.len()
                        &&& forall|yy: int|
                            0 <= yy < lines.vertical@.len() ==> (#[trigger] skip@[yy])@.len()
                                >= lines.vertical@[yy]@.len() && skip@[yy + 1]@.len()
                                >= lines.vertical@[yy]@.len()
                    },
                    None => true,
                },
                self.items@ == hdone + vline_items(
                    edgev(lines.vertical@),
                    gskip,
                    use_skip,
                    y as int,
                ),
            decreases lines.vertical@.len() - y,
        {
            let row = &lines.vertical[y];
            let ghost rowbase = self.items@;
            let mut x: usize = 0;
            while x < row.len()
                invariant
                    x <= row@.len(),
                    y < lines.vertical@.len(),
                    row == lines.vertical@[y as int],
                    self.kind == old(self).kind,
                    self.height == old(self).height,
                    self.width == old(self).width,
                    self.is_unique == old(self).is_unique,
                    gskip == match skip_line {
                        Some(skip) => skipv(skip@),
                        None => Seq::<Seq<bool>>::empty(),
                    },
                    use_skip == skip_line is Some,
                    match skip_line {
                        Some(skip) => {
                            &&& skip@.len() > lines.vertical@.len()
                            &&& forall|yy: int|
                                0 <= yy < lines.vertical@.len() ==> (
                                #[trigger] skip@[yy])@.len() >= lines.vertical@[yy]@.len()
                                    && skip@[yy + 1]@.len() >= lines.vertical@[yy]@.len()
                        },
                        None => true,
                    },
                    self.items@ == rowbase + vline_row_items(
                        row@,
                        gskip,
                        use_skip,
                        y as int,
                        x as int,
                    ),
                decreases row@.len() - x,
            {
                let keep: bool = match (row[x], skip_line) {
                    (Some(true), Some(skip)) => !skip[y][x] && !skip[y + 1][x],
                    (Some(true), None) => true,
                    _ => false,
                };
                if keep {
                    self.items.push(
                        Item { y, x, color: ItemColor::Green, kind: ItemKind::LineDown },
                    );
                }
                proof {
                    if keep {
                        assert(row@[x as int] == Some(true));
                    }
                }
                x += 1;
            }
            proof {
                assert(edgev(lines.vertical@)[y as int] == row@);
                assert(self.items@ == hdone + vline_items(
                    edgev(lines.vertical@),
                    gskip,
                    use_skip,
                    y as int + 1,
                ));
            }
            y += 1;
        }
    }
}

} // verus!
