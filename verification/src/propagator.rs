//! The incremental propagator.
//!
//! A host constraint solver drives a search over boolean cell variables and
//! consults this propagator after assignments.  The propagator keeps a board
//! of ternary cell states and a LIFO decision stack; `notify` records an
//! assignment, `undo` retracts the most recent one, and
//! `find_inconsistency` decides whether two black-adjacent rooms have both
//! closed over black sets of the same canonical shape, returning a
//! sufficient explanation when they have.

use vstd::prelude::*;

use crate::canon::{canonical, ints_of, normalize_block, pset, COORD_LIMIT};

verus! {

/// The state of one cell of the board during search.
#[derive(PartialEq, Eq, Clone, Copy, Debug, Structural)]
pub enum CellState {
    Black,
    White,
    Undecided,
}

/// Upper bound on the grid height and width, chosen so that linear cell
/// indices and coordinate arithmetic stay well inside `i32` and `usize`.
pub const GRID_LIMIT: usize = 0x7fff;

/// The propagator enforcing that no two black-adjacent closed rooms hold
/// the same polyomino shape.
pub struct AnyminoConstraint {
    height: usize,
    width: usize,
    rooms: Vec<Vec<(usize, usize)>>,
    room_id_map: Vec<Vec<usize>>,
    board: Vec<Vec<CellState>>,
    decision_stack: Vec<(usize, usize)>,
}

impl AnyminoConstraint {
    /// Height of the grid.
    pub closed spec fn grid_height(self) -> int {
        self.height as int
    }

    /// Width of the grid.
    pub closed spec fn grid_width(self) -> int {
        self.width as int
    }

    /// Number of rooms of the fixed partition.
    pub closed spec fn room_count(self) -> int {
        self.rooms@.len() as int
    }

    /// The board as a sequence of rows of cell states.
    pub closed spec fn boardv(self) -> Seq<Seq<CellState>> {
        self.board@.map_values(|row: Vec<CellState>| row@)
    }

    /// The decision stack as a sequence of coordinates.
    pub closed spec fn stackv(self) -> Seq<(int, int)> {
        self.decision_stack@.map_values(|p: (usize, usize)| (p.0 as int, p.1 as int))
    }

    /// The cells of a room of the fixed partition.
    pub closed spec fn roomv(self, r: int) -> Seq<(int, int)> {
        self.rooms@[r]@.map_values(|p: (usize, usize)| (p.0 as int, p.1 as int))
    }

    /// The room holding the cell at `(y, x)`.
    pub closed spec fn room_of(self, y: int, x: int) -> int {
        self.room_id_map@[y]@[x] as int
    }

    /// The state of the cell at `(y, x)`.
    pub closed spec fn cell(self, y: int, x: int) -> CellState {
        self.boardv()[y][x]
    }

    /// Whether `(y, x)` lies on the board.
    pub open spec fn in_grid(self, y: int, x: int) -> bool {
        0 <= y < self.grid_height() && 0 <= x < self.grid_width()
    }

    /// The fixed part of the state: a partition of the grid into rooms with
    /// a consistent coordinate-to-room table.
    pub closed spec fn wf_static(self) -> bool {
        &&& 1 <= self.height <= GRID_LIMIT
        &&& 1 <= self.width <= GRID_LIMIT
        &&& self.board@.len() == self.height
        &&& forall|y: int| 0 <= y < self.height ==> (#[trigger] self.board@[y])@.len()
            == self.width
        &&& self.room_id_map@.len() == self.height
        &&& forall|y: int| 0 <= y < self.height ==> (#[trigger] self.room_id_map@[y])@.len()
            == self.width
        &&& forall|y: int, x: int|
            0 <= y < self.height && 0 <= x < self.width ==> (#[trigger] self.room_id_map@[y]@[x])
                < self.rooms@.len()
        &&& forall|r: int, k: int|
            0 <= r < self.rooms@.len() && 0 <= k < self.rooms@[r]@.len() ==> {
                let p = #[trigger] self.rooms@[r]@[k];
                p.0 < self.height && p.1 < self.width && self.room_id_map@[p.0 as int]@[p.1 as int]
                    == r
            }
        &&& forall|r: int| 0 <= r < self.rooms@.len() ==> (#[trigger] self.rooms@[r])@
            .no_duplicates()
        &&& forall|y: int, x: int|
            0 <= y < self.height && 0 <= x < self.width ==> #[trigger] self.rooms@[
                self.room_id_map@[y]@[x] as int
            ]@.contains((y as usize, x as usize))
    }

    /// The decision stack holds exactly the decided cells, each once.
    pub closed spec fn stack_ok(self) -> bool {
        &&& self.decision_stack@.no_duplicates()
        &&& forall|i: int|
            0 <= i < self.decision_stack@.len() ==> {
                let p = #[trigger] self.decision_stack@[i];
                p.0 < self.height && p.1 < self.width && self.cell(p.0 as int, p.1 as int)
                    != CellState::Undecided
            }
        &&& forall|y: int, x: int|
            0 <= y < self.height && 0 <= x < self.width && #[trigger] self.cell(y, x)
                != CellState::Undecided ==> self.decision_stack@.contains(
                (y as usize, x as usize),
            )
    }

    /// The propagator invariant.
    pub open spec fn wf(self) -> bool {
        self.wf_static() && self.stack_ok()
    }

    /// The fixed partition of two states agrees.
    pub open spec fn same_static(self, other: Self) -> bool {
        &&& self.grid_height() == other.grid_height()
        &&& self.grid_width() == other.grid_width()
        &&& self.room_count() == other.room_count()
        &&& forall|r: int| 0 <= r < self.room_count() ==> self.roomv(r) == other.roomv(r)
        &&& forall|y: int, x: int| self.in_grid(y, x) ==> self.room_of(y, x) == other.room_of(
            y,
            x,
        )
    }

    /// How one `notify` call changes the state.
    pub open spec fn notify_step(pre: Self, post: Self, index: int, value: bool) -> bool {
        &&& pre.wf()
        &&& post.wf()
        &&& pre.same_static(post)
        &&& 0 <= index < pre.grid_height() * pre.grid_width()
        &&& pre.cell(index / pre.grid_width(), index % pre.grid_width())
            == CellState::Undecided
        &&& post.stackv() == pre.stackv().push(
            (index / pre.grid_width(), index % pre.grid_width()),
        )
        &&& forall|y: int, x: int|
            pre.in_grid(y, x) ==> #[trigger] post.cell(y, x) == if y == index
                / pre.grid_width() && x == index % pre.grid_width() {
                if value {
                    CellState::Black
                } else {
                    CellState::White
                }
            } else {
                pre.cell(y, x)
            }
    }

    /// How one `undo` call changes the state.
    pub open spec fn undo_step(pre: Self, post: Self) -> bool {
        &&& pre.wf()
        &&& post.wf()
        &&& pre.same_static(post)
        &&& pre.stackv().len() > 0
        &&& post.stackv() == pre.stackv().drop_last()
        &&& forall|y: int, x: int|
            pre.in_grid(y, x) ==> #[trigger] post.cell(y, x) == if (y, x)
                == pre.stackv().last() {
                CellState::Undecided
            } else {
                pre.cell(y, x)
            }
    }

    /// Builds a propagator over a fixed partition of an `height` by `width`
    /// grid into rooms.  `room_id_map` must be the coordinate-to-room table
    /// of `rooms`.  The board starts all undecided with an empty stack.
    pub fn new(
        height: usize,
        width: usize,
        rooms: Vec<Vec<(usize, usize)>>,
        room_id_map: Vec<Vec<usize>>,
    ) -> (c: AnyminoConstraint)
        requires
            1 <= height <= GRID_LIMIT,
            1 <= width <= GRID_LIMIT,
            room_id_map@.len() == height,
            forall|y: int| 0 <= y < height ==> (#[trigger] room_id_map@[y])@.len() == width,
            forall|y: int, x: int|
                0 <= y < height && 0 <= x < width ==> (#[trigger] room_id_map@[y]@[x])
                    < rooms@.len(),
            forall|r: int, k: int|
                0 <= r < rooms@.len() && 0 <= k < rooms@[r]@.len() ==> {
                    let p = #[trigger] rooms@[r]@[k];
                    p.0 < height && p.1 < width && room_id_map@[p.0 as int]@[p.1 as int] == r
                },
            forall|r: int| 0 <= r < rooms@.len() ==> (#[trigger] rooms@[r])@.no_duplicates(),
            forall|y: int, x: int|
                0 <= y < height && 0 <= x < width ==> #[trigger] rooms@[
                    room_id_map@[y]@[x] as int
                ]@.contains((y as usize, x as usize)),
        ensures
            c.wf(),
            c.grid_height() == height,
            c.grid_width() == width,
            c.room_count() == rooms@.len(),
            c.stackv() == Seq::<(int, int)>::empty(),
            forall|y: int, x: int| c.in_grid(y, x) ==> c.cell(y, x) == CellState::Undecided,
            forall|r: int| 0 <= r < c.room_count() ==> c.roomv(r) == rooms@[r]@.map_values(
                |p: (usize, usize)| (p.0 as int, p.1 as int),
            ),
            forall|y: int, x: int| c.in_grid(y, x) ==> c.room_of(y, x) == room_id_map@[y]@[
                x
            ] as int,
    {
        let board = make_board(height, width);
        let c = AnyminoConstraint {
            height,
            width,
            rooms,
            room_id_map,
            board,
            decision_stack: Vec::new(),
        };
        proof {
            assert(c.stackv() =~= Seq::<(int, int)>::empty());
            assert forall|y: int, x: int| c.in_grid(y, x) implies c.cell(y, x)
                == CellState::Undecided by {
                assert(c.boardv()[y] == c.board@[y]@);
            }
        }
        c
    }

    /// Accepts the host solver's variable count, which must equal the cell
    /// count of the grid, and resets the board and the stack.
    pub fn initialize_sat(&mut self, num_inputs: usize)
        requires
            old(self).wf(),
            num_inputs == old(self).grid_height() * old(self).grid_width(),
        ensures
            final(self).wf(),
            old(self).same_static(*final(self)),
            final(self).stackv() == Seq::<(int, int)>::empty(),
            forall|y: int, x: int| final(self).in_grid(y, x) ==> final(self).cell(y, x)
                == CellState::Undecided,
    {
        let board = make_board(self.height, self.width);
        self.board = board;
        self.decision_stack = Vec::new();
        proof {
            assert(self.stackv() =~= Seq::<(int, int)>::empty());
            assert forall|y: int, x: int| self.in_grid(y, x) implies self.cell(y, x)
                == CellState::Undecided by {
                assert(self.boardv()[y] == self.board@[y]@);
            }
        }
    }

    /// Records the host solver's assignment of the cell with linear index
    /// `index`: black when `value` is true, white otherwise.  The cell must
    /// still be undecided; the coordinate is pushed on the decision stack.
    pub fn notify(&mut self, index: usize, value: bool)
        requires
            old(self).wf(),
            index < old(self).grid_height() * old(self).grid_width(),
            old(self).cell(
                index as int / old(self).grid_width(),
                index as int % old(self).grid_width(),
            ) == CellState::Undecided,
        ensures
            Self::notify_step(*old(self), *final(self), index as int, value),
    {
        let y = index / self.width;
        let x = index % self.width;
        proof {
            assert(y < self.height) by {
                assert(self.height * self.width == self.grid_height() * self.grid_width());
                if y >= self.height {
                    assert(index >= self.width * self.height) by (nonlinear_arith)
                        requires
                            y == index / self.width,
                            self.width > 0,
                            y >= self.height,
                    ;
                    assert(self.width * self.height == self.height * self.width) by (
                    nonlinear_arith);
                }
            }
            assert(x < self.width) by {
                assert(self.width > 0);
            }
        }
        let st = if value {
            CellState::Black
        } else {
            CellState::White
        };
        let ghost pre = *self;
        let row = &mut self.board[y];
        row[x] = st;
        self.decision_stack.push((y, x));
        proof {
            assert(self.boardv() =~= pre.boardv().update(
                y as int,
                pre.boardv()[y as int].update(x as int, st),
            ));
            assert(self.stackv() =~= pre.stackv().push((y as int, x as int)));
            assert forall|yy: int, xx: int| pre.in_grid(yy, xx) implies #[trigger] self.cell(
                yy,
                xx,
            ) == if yy == y as int && xx == x as int {
                st
            } else {
                pre.cell(yy, xx)
            } by {}
            assert(self.stack_ok()) by {
                assert(self.decision_stack@.no_duplicates()) by {
                    if pre.decision_stack@.contains((y, x)) {
                        let i = choose|i: int|
                            0 <= i < pre.decision_stack@.len() && pre.decision_stack@[i] == (
                            y,
                            x,
                            );
                        assert(pre.cell(y as int, x as int) != CellState::Undecided);
                    }
                    assert forall|m: int, n: int|
                        0 <= m < self.decision_stack@.len() && 0 <= n
                            < self.decision_stack@.len() && m != n implies self.decision_stack@[m]
                        != self.decision_stack@[n] by {
                        if m < self.decision_stack@.len() - 1 && n
                            < self.decision_stack@.len() - 1 {
                            assert(pre.decision_stack@[m] != pre.decision_stack@[n]);
                        }
                    }
                }
                assert forall|yy: int, xx: int|
                    0 <= yy < self.height && 0 <= xx < self.width && #[trigger] self.cell(yy, xx)
                        != CellState::Undecided implies self.decision_stack@.contains(
                    (yy as usize, xx as usize),
                ) by {
                    if yy == y as int && xx == x as int {
                        assert(self.decision_stack@[self.decision_stack@.len() - 1] == (y, x));
                    } else {
                        assert(pre.cell(yy, xx) != CellState::Undecided);
                        let i = choose|i: int|
                            0 <= i < pre.decision_stack@.len() && pre.decision_stack@[i] == (
                            yy as usize,
                            xx as usize,
                            );
                        assert(self.decision_stack@[i] == (yy as usize, xx as usize));
                    }
                }
            }
        }
    }

    /// Retracts the most recent still-standing assignment, resetting that
    /// cell to undecided and popping the decision stack.
    pub fn undo(&mut self)
        requires
            old(self).wf(),
            old(self).stackv().len() > 0,
        ensures
            Self::undo_step(*old(self), *final(self)),
    {
        let ghost pre = *self;
        let p = self.decision_stack.pop().unwrap();
        let (y, x) = p;
        proof {
            assert(pre.decision_stack@.last() == p);
            assert(y < self.height && x < self.width);
        }
        let row = &mut self.board[y];
        row[x] = CellState::Undecided;
        proof {
            assert(self.boardv() =~= pre.boardv().update(
                y as int,
                pre.boardv()[y as int].update(x as int, CellState::Undecided),
            ));
            assert(self.stackv() =~= pre.stackv().drop_last());
            assert(pre.stackv().last() == (y as int, x as int));
            assert forall|yy: int, xx: int| pre.in_grid(yy, xx) implies #[trigger] self.cell(
                yy,
                xx,
            ) == if (yy, xx) == pre.stackv().last() {
                CellState::Undecided
            } else {
                pre.cell(yy, xx)
            } by {
                if (yy, xx) != pre.stackv().last() {
                    assert(!(yy == y as int && xx == x as int));
                }
            }
            assert(self.stack_ok()) by {
                assert forall|i: int|
                    0 <= i < self.decision_stack@.len() implies {
                    let q = #[trigger] self.decision_stack@[i];
                    q.0 < self.height && q.1 < self.width && self.cell(q.0 as int, q.1 as int)
                        != CellState::Undecided
                } by {
                    assert(self.decision_stack@[i] == pre.decision_stack@[i]);
                    let q = self.decision_stack@[i];
                    assert(pre.cell(q.0 as int, q.1 as int) != CellState::Undecided);
                    if q == p {
                        assert(pre.decision_stack@[i] == pre.decision_stack@[
                            pre.decision_stack@.len() - 1
                        ]);
                        assert(false);
                    }
                    assert((q.0 as int, q.1 as int) != (y as int, x as int));
                }
                assert forall|yy: int, xx: int|
                    0 <= yy < self.height && 0 <= xx < self.width && #[trigger] self.cell(yy, xx)
                        != CellState::Undecided implies self.decision_stack@.contains(
                    (yy as usize, xx as usize),
                ) by {
                    assert(pre.cell(yy, xx) != CellState::Undecided);
                    let i = choose|i: int|
                        0 <= i < pre.decision_stack@.len() && pre.decision_stack@[i] == (
                        yy as usize,
                        xx as usize,
                        );
                    assert(i != pre.decision_stack@.len() - 1);
                    assert(self.decision_stack@[i] == (yy as usize, xx as usize));
                }
            }
        }
    }
}

impl AnyminoConstraint {
    /// How many assignments are currently on the decision stack.
    pub fn stack_len(&self) -> (n: usize)
        ensures
            n == self.stackv().len(),
    {
        self.decision_stack.len()
    }

    /// The current state of the cell at `(y, x)`.
    pub fn cell_state(&self, y: usize, x: usize) -> (s: CellState)
        requires
            self.wf(),
            self.in_grid(y as int, x as int),
        ensures
            s == self.cell(y as int, x as int),
    {
        let row = &self.board[y];
        let s = row[x];
        proof {
            assert(self.boardv()[y as int] == self.board@[y as int]@);
        }
        s
    }
}

/// Builds an all-undecided board of the given dimensions.
fn make_board(height: usize, width: usize) -> (b: Vec<Vec<CellState>>)
    ensures
        b@.len() == height,
        forall|y: int| 0 <= y < height ==> (#[trigger] b@[y])@.len() == width,
        forall|y: int, x: int|
            0 <= y < height && 0 <= x < width ==> #[trigger] b@[y]@[x] == CellState::Undecided,
{
    let mut b: Vec<Vec<CellState>> = Vec::new();
    let mut y: usize = 0;
    while y < height
        invariant
            y <= height,
            b@.len() == y,
            forall|i: int| 0 <= i < y ==> (#[trigger] b@[i])@.len() == width,
            forall|i: int, x: int|
                0 <= i < y && 0 <= x < width ==> #[trigger] b@[i]@[x] == CellState::Undecided,
        decreases height - y,
    {
        let mut row: Vec<CellState> = Vec::new();
        let mut x: usize = 0;
        while x < width
            invariant
                x <= width,
                row@.len() == x,
                forall|i: int| 0 <= i < x ==> #[trigger] row@[i] == CellState::Undecided,
            decreases width - x,
        {
            row.push(CellState::Undecided);
            x += 1;
        }
        b.push(row);
        y += 1;
    }
    b
}

// ---------------------------------------------------------------------------
// Stack discipline
// ---------------------------------------------------------------------------

/// Two propagator states with the same partition, board, and stack.
pub open spec fn same_state(a: AnyminoConstraint, b: AnyminoConstraint) -> bool {
    &&& a.same_static(b)
    &&& a.stackv() == b.stackv()
    &&& forall|y: int, x: int| a.in_grid(y, x) ==> a.cell(y, x) == #[trigger] b.cell(y, x)
}

/// With an empty decision stack the board is all undecided.
pub proof fn lemma_empty_stack_all_undecided(s: AnyminoConstraint)
    requires
        s.wf(),
        s.stackv().len() == 0,
    ensures
        forall|y: int, x: int| s.in_grid(y, x) ==> s.cell(y, x) == CellState::Undecided,
{
    assert forall|y: int, x: int| s.in_grid(y, x) implies s.cell(y, x)
        == CellState::Undecided by {
        if s.cell(y, x) != CellState::Undecided {
            assert(s.decided_cells().contains((y as usize, x as usize)));
        }
    }
}

impl AnyminoConstraint {
    /// The stack as the underlying coordinate list.
    pub closed spec fn decided_cells(self) -> Seq<(usize, usize)> {
        self.decision_stack@
    }

    /// The cells whose state is decided.
    pub open spec fn decided_set(self) -> Set<(int, int)> {
        Set::new(
            |p: (int, int)|
                self.in_grid(p.0, p.1) && self.cell(p.0, p.1) != CellState::Undecided,
        )
    }
}

/// The decision stack holds one entry per decided cell: its length is the
/// number of cells currently set away from undecided.
pub proof fn lemma_stack_counts_decided(s: AnyminoConstraint)
    requires
        s.wf(),
    ensures
        s.decided_set().finite(),
        s.stackv().len() == s.decided_set().len(),
{
    let su = s.decided_cells();
    let iu = upints(su);
    assert(iu.no_duplicates()) by {
        assert forall|m: int, n: int|
            0 <= m < iu.len() && 0 <= n < iu.len() && m != n implies iu[m] != iu[n] by {
            assert(su[m] != su[n]);
        }
    }
    assert(iu.to_set() =~= s.decided_set()) by {
        assert forall|p: (int, int)| iu.to_set().contains(p) implies s.decided_set().contains(
            p,
        ) by {
            let k = choose|k: int| 0 <= k < iu.len() && iu[k] == p;
            assert(su[k].0 < s.grid_height() && su[k].1 < s.grid_width() && s.cell(
                su[k].0 as int,
                su[k].1 as int,
            ) != CellState::Undecided);
        }
        assert forall|p: (int, int)| s.decided_set().contains(p) implies iu.to_set().contains(
            p,
        ) by {
            assert(su.contains((p.0 as usize, p.1 as usize)));
            let k = choose|k: int| 0 <= k < su.len() && su[k] == (p.0 as usize, p.1 as usize);
            assert(iu[k] == p);
        }
    }
    iu.unique_seq_to_set();
    assert(s.stackv().len() == su.len());
}

/// An `undo` exactly reverses the `notify` it follows.
pub proof fn lemma_undo_reverses_notify(
    pre: AnyminoConstraint,
    mid: AnyminoConstraint,
    post: AnyminoConstraint,
    index: int,
    value: bool,
)
    requires
        AnyminoConstraint::notify_step(pre, mid, index, value),
        AnyminoConstraint::undo_step(mid, post),
    ensures
        same_state(post, pre),
{
    let w = pre.grid_width();
    let c = (index / w, index % w);
    assert(mid.stackv().last() == c);
    assert(post.stackv() =~= pre.stackv());
    assert forall|y: int, x: int| post.in_grid(y, x) implies post.cell(y, x)
        == #[trigger] pre.cell(y, x) by {
        assert(mid.in_grid(y, x) && pre.in_grid(y, x));
        if (y, x) == c {
            assert(post.cell(y, x) == CellState::Undecided);
            assert(pre.cell(y, x) == CellState::Undecided);
        } else {
            assert(post.cell(y, x) == mid.cell(y, x));
            assert(mid.cell(y, x) == pre.cell(y, x));
        }
    }
}

/// Stack discipline: a run of `notify` calls followed by as many `undo`
/// calls returns the propagator to the state it started from.  The state
/// sequence `ns` records the states through the notifies, `us` the states
/// through the undos, starting from the last notified state.
pub proof fn lemma_stack_discipline(
    ns: Seq<AnyminoConstraint>,
    calls: Seq<(int, bool)>,
    us: Seq<AnyminoConstraint>,
)
    requires
        ns.len() >= 1,
        calls.len() == ns.len() - 1,
        us.len() == ns.len(),
        forall|i: int|
            0 <= i < calls.len() ==> AnyminoConstraint::notify_step(
                ns[i],
                ns[i + 1],
                (#[trigger] calls[i]).0,
                calls[i].1,
            ),
        same_state(us[0], ns.last()),
        forall|i: int| 0 <= i < us.len() - 1 ==> AnyminoConstraint::undo_step(
            #[trigger] us[i],
            us[i + 1],
        ),
    ensures
        same_state(us.last(), ns[0]),
    decreases ns.len(),
{
    if ns.len() == 1 {
        assert(us.last() == us[0]);
        assert(ns.last() == ns[0]);
    } else {
        let n = ns.len() - 1;
        // the first undo, transported to the last notified state
        assert(AnyminoConstraint::undo_step(us[0], us[1]));
        let mid = ns.last();
        assert(AnyminoConstraint::notify_step(
            ns[n - 1],
            ns[n as int],
            calls[n - 1].0,
            calls[n - 1].1,
        ));
        assert(mid.wf());
        assert(AnyminoConstraint::undo_step(mid, us[1])) by {
            assert(same_state(us[0], mid));
            assert(mid.stackv() == us[0].stackv());
            assert(us[1].stackv() == mid.stackv().drop_last());
            assert forall|y: int, x: int| mid.in_grid(y, x) implies #[trigger] us[1].cell(y, x)
                == if (y, x) == mid.stackv().last() {
                CellState::Undecided
            } else {
                mid.cell(y, x)
            } by {
                assert(us[0].in_grid(y, x));
                assert(us[1].cell(y, x) == if (y, x) == us[0].stackv().last() {
                    CellState::Undecided
                } else {
                    us[0].cell(y, x)
                });
                if (y, x) != mid.stackv().last() {
                    assert(us[0].cell(y, x) == mid.cell(y, x));
                }
            }
            assert(mid.same_static(us[1])) by {
                assert(us[0].same_static(us[1]));
                assert forall|r: int| 0 <= r < mid.room_count() implies mid.roomv(r) == us[1]
                    .roomv(r) by {
                    assert(us[0].roomv(r) == us[1].roomv(r));
                    assert(mid.roomv(r) == us[0].roomv(r));
                }
                assert forall|y: int, x: int| mid.in_grid(y, x) implies mid.room_of(y, x)
                    == us[1].room_of(y, x) by {
                    assert(us[0].room_of(y, x) == us[1].room_of(y, x));
                    assert(mid.room_of(y, x) == us[0].room_of(y, x));
                }
            }
        }
        lemma_undo_reverses_notify(ns[n - 1], mid, us[1], calls[n - 1].0, calls[n - 1].1);
        let ns2 = ns.take(n as int);
        let calls2 = calls.take(n - 1);
        let us2 = us.skip(1);
        assert(ns2.len() == n);
        assert(forall|i: int|
            0 <= i < calls2.len() ==> AnyminoConstraint::notify_step(
                ns2[i],
                ns2[i + 1],
                (#[trigger] calls2[i]).0,
                calls2[i].1,
            ));
        assert(same_state(us2[0], ns2.last()));
        assert(forall|i: int| 0 <= i < us2.len() - 1 ==> AnyminoConstraint::undo_step(
            #[trigger] us2[i],
            us2[i + 1],
        )) by {
            assert forall|i: int| 0 <= i < us2.len() - 1 implies AnyminoConstraint::undo_step(
                #[trigger] us2[i],
                us2[i + 1],
            ) by {
                assert(us2[i] == us[i + 1] && us2[i + 1] == us[i + 2]);
            }
        }
        lemma_stack_discipline(ns2, calls2, us2);
        assert(us2.last() == us.last());
        assert(ns2[0] == ns[0]);
    }
}

// ---------------------------------------------------------------------------
// The region tracker
// ---------------------------------------------------------------------------

/// Offset of the `d`-th edge-adjacent neighbor.
pub open spec fn dir_offset(d: int) -> (int, int) {
    if d == 0 {
        (0, 1)
    } else if d == 1 {
        (1, 0)
    } else if d == 2 {
        (0, -1)
    } else {
        (-1, 0)
    }
}

/// The `d`-th edge-adjacent neighbor of `(y, x)`.
pub open spec fn neighbor_of(y: int, x: int, d: int) -> (int, int) {
    (y + dir_offset(d).0, x + dir_offset(d).1)
}

/// A sequence of coordinate pairs as mathematical integers.
pub open spec fn upints(q: Seq<(usize, usize)>) -> Seq<(int, int)> {
    q.map_values(|p: (usize, usize)| (p.0 as int, p.1 as int))
}

impl AnyminoConstraint {
    /// The cell `(y, x)` is a black cell of room `r`.
    pub open spec fn black_at(self, r: int, y: int, x: int) -> bool {
        self.in_grid(y, x) && self.room_of(y, x) == r && self.cell(y, x) == CellState::Black
    }

    /// The black cells of room `r`.
    pub open spec fn black_region(self, r: int) -> Set<(int, int)> {
        Set::new(|p: (int, int)| self.black_at(r, p.0, p.1))
    }

    /// A black cell of room `r` whose `d`-th neighbor is an undecided cell
    /// of the same room: the witness that `r` is not closed.
    pub open spec fn open_witness(self, r: int, y: int, x: int, d: int) -> bool {
        let n = neighbor_of(y, x, d);
        self.black_at(r, y, x) && 0 <= d < 4 && self.in_grid(n.0, n.1) && self.room_of(
            n.0,
            n.1,
        ) == r && self.cell(n.0, n.1) == CellState::Undecided
    }

    /// Room `r` is closed: no black cell of `r` has an undecided neighbor
    /// in `r`.
    pub open spec fn room_closed(self, r: int) -> bool {
        forall|y: int, x: int, d: int| !self.open_witness(r, y, x, d)
    }

    /// A black cell of room `r` whose `d`-th neighbor is a white cell of
    /// the same room.
    pub open spec fn white_witness(self, r: int, y: int, x: int, d: int) -> bool {
        let n = neighbor_of(y, x, d);
        self.black_at(r, y, x) && 0 <= d < 4 && self.in_grid(n.0, n.1) && self.room_of(
            n.0,
            n.1,
        ) == r && self.cell(n.0, n.1) == CellState::White
    }

    /// The white cells of room `r` that are edge-adjacent to a black cell
    /// of `r`.
    pub open spec fn boundary_white(self, r: int) -> Set<(int, int)> {
        Set::new(
            |q: (int, int)|
                exists|y: int, x: int, d: int|
                    #[trigger] self.white_witness(r, y, x, d) && q == neighbor_of(y, x, d),
        )
    }

    /// A black cell of room `r` whose `d`-th neighbor is a black cell of
    /// room `r2`.
    pub open spec fn adj_witness(self, r: int, r2: int, y: int, x: int, d: int) -> bool {
        let n = neighbor_of(y, x, d);
        self.black_at(r, y, x) && 0 <= d < 4 && self.in_grid(n.0, n.1) && self.room_of(
            n.0,
            n.1,
        ) == r2 && self.cell(n.0, n.1) == CellState::Black
    }

    /// `open_witness` over a machine coordinate pair.
    pub open spec fn open_witness_at(self, r: int, p: (usize, usize), d: int) -> bool {
        self.open_witness(r, p.0 as int, p.1 as int, d)
    }

    /// `white_witness` over a machine coordinate pair.
    pub open spec fn white_witness_at(self, r: int, p: (usize, usize), d: int) -> bool {
        self.white_witness(r, p.0 as int, p.1 as int, d)
    }

    /// `adj_witness` over a machine coordinate pair.
    pub open spec fn adj_witness_at(self, r: int, r2: int, p: (usize, usize), d: int) -> bool {
        self.adj_witness(r, r2, p.0 as int, p.1 as int, d)
    }

    /// Rooms `r` and `r2` are distinct and touch through a pair of black
    /// cells.
    pub open spec fn rooms_black_adjacent(self, r: int, r2: int) -> bool {
        r != r2 && exists|y: int, x: int, d: int| self.adj_witness(r, r2, y, x, d)
    }

    /// Room `r` is closed with at least one black cell, so its shape takes
    /// part in conflicts.
    pub open spec fn room_shaped(self, r: int) -> bool {
        self.room_closed(r) && self.black_region(r).len() > 0
    }

    /// The canonical shape of the black cells of room `r`.
    pub open spec fn shape_of(self, r: int) -> Seq<(int, int)> {
        canonical(self.black_region(r))
    }

    /// Rooms `r` and `r2` violate the invariant: both closed around
    /// nonempty black sets, black-adjacent, and of the same canonical
    /// shape.
    pub open spec fn conflict_pair(self, r: int, r2: int) -> bool {
        &&& 0 <= r < self.room_count()
        &&& 0 <= r2 < self.room_count()
        &&& self.rooms_black_adjacent(r, r2)
        &&& self.room_shaped(r)
        &&& self.room_shaped(r2)
        &&& self.shape_of(r) == self.shape_of(r2)
    }

    /// The current partial assignment is inconsistent.
    pub open spec fn has_conflict(self) -> bool {
        exists|r: int, r2: int| self.conflict_pair(r, r2)
    }

    /// The linear index of a coordinate.
    pub open spec fn lin(self, p: (int, int)) -> int {
        p.0 * self.grid_width() + p.1
    }

    /// `v` is the explanation of the conflict between `r` and `r2`: the
    /// black cells of both rooms as positive literals and their boundary
    /// white cells as negative ones, each exactly once.
    pub open spec fn explanation_ok(self, v: Seq<(usize, bool)>, r: int, r2: int) -> bool {
        &&& v.no_duplicates()
        &&& v.map_values(|e: (usize, bool)| (e.0 as int, e.1)).to_set() == self.black_region(
            r,
        ).map(|p: (int, int)| (self.lin(p), true)).union(
            self.black_region(r2).map(|p: (int, int)| (self.lin(p), true)),
        ).union(self.boundary_white(r).map(|p: (int, int)| (self.lin(p), false))).union(
            self.boundary_white(r2).map(|p: (int, int)| (self.lin(p), false)),
        )
    }

    /// Collects the black cells of room `r`, in room order.
    fn collect_black(&self, r: usize) -> (bv: Vec<(usize, usize)>)
        requires
            self.wf(),
            r < self.room_count(),
        ensures
            bv@.no_duplicates(),
            upints(bv@).to_set() == self.black_region(r as int),
            forall|k: int| 0 <= k < bv@.len() ==> self.black_at(
                r as int,
                (#[trigger] bv@[k]).0 as int,
                bv@[k].1 as int,
            ),
    {
        let room = &self.rooms[r];
        let mut bv: Vec<(usize, usize)> = Vec::new();
        let mut i: usize = 0;
        while i < room.len()
            invariant
                self.wf(),
                r < self.room_count(),
                room == self.rooms@[r as int],
                i <= room@.len(),
                bv@.no_duplicates(),
                forall|k: int|
                    0 <= k < bv@.len() ==> exists|m: int| 0 <= m < i && room@[m] == #[trigger] bv@[
                        k
                    ],
                forall|k: int| 0 <= k < bv@.len() ==> self.black_at(
                    r as int,
                    (#[trigger] bv@[k]).0 as int,
                    bv@[k].1 as int,
                ),
                forall|k: int|
                    0 <= k < i ==> (self.black_at(
                        r as int,
                        (#[trigger] room@[k]).0 as int,
                        room@[k].1 as int,
                    ) ==> bv@.contains(room@[k])),
            decreases room@.len() - i,
        {
            let p = room[i];
            proof {
                assert(self.rooms@[r as int]@[i as int] == p);
                assert(p.0 < self.height && p.1 < self.width);
                assert(self.room_of(p.0 as int, p.1 as int) == r);
            }
            let row = &self.board[p.0];
            if row[p.1] == CellState::Black {
                proof {
                    assert(self.cell(p.0 as int, p.1 as int) == CellState::Black) by {
                        assert(self.boardv()[p.0 as int] == self.board@[p.0 as int]@);
                    }
                    assert((self.rooms@[r as int])@.no_duplicates());
                    assert(!bv@.contains(p)) by {
                        if bv@.contains(p) {
                            let k = choose|k: int| 0 <= k < bv@.len() && bv@[k] == p;
                            let m = choose|m: int| 0 <= m < i && room@[m] == bv@[k];
                            // a room lists each cell once; p is room[i]
                            assert(room@[m] == room@[i as int]);
                            assert(false);
                        }
                    }
                }
                let ghost bvold = bv@;
                bv.push(p);
                proof {
                    assert(forall|k: int|
                        0 <= k < bvold.len() ==> bv@[k] == bvold[k] && bv@.contains(
                            #[trigger] bv@[k],
                        ));
                    assert(bv@[bv@.len() - 1] == p);
                    assert(bv@.contains(p));
                    assert(self.black_at(r as int, p.0 as int, p.1 as int));
                    assert forall|k: int|
                        0 <= k < i + 1 && self.black_at(
                            r as int,
                            (#[trigger] room@[k]).0 as int,
                            room@[k].1 as int,
                        ) implies bv@.contains(room@[k]) by {
                        if k < i {
                            assert(bvold.contains(room@[k]));
                            let j = choose|j: int| 0 <= j < bvold.len() && bvold[j] == room@[k];
                            assert(bv@[j] == room@[k]);
                        }
                    }
                    assert forall|k: int| 0 <= k < bv@.len() implies exists|m: int|
                        0 <= m < i + 1 && room@[m] == #[trigger] bv@[k] by {
                        if k < bv@.len() - 1 {
                            let m = choose|m: int| 0 <= m < i && room@[m] == bvold[k];
                            assert(room@[m] == bv@[k]);
                        } else {
                            assert(room@[i as int] == bv@[k]);
                        }
                    }
                }
            } else {
                proof {
                    assert(self.cell(p.0 as int, p.1 as int) != CellState::Black) by {
                        assert(self.boardv()[p.0 as int] == self.board@[p.0 as int]@);
                    }
                    assert(!self.black_at(r as int, p.0 as int, p.1 as int));
                }
            }
            i += 1;
        }
        proof {
            assert(upints(bv@).to_set() =~= self.black_region(r as int)) by {
                assert forall|p: (int, int)| upints(bv@).to_set().contains(p) implies self
                    .black_region(r as int).contains(p) by {
                    let k = choose|k: int| 0 <= k < upints(bv@).len() && upints(bv@)[k] == p;
                    assert(self.black_at(r as int, bv@[k].0 as int, bv@[k].1 as int));
                }
                assert forall|p: (int, int)| self.black_region(r as int).contains(p) implies
                    upints(bv@).to_set().contains(p) by {
                    assert(self.black_at(r as int, p.0, p.1));
                    let u = (p.0 as usize, p.1 as usize);
                    assert(self.rooms@[self.room_of(p.0, p.1)]@.contains(u));
                    let k = choose|k: int| 0 <= k < room@.len() && room@[k] == u;
                    assert(self.black_at(
                        r as int,
                        (room@[k]).0 as int,
                        room@[k].1 as int,
                    ));
                    assert(bv@.contains(u));
                    let m = choose|m: int| 0 <= m < bv@.len() && bv@[m] == u;
                    assert(upints(bv@)[m] == p);
                }
            }
        }
        bv
    }
}

/// Whether a coordinate list holds a coordinate.
fn contains_cell(v: &Vec<(usize, usize)>, p: (usize, usize)) -> (r: bool)
    ensures
        r == v@.contains(p),
{
    let mut i: usize = 0;
    while i < v.len()
        invariant
            i <= v@.len(),
            forall|k: int| 0 <= k < i ==> #[trigger] v@[k] != p,
        decreases v@.len() - i,
    {
        if v[i].0 == p.0 && v[i].1 == p.1 {
            proof {
                assert(v@[i as int] == p);
            }
            return true;
        }
        i += 1;
    }
    proof {
        if v@.contains(p) {
            let k = choose|k: int| 0 <= k < v@.len() && v@[k] == p;
        }
    }
    false
}

impl AnyminoConstraint {
    /// Scans the neighbors of the black cells of room `r`, deciding whether
    /// the room is closed and collecting its boundary white cells and the
    /// rooms it touches through black cells.  The scan stops at the first
    /// undecided neighbor, so the collected cells are complete only when
    /// the room is closed; what was collected is sound either way.
    fn scan_room(&self, r: usize, blacks: &Vec<(usize, usize)>) -> (res: (
        bool,
        Vec<(usize, usize)>,
        Vec<usize>,
    ))
        requires
            self.wf(),
            r < self.room_count(),
            blacks@.no_duplicates(),
            upints(blacks@).to_set() == self.black_region(r as int),
            forall|k: int| 0 <= k < blacks@.len() ==> self.black_at(
                r as int,
                (#[trigger] blacks@[k]).0 as int,
                blacks@[k].1 as int,
            ),
        ensures
            res.0 == self.room_closed(r as int),
            forall|m: int|
                0 <= m < res.2@.len() ==> (#[trigger] res.2@[m]) < self.room_count()
                    && self.rooms_black_adjacent(r as int, res.2@[m] as int),
            res.0 ==> forall|r2: int|
                self.rooms_black_adjacent(r as int, r2) ==> exists|m: int|
                    0 <= m < res.2@.len() && (#[trigger] res.2@[m]) as int == r2,
            res.1@.no_duplicates(),
            forall|m: int| 0 <= m < res.1@.len() ==> self.boundary_white(r as int).contains(
                ((#[trigger] res.1@[m]).0 as int, res.1@[m].1 as int),
            ),
            res.0 ==> upints(res.1@).to_set() == self.boundary_white(r as int),
    {
        let mut closed = true;
        let mut whites: Vec<(usize, usize)> = Vec::new();
        let mut adj: Vec<usize> = Vec::new();
        let mut i: usize = 0;
        while i < blacks.len() && closed
            invariant
                self.wf(),
                r < self.room_count(),
                blacks@.no_duplicates(),
                upints(blacks@).to_set() == self.black_region(r as int),
                forall|k: int| 0 <= k < blacks@.len() ==> self.black_at(
                    r as int,
                    (#[trigger] blacks@[k]).0 as int,
                    blacks@[k].1 as int,
                ),
                i <= blacks@.len(),
                whites@.no_duplicates(),
                forall|m: int|
                    0 <= m < whites@.len() ==> self.boundary_white(r as int).contains(
                        ((#[trigger] whites@[m]).0 as int, whites@[m].1 as int),
                    ),
                forall|m: int|
                    0 <= m < adj@.len() ==> (#[trigger] adj@[m]) < self.room_count()
                        && self.rooms_black_adjacent(r as int, adj@[m] as int),
                !closed ==> !self.room_closed(r as int),
                closed ==> forall|k: int, dd: int|
                    0 <= k < i && 0 <= dd < 4 ==> !(#[trigger] self.open_witness_at(
                        r as int,
                        blacks@[k],
                        dd,
                    )),
                closed ==> forall|k: int, dd: int|
                    0 <= k < i && 0 <= dd < 4 && #[trigger] self.white_witness_at(
                        r as int,
                        blacks@[k],
                        dd,
                    ) ==> whites@.contains(
                        (
                            (blacks@[k].0 + dir_offset(dd).0) as usize,
                            (blacks@[k].1 + dir_offset(dd).1) as usize,
                        ),
                    ),
                closed ==> forall|k: int, dd: int, r2: int|
                    0 <= k < i && 0 <= dd < 4 && r2 != r as int && #[trigger] self.adj_witness_at(
                        r as int,
                        r2,
                        blacks@[k],
                        dd,
                    ) ==> exists|m: int| 0 <= m < adj@.len() && (#[trigger] adj@[m]) as int
                        == r2,
            decreases blacks@.len() - i,
        {
            let p = blacks[i];
            let ghost py = p.0 as int;
            let ghost px = p.1 as int;
            proof {
                assert(self.black_at(r as int, py, px));
            }
            let mut d: usize = 0;
            while d < 4 && closed
                invariant
                    self.wf(),
                    r < self.room_count(),
                    d <= 4,
                    i < blacks@.len(),
                    p == blacks@[i as int],
                    py == p.0 as int,
                    px == p.1 as int,
                    self.black_at(r as int, py, px),
                    p.0 < self.grid_height(),
                    p.1 < self.grid_width(),
                    whites@.no_duplicates(),
                    forall|m: int|
                        0 <= m < whites@.len() ==> self.boundary_white(r as int).contains(
                            ((#[trigger] whites@[m]).0 as int, whites@[m].1 as int),
                        ),
                    forall|m: int|
                        0 <= m < adj@.len() ==> (#[trigger] adj@[m]) < self.room_count()
                            && self.rooms_black_adjacent(r as int, adj@[m] as int),
                    !closed ==> !self.room_closed(r as int),
                    closed ==> forall|k: int, dd: int|
                        0 <= k < i && 0 <= dd < 4 ==> !(#[trigger] self.open_witness_at(
                            r as int,
                            blacks@[k],
                            dd,
                        )),
                    closed ==> forall|dd: int| 0 <= dd < d ==> !self.open_witness(
                        r as int,
                        py,
                        px,
                        dd,
                    ),
                    closed ==> forall|k: int, dd: int|
                        0 <= k < i && 0 <= dd < 4 && #[trigger] self.white_witness_at(
                            r as int,
                            blacks@[k],
                            dd,
                        ) ==> whites@.contains(
                            (
                                (blacks@[k].0 + dir_offset(dd).0) as usize,
                                (blacks@[k].1 + dir_offset(dd).1) as usize,
                            ),
                        ),
                    closed ==> forall|dd: int|
                        0 <= dd < d && self.white_witness(r as int, py, px, dd)
                            ==> whites@.contains(
                            (
                                (py + dir_offset(dd).0) as usize,
                                (px + dir_offset(dd).1) as usize,
                            ),
                        ),
                    closed ==> forall|k: int, dd: int, r2: int|
                        0 <= k < i && 0 <= dd < 4 && r2 != r as int && #[trigger] self.adj_witness_at(
                            r as int,
                            r2,
                            blacks@[k],
                            dd,
                        ) ==> exists|m: int| 0 <= m < adj@.len() && (#[trigger] adj@[m]) as int
                            == r2,
                    closed ==> forall|dd: int, r2: int|
                        0 <= dd < d && r2 != r as int && self.adj_witness(r as int, r2, py, px, dd) ==> exists|
                            m: int,
                        | 0 <= m < adj@.len() && (#[trigger] adj@[m]) as int == r2,
                decreases 4 - d,
            {
                let delta = dir_delta(d);
                let ny_i = p.0 as i32 + delta.0;
                let nx_i = p.1 as i32 + delta.1;
                let ghost n = neighbor_of(py, px, d as int);
                proof {
                    assert(n.0 == ny_i as int && n.1 == nx_i as int);
                }
                if ny_i >= 0 && nx_i >= 0 && (ny_i as usize) < self.height && (nx_i as usize)
                    < self.width {
                    let ny = ny_i as usize;
                    let nx = nx_i as usize;
                    proof {
                        assert(self.in_grid(n.0, n.1));
                        assert(n == (ny as int, nx as int));
                    }
                    let nroom = self.room_id_map[ny][nx];
                    let row = &self.board[ny];
                    let ncell = row[nx];
                    proof {
                        assert(nroom as int == self.room_of(n.0, n.1));
                        assert(ncell == self.cell(n.0, n.1)) by {
                            assert(self.boardv()[n.0] == self.board@[n.0]@);
                        }
                    }
                    if nroom != r {
                        if ncell == CellState::Black {
                            let ghost adjold = adj@;
                            adj.push(nroom);
                            proof {
                                assert(self.adj_witness(
                                    r as int,
                                    nroom as int,
                                    py,
                                    px,
                                    d as int,
                                ));
                                assert(self.rooms_black_adjacent(r as int, nroom as int));
                                assert(forall|m: int|
                                    0 <= m < adjold.len() ==> adj@[m] == adjold[m]);
                                assert(adj@[adj@.len() - 1] == nroom);
                            }
                        }
                    } else if ncell == CellState::White {
                        proof {
                            assert(self.white_witness(r as int, py, px, d as int));
                            assert(self.boundary_white(r as int).contains(n));
                        }
                        if !contains_cell(&whites, (ny, nx)) {
                            let ghost whold = whites@;
                            whites.push((ny, nx));
                            proof {
                                assert(forall|m: int|
                                    0 <= m < whold.len() ==> whites@[m] == whold[m]);
                                assert(whites@[whites@.len() - 1] == (ny, nx));
                                assert(whites@.no_duplicates()) by {
                                    assert forall|a: int, b: int|
                                        0 <= a < whites@.len() && 0 <= b < whites@.len() && a
                                            != b implies whites@[a] != whites@[b] by {
                                        if a < whites@.len() - 1 && b < whites@.len() - 1 {
                                            assert(whold[a] != whold[b]);
                                        } else if a == whites@.len() - 1 {
                                            assert(!whold.contains((ny, nx)));
                                            if whites@[a] == whites@[b] {
                                                assert(whold[b] == (ny, nx));
                                            }
                                        } else {
                                            assert(!whold.contains((ny, nx)));
                                            if whites@[a] == whites@[b] {
                                                assert(whold[a] == (ny, nx));
                                            }
                                        }
                                    }
                                }
                            }
                        }
                        proof {
                            assert(whites@.contains((ny, nx)));
                        }
                    } else if ncell == CellState::Undecided {
                        closed = false;
                        proof {
                            assert(self.open_witness(r as int, py, px, d as int));
                            assert(!self.room_closed(r as int));
                        }
                    }
                } else {
                    proof {
                        assert(!self.in_grid(n.0, n.1));
                        assert(!self.open_witness(r as int, py, px, d as int));
                        assert(!self.white_witness(r as int, py, px, d as int));
                        assert(forall|r2: int| !self.adj_witness(r as int, r2, py, px, d as int));
                    }
                }
                d += 1;
            }
            i += 1;
        }
        proof {
            if closed {
                assert(self.room_closed(r as int)) by {
                    if !self.room_closed(r as int) {
                        let (y, x, dd) = choose|y: int, x: int, dd: int|
                            self.open_witness(r as int, y, x, dd);
                        assert(self.black_at(r as int, y, x));
                        assert(self.black_region(r as int).contains((y, x)));
                        assert(upints(blacks@).to_set().contains((y, x)));
                        let k = choose|k: int|
                            0 <= k < upints(blacks@).len() && upints(blacks@)[k] == (y, x);
                        assert(blacks@[k].0 as int == y && blacks@[k].1 as int == x);
                        assert(self.open_witness_at(r as int, blacks@[k], dd));
                        assert(false);
                    }
                }
                assert(upints(whites@).to_set() =~= self.boundary_white(r as int)) by {
                    assert forall|q: (int, int)| upints(whites@).to_set().contains(q) implies
                        self.boundary_white(r as int).contains(q) by {
                        let m = choose|m: int|
                            0 <= m < upints(whites@).len() && upints(whites@)[m] == q;
                        assert(self.boundary_white(r as int).contains(
                            (whites@[m].0 as int, whites@[m].1 as int),
                        ));
                    }
                    assert forall|q: (int, int)| self.boundary_white(r as int).contains(
                        q,
                    ) implies upints(whites@).to_set().contains(q) by {
                        let (y, x, dd) = choose|y: int, x: int, dd: int|
                            #[trigger] self.white_witness(r as int, y, x, dd) && q
                                == neighbor_of(y, x, dd);
                        assert(self.black_at(r as int, y, x));
                        assert(self.black_region(r as int).contains((y, x)));
                        assert(upints(blacks@).to_set().contains((y, x)));
                        let k = choose|k: int|
                            0 <= k < upints(blacks@).len() && upints(blacks@)[k] == (y, x);
                        assert(blacks@[k].0 as int == y && blacks@[k].1 as int == x);
                        assert(self.white_witness_at(r as int, blacks@[k], dd));
                        let u = (
                            (blacks@[k].0 + dir_offset(dd).0) as usize,
                            (blacks@[k].1 + dir_offset(dd).1) as usize,
                        );
                        assert(whites@.contains(u));
                        let m = choose|m: int| 0 <= m < whites@.len() && whites@[m] == u;
                        assert(self.in_grid(q.0, q.1));
                        assert(upints(whites@)[m] == q);
                    }
                }
                assert forall|r2: int|
                    self.rooms_black_adjacent(r as int, r2) implies exists|m: int|
                    0 <= m < adj@.len() && (#[trigger] adj@[m]) as int == r2 by {
                    let (y, x, dd) = choose|y: int, x: int, dd: int|
                        self.adj_witness(r as int, r2, y, x, dd);
                    assert(self.black_at(r as int, y, x));
                    assert(self.black_region(r as int).contains((y, x)));
                    assert(upints(blacks@).to_set().contains((y, x)));
                    let k = choose|k: int|
                        0 <= k < upints(blacks@).len() && upints(blacks@)[k] == (y, x);
                    assert(blacks@[k].0 as int == y && blacks@[k].1 as int == x);
                    assert(self.adj_witness_at(r as int, r2, blacks@[k], dd));
                }
            }
        }
        let res = (closed, whites, adj);
        proof {
            if closed {
                assert forall|r2: int| self.rooms_black_adjacent(r as int, r2) implies exists|
                    m: int,
                | 0 <= m < res.2@.len() && (#[trigger] res.2@[m]) as int == r2 by {
                    let m = choose|m: int| 0 <= m < res.2@.len() && res.2@[m] as int == r2;
                    assert(res.2@[m] as int == r2);
                }
            }
        }
        res
    }
}

/// The `d`-th neighbor offset as machine integers.
fn dir_delta(d: usize) -> (r: (i32, i32))
    requires
        d < 4,
    ensures
        (r.0 as int, r.1 as int) == dir_offset(d as int),
{
    if d == 0 {
        (0, 1)
    } else if d == 1 {
        (1, 0)
    } else if d == 2 {
        (0, -1)
    } else {
        (-1, 0)
    }
}

/// Whether two blocks list the same coordinates in the same order.
fn blocks_equal(a: &Vec<(i32, i32)>, b: &Vec<(i32, i32)>) -> (r: bool)
    ensures
        r == (ints_of(a@) == ints_of(b@)),
{
    if a.len() != b.len() {
        proof {
            assert(ints_of(a@).len() != ints_of(b@).len());
        }
        return false;
    }
    let mut i: usize = 0;
    while i < a.len()
        invariant
            a@.len() == b@.len(),
            i <= a@.len(),
            forall|k: int| 0 <= k < i ==> ints_of(a@)[k] == ints_of(b@)[k],
        decreases a@.len() - i,
    {
        let pa = a[i];
        let pb = b[i];
        if pa.0 != pb.0 || pa.1 != pb.1 {
            proof {
                assert(ints_of(a@)[i as int] != ints_of(b@)[i as int]);
            }
            return false;
        }
        proof {
            assert(ints_of(a@)[i as int] == ints_of(b@)[i as int]);
        }
        i += 1;
    }
    proof {
        assert(ints_of(a@) =~= ints_of(b@));
    }
    true
}

impl AnyminoConstraint {
    /// Distinct cells of the grid have distinct linear indices.
    proof fn lemma_lin_injective(self, p: (int, int), q: (int, int))
        requires
            self.in_grid(p.0, p.1),
            self.in_grid(q.0, q.1),
            p != q,
        ensures
            self.lin(p) != self.lin(q),
    {
        let w = self.grid_width();
        if p.0 != q.0 {
            assert(p.0 * w + p.1 != q.0 * w + q.1) by (nonlinear_arith)
                requires
                    0 <= p.1 < w,
                    0 <= q.1 < w,
                    p.0 != q.0,
                    0 <= p.0,
                    0 <= q.0,
            ;
        }
    }

    /// Converts grid coordinates to machine coordinates for the
    /// canonicalizer.
    fn to_block(&self, cells: &Vec<(usize, usize)>) -> (r: Vec<(i32, i32)>)
        requires
            self.wf(),
            cells@.no_duplicates(),
            forall|k: int|
                0 <= k < cells@.len() ==> (#[trigger] cells@[k]).0 < self.grid_height()
                    && cells@[k].1 < self.grid_width(),
        ensures
            ints_of(r@) == upints(cells@),
            r@.no_duplicates(),
            forall|i: int|
                0 <= i < r@.len() ==> -COORD_LIMIT <= (#[trigger] r@[i]).0 <= COORD_LIMIT
                    && -COORD_LIMIT <= r@[i].1 <= COORD_LIMIT,
    {
        let mut r: Vec<(i32, i32)> = Vec::new();
        let mut i: usize = 0;
        while i < cells.len()
            invariant
                self.wf(),
                cells@.no_duplicates(),
                forall|k: int|
                    0 <= k < cells@.len() ==> (#[trigger] cells@[k]).0 < self.grid_height()
                        && cells@[k].1 < self.grid_width(),
                i <= cells@.len(),
                r@.len() == i,
                forall|k: int|
                    0 <= k < i ==> #[trigger] r@[k] == (
                        cells@[k].0 as i32,
                        cells@[k].1 as i32,
                    ),
            decreases cells@.len() - i,
        {
            let p = cells[i];
            r.push((p.0 as i32, p.1 as i32));
            i += 1;
        }
        proof {
            assert(ints_of(r@) =~= upints(cells@));
            assert forall|a: int, b: int|
                0 <= a < r@.len() && 0 <= b < r@.len() && a != b implies r@[a] != r@[b] by {
                assert(cells@[a] != cells@[b]);
            }
        }
        r
    }

    /// Appends one literal per cell: the cell's linear index paired with
    /// `value`.
    fn push_literals(&self, cells: &Vec<(usize, usize)>, value: bool, out: &mut Vec<(usize, bool)>)
        requires
            self.wf(),
            forall|k: int|
                0 <= k < cells@.len() ==> (#[trigger] cells@[k]).0 < self.grid_height()
                    && cells@[k].1 < self.grid_width(),
        ensures
            final(out)@.len() == old(out)@.len() + cells@.len(),
            forall|m: int| 0 <= m < old(out)@.len() ==> #[trigger] final(out)@[m] == old(out)@[m],
            forall|m: int|
                old(out)@.len() <= m < final(out)@.len() ==> (#[trigger] final(out)@[m]).0 as int
                    == self.lin(upints(cells@)[m - old(out)@.len()]) && final(out)@[m].1
                    == value,
    {
        let ghost base = out@.len() as int;
        let mut i: usize = 0;
        while i < cells.len()
            invariant
                self.wf(),
                forall|k: int|
                    0 <= k < cells@.len() ==> (#[trigger] cells@[k]).0 < self.grid_height()
                        && cells@[k].1 < self.grid_width(),
                i <= cells@.len(),
                out@.len() == base + i,
                base == old(out)@.len(),
                forall|m: int| 0 <= m < base ==> #[trigger] out@[m] == old(out)@[m],
                forall|m: int|
                    base <= m < out@.len() ==> (#[trigger] out@[m]).0 as int == self.lin(
                        upints(cells@)[m - base],
                    ) && out@[m].1 == value,
            decreases cells@.len() - i,
        {
            let p = cells[i];
            proof {
                assert(p.0 * self.width + p.1 < 0x40000000) by (nonlinear_arith)
                    requires
                        p.0 < 0x8000,
                        p.1 < 0x8000,
                        self.width <= 0x7fff,
                ;
            }
            let idx = p.0 * self.width + p.1;
            out.push((idx, value));
            proof {
                assert(upints(cells@)[i as int] == (p.0 as int, p.1 as int));
                assert(out@[base + i] == (idx, value));
            }
            i += 1;
        }
    }
}

impl AnyminoConstraint {
    /// Every boundary white cell lies on the grid, in its room, and is
    /// white.
    proof fn lemma_boundary_white_members(self, r: int)
        ensures
            forall|q: (int, int)| #[trigger] self.boundary_white(r).contains(q) ==> self.in_grid(
                q.0,
                q.1,
            ) && self.room_of(q.0, q.1) == r && self.cell(q.0, q.1) == CellState::White,
    {
        assert forall|q: (int, int)| #[trigger] self.boundary_white(r).contains(q) implies self
            .in_grid(q.0, q.1) && self.room_of(q.0, q.1) == r && self.cell(q.0, q.1)
            == CellState::White by {
            let (y, x, d) = choose|y: int, x: int, d: int|
                #[trigger] self.white_witness(r, y, x, d) && q == neighbor_of(y, x, d);
        }
    }

    /// The literal list built from the black cells of two distinct rooms
    /// and their boundary white cells is a well-formed explanation.
    proof fn lemma_explanation(
        self,
        r: int,
        r2: int,
        v: Seq<(usize, bool)>,
        br: Seq<(usize, usize)>,
        br2: Seq<(usize, usize)>,
        wr: Seq<(usize, usize)>,
        wr2: Seq<(usize, usize)>,
    )
        requires
            self.wf(),
            0 <= r < self.room_count(),
            0 <= r2 < self.room_count(),
            r != r2,
            br.no_duplicates(),
            upints(br).to_set() == self.black_region(r),
            br2.no_duplicates(),
            upints(br2).to_set() == self.black_region(r2),
            wr.no_duplicates(),
            upints(wr).to_set() == self.boundary_white(r),
            wr2.no_duplicates(),
            upints(wr2).to_set() == self.boundary_white(r2),
            v.len() == br.len() + br2.len() + wr.len() + wr2.len(),
            forall|m: int| 0 <= m < br.len() ==> (#[trigger] v[m]).0 as int == self.lin(
                upints(br)[m],
            ) && v[m].1 == true,
            forall|m: int|
                br.len() <= m < br.len() + br2.len() ==> (#[trigger] v[m]).0 as int == self.lin(
                    upints(br2)[m - br.len()],
                ) && v[m].1 == true,
            forall|m: int|
                br.len() + br2.len() <= m < br.len() + br2.len() + wr.len() ==> (#[trigger] v[
                    m
                ]).0 as int == self.lin(upints(wr)[m - br.len() - br2.len()]) && v[m].1
                    == false,
            forall|m: int|
                br.len() + br2.len() + wr.len() <= m < v.len() ==> (#[trigger] v[m]).0 as int
                    == self.lin(upints(wr2)[m - br.len() - br2.len() - wr.len()]) && v[m].1
                    == false,
        ensures
            self.explanation_ok(v, r, r2),
    {
        let l0 = br.len() as int;
        let l1 = l0 + br2.len();
        let l2 = l1 + wr.len();
        let l3 = l2 + wr2.len();
        self.lemma_boundary_white_members(r);
        self.lemma_boundary_white_members(r2);
        // the source coordinate of each literal
        let src = |m: int|
            if m < l0 {
                upints(br)[m]
            } else if m < l1 {
                upints(br2)[m - l0]
            } else if m < l2 {
                upints(wr)[m - l1]
            } else {
                upints(wr2)[m - l2]
            };
        assert forall|m: int| 0 <= m < l3 implies self.in_grid(src(m).0, src(m).1) && (v[
            m
        ]).0 as int == self.lin(src(m)) by {
            if m < l0 {
                assert(upints(br).to_set().contains(upints(br)[m]));
            } else if m < l1 {
                assert(upints(br2).to_set().contains(upints(br2)[m - l0]));
            } else if m < l2 {
                assert(upints(wr).to_set().contains(upints(wr)[m - l1]));
            } else {
                assert(upints(wr2).to_set().contains(upints(wr2)[m - l2]));
            }
        }
        // rooms own their cells exclusively, so sources in different groups
        // with the same polarity differ
        assert forall|m: int, n: int| 0 <= m < l3 && 0 <= n < l3 && m != n implies v[m] != v[
            n
        ] by {
            if (m < l1) != (n < l1) {
                assert(v[m].1 != v[n].1);
            } else {
                let pm = src(m);
                let pn = src(n);
                if m < l0 {
                    assert(upints(br).to_set().contains(upints(br)[m]));
                    assert(self.black_region(r).contains(pm));
                } else if m < l1 {
                    assert(upints(br2).to_set().contains(upints(br2)[m - l0]));
                    assert(self.black_region(r2).contains(pm));
                } else if m < l2 {
                    assert(upints(wr).to_set().contains(upints(wr)[m - l1]));
                    assert(self.boundary_white(r).contains(pm));
                } else {
                    assert(upints(wr2).to_set().contains(upints(wr2)[m - l2]));
                    assert(self.boundary_white(r2).contains(pm));
                }
                if n < l0 {
                    assert(upints(br).to_set().contains(upints(br)[n]));
                    assert(self.black_region(r).contains(pn));
                } else if n < l1 {
                    assert(upints(br2).to_set().contains(upints(br2)[n - l0]));
                    assert(self.black_region(r2).contains(pn));
                } else if n < l2 {
                    assert(upints(wr).to_set().contains(upints(wr)[n - l1]));
                    assert(self.boundary_white(r).contains(pn));
                } else {
                    assert(upints(wr2).to_set().contains(upints(wr2)[n - l2]));
                    assert(self.boundary_white(r2).contains(pn));
                }
                assert(pm != pn) by {
                    if m < l0 && n < l0 {
                        assert(br[m] != br[n]);
                    } else if l0 <= m < l1 && l0 <= n < l1 {
                        assert(br2[m - l0] != br2[n - l0]);
                    } else if l1 <= m < l2 && l1 <= n < l2 {
                        assert(wr[m - l1] != wr[n - l1]);
                    } else if l2 <= m && l2 <= n {
                        assert(wr2[m - l2] != wr2[n - l2]);
                    } else if pm == pn {
                        // cells of distinct rooms cannot coincide
                        assert(self.room_of(pm.0, pm.1) == r && self.room_of(pm.0, pm.1) == r2
                            || self.room_of(pm.0, pm.1) == r2 && self.room_of(pm.0, pm.1)
                            == r);
                        assert(false);
                    }
                }
                self.lemma_lin_injective(pm, pn);
                assert(v[m].0 as int != v[n].0 as int);
            }
        }
        // the literal set is exactly the explanation set
        let w = v.map_values(|e: (usize, bool)| (e.0 as int, e.1));
        let target = self.black_region(r).map(|p: (int, int)| (self.lin(p), true)).union(
            self.black_region(r2).map(|p: (int, int)| (self.lin(p), true)),
        ).union(self.boundary_white(r).map(|p: (int, int)| (self.lin(p), false))).union(
            self.boundary_white(r2).map(|p: (int, int)| (self.lin(p), false)),
        );
        assert(w.to_set() =~= target) by {
            assert forall|e: (int, bool)| w.to_set().contains(e) implies target.contains(e) by {
                let m = choose|m: int| 0 <= m < w.len() && w[m] == e;
                if m < l0 {
                    assert(self.black_region(r).contains(src(m)));
                    assert(self.black_region(r).map(
                        |p: (int, int)| (self.lin(p), true),
                    ).contains((self.lin(src(m)), true)));
                } else if m < l1 {
                    assert(self.black_region(r2).contains(src(m)));
                    assert(self.black_region(r2).map(
                        |p: (int, int)| (self.lin(p), true),
                    ).contains((self.lin(src(m)), true)));
                } else if m < l2 {
                    assert(self.boundary_white(r).contains(src(m)));
                    assert(self.boundary_white(r).map(
                        |p: (int, int)| (self.lin(p), false),
                    ).contains((self.lin(src(m)), false)));
                } else {
                    assert(self.boundary_white(r2).contains(src(m)));
                    assert(self.boundary_white(r2).map(
                        |p: (int, int)| (self.lin(p), false),
                    ).contains((self.lin(src(m)), false)));
                }
            }
            assert forall|e: (int, bool)| target.contains(e) implies w.to_set().contains(e) by {
                if self.black_region(r).map(|p: (int, int)| (self.lin(p), true)).contains(e) {
                    let p = choose|p: (int, int)|
                        self.black_region(r).contains(p) && (self.lin(p), true) == e;
                    assert(upints(br).to_set().contains(p));
                    let k = choose|k: int| 0 <= k < upints(br).len() && upints(br)[k] == p;
                    assert(w[k] == e);
                } else if self.black_region(r2).map(
                    |p: (int, int)| (self.lin(p), true),
                ).contains(e) {
                    let p = choose|p: (int, int)|
                        self.black_region(r2).contains(p) && (self.lin(p), true) == e;
                    assert(upints(br2).to_set().contains(p));
                    let k = choose|k: int| 0 <= k < upints(br2).len() && upints(br2)[k] == p;
                    assert(w[l0 + k] == e);
                } else if self.boundary_white(r).map(
                    |p: (int, int)| (self.lin(p), false),
                ).contains(e) {
                    let p = choose|p: (int, int)|
                        self.boundary_white(r).contains(p) && (self.lin(p), false) == e;
                    assert(upints(wr).to_set().contains(p));
                    let k = choose|k: int| 0 <= k < upints(wr).len() && upints(wr)[k] == p;
                    assert(w[l1 + k] == e);
                } else {
                    let p = choose|p: (int, int)|
                        self.boundary_white(r2).contains(p) && (self.lin(p), false) == e;
                    assert(upints(wr2).to_set().contains(p));
                    let k = choose|k: int| 0 <= k < upints(wr2).len() && upints(wr2)[k] == p;
                    assert(w[l2 + k] == e);
                }
            }
        }
    }
}

impl AnyminoConstraint {
    /// Decides whether the current partial assignment already violates the
    /// invariant that no two black-adjacent closed rooms resolve to the
    /// same canonical shape.
    ///
    /// Returns `None` exactly when no pair of rooms is in conflict.  When a
    /// conflicting pair exists, returns the explanation for one such pair:
    /// the black cells of both rooms as positive literals over linear cell
    /// indices, and their boundary white cells as negative literals.  The
    /// board is evaluated afresh on every call and never mutated.
    pub fn find_inconsistency(&self) -> (res: Option<Vec<(usize, bool)>>)
        requires
            self.wf(),
        ensures
            res is Some <==> self.has_conflict(),
            res matches Some(v) ==> exists|r: int, r2: int|
                self.conflict_pair(r, r2) && self.explanation_ok(v@, r, r2),
    {
        let nrooms = self.rooms.len();
        let mut blacks_all: Vec<Vec<(usize, usize)>> = Vec::new();
        let mut whites_all: Vec<Vec<(usize, usize)>> = Vec::new();
        let mut adj_all: Vec<Vec<usize>> = Vec::new();
        let mut shapes: Vec<Option<Vec<(i32, i32)>>> = Vec::new();
        let mut r: usize = 0;
        while r < nrooms
            invariant
                self.wf(),
                nrooms == self.room_count(),
                r <= nrooms,
                blacks_all@.len() == r,
                whites_all@.len() == r,
                adj_all@.len() == r,
                shapes@.len() == r,
                forall|k: int| 0 <= k < r ==> (#[trigger] blacks_all@[k])@.no_duplicates(),
                forall|k: int| 0 <= k < r ==> upints((#[trigger] blacks_all@[k])@).to_set()
                    == self.black_region(k),
                forall|k: int, j: int|
                    0 <= k < r && 0 <= j < blacks_all@[k]@.len() ==> (#[trigger] blacks_all@[
                        k
                    ]@[j]).0 < self.grid_height() && blacks_all@[k]@[j].1 < self.grid_width(),
                forall|k: int| 0 <= k < r ==> (#[trigger] whites_all@[k])@.no_duplicates(),
                forall|k: int, j: int|
                    0 <= k < r && 0 <= j < whites_all@[k]@.len() ==> self.boundary_white(
                        k,
                    ).contains(
                        ((#[trigger] whites_all@[k]@[j]).0 as int, whites_all@[k]@[j].1 as int),
                    ),
                forall|k: int|
                    0 <= k < r && self.room_closed(k) ==> upints(
                        (#[trigger] whites_all@[k])@,
                    ).to_set() == self.boundary_white(k),
                forall|k: int, j: int|
                    0 <= k < r && 0 <= j < adj_all@[k]@.len() ==> (#[trigger] adj_all@[k]@[j])
                        < nrooms && self.rooms_black_adjacent(k, adj_all@[k]@[j] as int),
                forall|k: int, r2: int|
                    0 <= k < r && self.room_closed(k) && #[trigger] self.rooms_black_adjacent(
                        k,
                        r2,
                    ) ==> exists|m: int|
                        0 <= m < adj_all@[k]@.len() && (#[trigger] adj_all@[k]@[m]) as int
                            == r2,
                forall|k: int|
                    0 <= k < r ==> match #[trigger] shapes@[k] {
                        Option::Some(v) => self.room_shaped(k) && ints_of(v@) == self.shape_of(
                            k,
                        ),
                        Option::None => !self.room_shaped(k),
                    },
            decreases nrooms - r,
        {
            let blacks = self.collect_black(r);
            let (is_closed, whites, adj) = self.scan_room(r, &blacks);
            let shape: Option<Vec<(i32, i32)>> = if is_closed && blacks.len() > 0 {
                proof {
                    assert forall|j: int| 0 <= j < blacks@.len() implies (#[trigger] blacks@[
                        j
                    ]).0 < self.grid_height() && blacks@[j].1 < self.grid_width() by {
                        assert(self.black_at(r as int, blacks@[j].0 as int, blacks@[j].1 as int));
                    }
                }
                let blk = self.to_block(&blacks);
                let nb = normalize_block(blk);
                proof {
                    assert(pset(blk@) == self.black_region(r as int)) by {
                        assert(pset(blk@) == upints(blacks@).to_set());
                    }
                    assert(ints_of(nb@) == self.shape_of(r as int));
                    // a nonempty duplicate-free list enumerates a nonempty set
                    assert(upints(blacks@).to_set().len() > 0) by {
                        assert(upints(blacks@).to_set().contains(upints(blacks@)[0]));
                        vstd::seq_lib::seq_to_set_is_finite::<(int, int)>(upints(blacks@));
                        assert(upints(blacks@).to_set().remove(upints(blacks@)[0]).len()
                            == upints(blacks@).to_set().len() - 1);
                    }
                    assert(self.room_shaped(r as int));
                }
                Some(nb)
            } else {
                proof {
                    if is_closed {
                        // no black cells at all
                        assert(self.black_region(r as int).len() == 0) by {
                            assert(upints(blacks@).len() == 0);
                            if self.black_region(r as int).len() > 0 {
                                let p = self.black_region(r as int).choose();
                                assert(self.black_region(r as int).contains(p));
                                assert(upints(blacks@).to_set().contains(p));
                            }
                        }
                    }
                    assert(!self.room_shaped(r as int));
                }
                None
            };
            let ghost br = blacks_all@;
            let ghost wh = whites_all@;
            let ghost aj = adj_all@;
            let ghost sh = shapes@;
            let ghost bnew = blacks;
            let ghost wnew = whites;
            let ghost anew = adj;
            let ghost snew = shape;
            blacks_all.push(blacks);
            whites_all.push(whites);
            adj_all.push(adj);
            shapes.push(shape);
            proof {
                assert(forall|k: int| 0 <= k < r ==> #[trigger] blacks_all@[k] == br[k]);
                assert(forall|k: int| 0 <= k < r ==> #[trigger] whites_all@[k] == wh[k]);
                assert(forall|k: int| 0 <= k < r ==> #[trigger] adj_all@[k] == aj[k]);
                assert(forall|k: int| 0 <= k < r ==> #[trigger] shapes@[k] == sh[k]);
                assert(blacks_all@[r as int] == bnew);
                assert(whites_all@[r as int] == wnew);
                assert(adj_all@[r as int] == anew);
                assert(shapes@[r as int] == snew);
                assert forall|k: int, r2: int|
                    0 <= k < r + 1 && self.room_closed(k)
                        && #[trigger] self.rooms_black_adjacent(k, r2) implies exists|m: int|
                    0 <= m < adj_all@[k]@.len() && (#[trigger] adj_all@[k]@[m]) as int == r2 by {
                    if k < r {
                        let m = choose|m: int|
                            0 <= m < aj[k]@.len() && (#[trigger] aj[k]@[m]) as int == r2;
                        assert(adj_all@[k]@[m] as int == r2);
                    } else {
                        let m = choose|m: int|
                            0 <= m < anew@.len() && (#[trigger] anew@[m]) as int == r2;
                        assert(adj_all@[k]@[m] as int == r2);
                    }
                }
            }
            r += 1;
        }
        let mut rr: usize = 0;
        while rr < nrooms
            invariant
                self.wf(),
                nrooms == self.room_count(),
                rr <= nrooms,
                blacks_all@.len() == nrooms,
                whites_all@.len() == nrooms,
                adj_all@.len() == nrooms,
                shapes@.len() == nrooms,
                forall|k: int| 0 <= k < nrooms ==> (#[trigger] blacks_all@[k])@.no_duplicates(),
                forall|k: int| 0 <= k < nrooms ==> upints(
                    (#[trigger] blacks_all@[k])@,
                ).to_set() == self.black_region(k),
                forall|k: int, j: int|
                    0 <= k < nrooms && 0 <= j < blacks_all@[k]@.len() ==> (
                    #[trigger] blacks_all@[k]@[j]).0 < self.grid_height() && blacks_all@[k]@[
                        j
                    ].1 < self.grid_width(),
                forall|k: int| 0 <= k < nrooms ==> (#[trigger] whites_all@[k])@.no_duplicates(),
                forall|k: int, j: int|
                    0 <= k < nrooms && 0 <= j < whites_all@[k]@.len() ==> self.boundary_white(
                        k,
                    ).contains(
                        ((#[trigger] whites_all@[k]@[j]).0 as int, whites_all@[k]@[j].1 as int),
                    ),
                forall|k: int|
                    0 <= k < nrooms && self.room_closed(k) ==> upints(
                        (#[trigger] whites_all@[k])@,
                    ).to_set() == self.boundary_white(k),
                forall|k: int, j: int|
                    0 <= k < nrooms && 0 <= j < adj_all@[k]@.len() ==> (#[trigger] adj_all@[k]@[
                        j
                    ]) < nrooms && self.rooms_black_adjacent(k, adj_all@[k]@[j] as int),
                forall|k: int, r2: int|
                    0 <= k < nrooms && self.room_closed(k)
                        && #[trigger] self.rooms_black_adjacent(k, r2) ==> exists|m: int|
                        0 <= m < adj_all@[k]@.len() && (#[trigger] adj_all@[k]@[m]) as int
                            == r2,
                forall|k: int|
                    0 <= k < nrooms ==> match #[trigger] shapes@[k] {
                        Option::Some(v) => self.room_shaped(k) && ints_of(v@) == self.shape_of(
                            k,
                        ),
                        Option::None => !self.room_shaped(k),
                    },
                forall|a: int, b: int| 0 <= a < rr ==> !(#[trigger] self.conflict_pair(a, b)),
            decreases nrooms - rr,
        {
            match &shapes[rr] {
                Option::None => {
                    proof {
                        assert forall|b: int| !(#[trigger] self.conflict_pair(
                            rr as int,
                            b,
                        )) by {
                            assert(!self.room_shaped(rr as int));
                        }
                    }
                },
                Option::Some(sr) => {
                    let adjr = &adj_all[rr];
                    let mut t: usize = 0;
                    while t < adjr.len()
                        invariant
                            self.wf(),
                            nrooms == self.room_count(),
                            rr < nrooms,
                            t <= adjr@.len(),
                            blacks_all@.len() == nrooms,
                            whites_all@.len() == nrooms,
                            adj_all@.len() == nrooms,
                            shapes@.len() == nrooms,
                            adjr == adj_all@[rr as int],
                            shapes@[rr as int] == Option::Some(*sr),
                            self.room_shaped(rr as int),
                            ints_of(sr@) == self.shape_of(rr as int),
                            forall|k: int|
                                0 <= k < nrooms ==> (#[trigger] blacks_all@[k])@.no_duplicates(),
                            forall|k: int| 0 <= k < nrooms ==> upints(
                                (#[trigger] blacks_all@[k])@,
                            ).to_set() == self.black_region(k),
                            forall|k: int, j: int|
                                0 <= k < nrooms && 0 <= j < blacks_all@[k]@.len() ==> (
                                #[trigger] blacks_all@[k]@[j]).0 < self.grid_height()
                                    && blacks_all@[k]@[j].1 < self.grid_width(),
                            forall|k: int|
                                0 <= k < nrooms ==> (#[trigger] whites_all@[k])@.no_duplicates(),
                            forall|k: int, j: int|
                                0 <= k < nrooms && 0 <= j < whites_all@[k]@.len()
                                    ==> self.boundary_white(k).contains(
                                    (
                                        (#[trigger] whites_all@[k]@[j]).0 as int,
                                        whites_all@[k]@[j].1 as int,
                                    ),
                                ),
                            forall|k: int|
                                0 <= k < nrooms && self.room_closed(k) ==> upints(
                                    (#[trigger] whites_all@[k])@,
                                ).to_set() == self.boundary_white(k),
                            forall|k: int, j: int|
                                0 <= k < nrooms && 0 <= j < adj_all@[k]@.len() ==> (
                                #[trigger] adj_all@[k]@[j]) < nrooms
                                    && self.rooms_black_adjacent(k, adj_all@[k]@[j] as int),
                            forall|k: int|
                                0 <= k < nrooms ==> match #[trigger] shapes@[k] {
                                    Option::Some(v) => self.room_shaped(k) && ints_of(v@)
                                        == self.shape_of(k),
                                    Option::None => !self.room_shaped(k),
                                },
                            forall|j: int|
                                0 <= j < t ==> !self.conflict_pair(
                                    rr as int,
                                    (#[trigger] adjr@[j]) as int,
                                ),
                        decreases adjr@.len() - t,
                    {
                        let r2 = adjr[t];
                        proof {
                            assert(adjr@[t as int] < nrooms && self.rooms_black_adjacent(
                                rr as int,
                                r2 as int,
                            )) by {
                                assert(adj_all@[rr as int]@[t as int] == adjr@[t as int]);
                            }
                        }
                        match &shapes[r2] {
                            Option::None => {
                                proof {
                                    assert(!self.room_shaped(r2 as int));
                                    assert(!self.conflict_pair(rr as int, r2 as int));
                                }
                            },
                            Option::Some(sr2) => {
                                if blocks_equal(sr, sr2) {
                                    proof {
                                        assert(self.room_shaped(r2 as int) && ints_of(sr2@)
                                            == self.shape_of(r2 as int));
                                        assert(self.conflict_pair(rr as int, r2 as int));
                                    }
                                    let mut out: Vec<(usize, bool)> = Vec::new();
                                    proof {
                                        assert forall|k: int, j: int|
                                            0 <= k < nrooms && 0 <= j
                                                < whites_all@[k]@.len() implies (
                                            #[trigger] whites_all@[k]@[j]).0
                                            < self.grid_height() && whites_all@[k]@[j].1
                                            < self.grid_width() by {
                                            self.lemma_boundary_white_members(k);
                                            assert(self.boundary_white(k).contains(
                                                (
                                                    whites_all@[k]@[j].0 as int,
                                                    whites_all@[k]@[j].1 as int,
                                                ),
                                            ));
                                        }
                                    }
                                    self.push_literals(&blacks_all[rr], true, &mut out);
                                    self.push_literals(&blacks_all[r2], true, &mut out);
                                    self.push_literals(&whites_all[rr], false, &mut out);
                                    self.push_literals(&whites_all[r2], false, &mut out);
                                    proof {
                                        self.lemma_explanation(
                                            rr as int,
                                            r2 as int,
                                            out@,
                                            blacks_all@[rr as int]@,
                                            blacks_all@[r2 as int]@,
                                            whites_all@[rr as int]@,
                                            whites_all@[r2 as int]@,
                                        );
                                    }
                                    return Some(out);
                                }
                                proof {
                                    assert(ints_of(sr@) != ints_of(sr2@));
                                    assert(self.shape_of(rr as int) != self.shape_of(
                                        r2 as int,
                                    )) by {
                                        assert(self.room_shaped(r2 as int) && ints_of(sr2@)
                                            == self.shape_of(r2 as int));
                                    }
                                    assert(!self.conflict_pair(rr as int, r2 as int));
                                }
                            },
                        }
                        t += 1;
                    }
                    proof {
                        assert forall|b: int| !(#[trigger] self.conflict_pair(
                            rr as int,
                            b,
                        )) by {
                            if self.conflict_pair(rr as int, b) {
                                assert(self.room_closed(rr as int));
                                assert(self.rooms_black_adjacent(rr as int, b));
                                let m = choose|m: int|
                                    0 <= m < adj_all@[rr as int]@.len() && (#[trigger] adj_all@[
                                        rr as int
                                    ]@[m]) as int == b;
                                assert(adjr@[m] as int == b);
                                assert(!self.conflict_pair(rr as int, adjr@[m] as int));
                            }
                        }
                    }
                },
            }
            rr += 1;
        }
        proof {
            assert(!self.has_conflict()) by {
                if self.has_conflict() {
                    let (a, b) = choose|a: int, b: int| self.conflict_pair(a, b);
                    assert(0 <= a < nrooms);
                    assert(!self.conflict_pair(a, b));
                }
            }
        }
        None
    }
}

/// A room with a black cell that still has an undecided same-room neighbor
/// is not closed, and therefore never takes part in a conflict, however its
/// black cells happen to look.
pub proof fn lemma_open_room_never_conflicts(
    s: AnyminoConstraint,
    r: int,
    y: int,
    x: int,
    d: int,
)
    requires
        s.open_witness(r, y, x, d),
    ensures
        !s.room_closed(r),
        forall|b: int| !s.conflict_pair(r, b),
        forall|b: int| !s.conflict_pair(b, r),
{
}

} // verus!
