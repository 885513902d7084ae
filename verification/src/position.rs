//! The mathematical model of a board: its cells, its neighbourhoods, and what
//! a placement and an explosion do to it.

use crate::cell::CellState;
use crate::player::Player;
use vstd::prelude::*;

verus! {

/// The coordinates of a cell: its row, then its column.
pub type Spot = (int, int);

/// Whether two spots lie next to each other in a row or in a column.
pub open spec fn adjacent(a: Spot, b: Spot) -> bool {
    ||| (a.1 == b.1 && (a.0 == b.0 + 1 || b.0 == a.0 + 1))
    ||| (a.0 == b.0 && (a.1 == b.1 + 1 || b.1 == a.1 + 1))
}

/// Why a request was turned down.
#[derive(Clone, Copy, PartialEq, Eq, Structural, Debug)]
pub enum GameError {
    /// The coordinates name no cell of the board.
    OutOfBounds,
    /// The cell belongs to another player.
    IllegalMove,
    /// The request would leave the board in a state that the rules exclude:
    /// a cell owned without dots or the other way round, a cell that holds
    /// enough dots to explode, or a cascade that does not come to rest.
    InvariantViolation,
}

/// A board as the rules see it.
pub struct Position {
    pub rows: nat,
    pub cols: nat,
    pub cells: Map<Spot, CellState>,
}

impl Position {
    /// Whether `at` names a cell of the board.
    pub open spec fn in_bounds(self, at: Spot) -> bool {
        0 <= at.0 < self.rows && 0 <= at.1 < self.cols
    }

    /// The board holds a cell for each spot in bounds and for no other.
    pub open spec fn well_formed(self) -> bool {
        forall|at: Spot| #[trigger] self.cells.contains_key(at) <==> self.in_bounds(at)
    }

    /// The cell at `at`.
    pub open spec fn cell(self, at: Spot) -> CellState
        recommends
            self.in_bounds(at),
    {
        self.cells[at]
    }

    /// The cells next to `at` that lie on the board: the one above, the one
    /// below, the one to the left, the one to the right, in this order.
    pub open spec fn neighbors(self, at: Spot) -> Seq<Spot> {
        let up: Seq<Spot> = if at.0 > 0 { seq![(at.0 - 1, at.1)] } else { seq![] };
        let down: Seq<Spot> = if at.0 + 1 < self.rows { seq![(at.0 + 1, at.1)] } else { seq![] };
        let left: Seq<Spot> = if at.1 > 0 { seq![(at.0, at.1 - 1)] } else { seq![] };
        let right: Seq<Spot> = if at.1 + 1 < self.cols { seq![(at.0, at.1 + 1)] } else { seq![] };
        up + down + left + right
    }

    /// The number of dots at which the cell at `at` explodes: the number of
    /// its neighbours.
    pub open spec fn capacity(self, at: Spot) -> nat {
        self.neighbors(at).len()
    }

    /// The cell at `at` has neighbours and holds a dot for each of them.
    /// A cell without neighbours never explodes.
    pub open spec fn overflowing(self, at: Spot) -> bool {
        &&& self.in_bounds(at)
        &&& self.capacity(at) > 0
        &&& self.cell(at).dots >= self.capacity(at)
    }

    /// No cell is about to explode.
    pub open spec fn stable(self) -> bool {
        forall|at: Spot| !#[trigger] self.overflowing(at)
    }

    /// Every cell is owned exactly when it holds a dot.
    pub open spec fn consistent(self) -> bool {
        forall|at: Spot| self.in_bounds(at) ==> (#[trigger] self.cell(at)).consistent()
    }

    /// What holds of a board between two moves.
    pub open spec fn valid(self) -> bool {
        &&& self.well_formed()
        &&& self.consistent()
        &&& self.stable()
    }

    /// The board of the given size with nothing on it. A board without rows
    /// or without columns has neither.
    pub open spec fn empty(rows: nat, cols: nat) -> Position {
        let none = rows == 0 || cols == 0;
        Position {
            rows: if none { 0 } else { rows },
            cols: if none { 0 } else { cols },
            cells: Map::new(
                |at: Spot| !none && 0 <= at.0 < rows && 0 <= at.1 < cols,
                |at: Spot| CellState::empty(),
            ),
        }
    }

    /// Whether `cell` may stand at `at` between two moves: it is owned exactly
    /// when it holds a dot, and it does not hold enough dots to explode there.
    pub open spec fn fits(self, at: Spot, cell: CellState) -> bool {
        &&& cell.consistent()
        &&& self.capacity(at) > 0 ==> cell.dots < self.capacity(at)
    }

    /// The board with the cell at `at` replaced.
    pub open spec fn with_cell(self, at: Spot, cell: CellState) -> Position {
        Position { cells: self.cells.insert(at, cell), ..self }
    }

    /// Whether `player` may place a dot at `at`: the cell is on the board and
    /// is free or its own.
    pub open spec fn admits(self, at: Spot, player: Player) -> bool {
        self.in_bounds(at) && self.cell(at).accepts(player)
    }

    /// The board after `player` has put one dot at `at`, before anything
    /// explodes.
    pub open spec fn with_dot(self, at: Spot, player: Player) -> Position {
        self.with_cell(at, self.cell(at).with_dot(player))
    }

    /// The board after the cell at `at` has exploded in a move of `player`:
    /// the cell gives one dot to each neighbour, and every neighbour now
    /// belongs to `player`.
    pub open spec fn toppled(self, at: Spot, player: Player) -> Position {
        Position {
            cells: Map::new(
                |b: Spot| self.in_bounds(b),
                |b: Spot|
                    if b == at {
                        self.cell(b).without(self.capacity(at))
                    } else if adjacent(at, b) {
                        self.cell(b).with_dot(player)
                    } else {
                        self.cell(b)
                    },
            ),
            ..self
        }
    }

    /// The four directions, each counted if the board goes on that way.
    pub proof fn lemma_capacity(self, at: Spot)
        ensures
            self.capacity(at) == (if at.0 > 0 { 1nat } else { 0 })
                + (if at.0 + 1 < self.rows { 1nat } else { 0 })
                + (if at.1 > 0 { 1nat } else { 0 })
                + (if at.1 + 1 < self.cols { 1nat } else { 0 }),
            self.capacity(at) <= 4,
    {
    }

    /// The neighbours of a cell of the board are the cells of the board next
    /// to it, each listed once.
    pub proof fn lemma_neighbors(self, at: Spot)
        requires
            self.in_bounds(at),
        ensures
            forall|b: Spot|
                self.neighbors(at).contains(b) <==> self.in_bounds(b) && adjacent(at, b),
            self.neighbors(at).no_duplicates(),
    {
        let near = self.neighbors(at);
        assert forall|b: Spot| self.in_bounds(b) && adjacent(at, b) implies near.contains(b) by {
            let up: Seq<Spot> = if at.0 > 0 { seq![(at.0 - 1, at.1)] } else { seq![] };
            let down: Seq<Spot> = if at.0 + 1 < self.rows {
                seq![(at.0 + 1, at.1)]
            } else {
                seq![]
            };
            let left: Seq<Spot> = if at.1 > 0 { seq![(at.0, at.1 - 1)] } else { seq![] };
            if b == (at.0 - 1, at.1) {
                assert(near[0] == b);
            } else if b == (at.0 + 1, at.1) {
                assert(near[up.len() as int] == b);
            } else if b == (at.0, at.1 - 1) {
                assert(near[(up.len() + down.len()) as int] == b);
            } else {
                assert(b == (at.0, at.1 + 1));
                assert(near[(up.len() + down.len() + left.len()) as int] == b);
            }
        }
    }
}

} // verus!
