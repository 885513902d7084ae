//! The board: a grid of cells, with bounds-checked access and the
//! neighbourhood of each cell.

use crate::cell::{Cell, CellState};
use crate::position::{GameError, Position, Spot};
use grid::Grid;
use vstd::prelude::*;

verus! {

/// The largest number of cells that a board may have, so that its cells can be
/// held in memory on every machine.
pub const MAX_CELLS: usize = 268_435_455;

/// The grid of the `grid` crate. The proofs do not look inside it: they know
/// of a grid what the functions below say of its rows, columns and cells.
#[verifier::external_type_specification]
#[verifier::external_body]
#[verifier::reject_recursive_types(T)]
pub struct ExGrid<T>(Grid<T>);

/// The size of a grid: the number of its rows, then the number of its columns.
pub uninterp spec fn grid_size(grid: Grid<Cell>) -> (nat, nat);

/// The cells that a grid holds, each under its row and column.
pub uninterp spec fn grid_cells(grid: Grid<Cell>) -> Map<Spot, Cell>;

/// The number of rows of a grid.
pub open spec fn grid_rows(grid: Grid<Cell>) -> nat {
    grid_size(grid).0
}

/// The number of columns of a grid.
pub open spec fn grid_cols(grid: Grid<Cell>) -> nat {
    grid_size(grid).1
}

/// Whether `row` and `col` name a cell of the grid.
pub open spec fn grid_has(grid: Grid<Cell>, row: usize, col: usize) -> bool {
    row < grid_rows(grid) && col < grid_cols(grid)
}

/// The grid as the rules see it.
pub open spec fn grid_view(grid: Grid<Cell>) -> Position {
    Position {
        rows: grid_rows(grid),
        cols: grid_cols(grid),
        cells: Map::new(
            |at: Spot| 0 <= at.0 < grid_rows(grid) && 0 <= at.1 < grid_cols(grid),
            |at: Spot| grid_cells(grid)[at]@,
        ),
    }
}

/// Calls `Grid::new`. Not proved: for no more than `MAX_CELLS` cells the call
/// returns; the grid has the rows and columns asked for, or neither where one
/// of the two is zero; and each of its cells is the default cell, which is
/// empty.
#[verifier::external_body]
pub(crate) fn grid_new(rows: usize, cols: usize) -> (grid: Grid<Cell>)
    requires
        rows * cols <= MAX_CELLS,
    ensures
        grid_size(grid) == (if rows == 0 || cols == 0 {
            (0nat, 0nat)
        } else {
            (rows as nat, cols as nat)
        }),
        forall|at: Spot|
            0 <= at.0 < grid_rows(grid) && 0 <= at.1 < grid_cols(grid) ==> #[trigger] grid_cells(
                grid,
            )[at] == (Cell { dot_count: 0, owner: None }),
{
    Grid::new(rows, cols)
}

/// Calls `Grid::rows`. Not proved: the result is the number of rows.
#[verifier::external_body]
pub(crate) fn grid_row_count(grid: &Grid<Cell>) -> (rows: usize)
    ensures
        rows == grid_size(*grid).0,
{
    grid.rows()
}

/// Calls `Grid::cols`. Not proved: the result is the number of columns.
#[verifier::external_body]
pub(crate) fn grid_col_count(grid: &Grid<Cell>) -> (cols: usize)
    ensures
        cols == grid_size(*grid).1,
{
    grid.cols()
}

/// Calls `Grid::get`. Not proved: the result is the cell under `row` and
/// `col` where both lie within the grid, and nothing otherwise.
#[verifier::external_body]
pub(crate) fn grid_get(grid: &Grid<Cell>, row: usize, col: usize) -> (cell: Option<&Cell>)
    ensures
        grid_has(*grid, row, col) ==> cell == Some(&grid_cells(*grid)[(row as int, col as int)]),
        !grid_has(*grid, row, col) ==> cell is None,
{
    grid.get(row, col)
}

/// Calls `Grid::get_mut`. Not proved: where `row` and `col` lie within the
/// grid, the result refers to the cell under them, what is written through it
/// becomes that cell, and every other cell stays; otherwise there is no result
/// and no cell changes. The grid keeps its rows and columns.
#[verifier::external_body]
pub(crate) fn grid_get_mut(grid: &mut Grid<Cell>, row: usize, col: usize) -> (slot: Option<
    &mut Cell,
>)
    ensures
        grid_size(*final(grid)) == grid_size(*old(grid)),
        grid_has(*old(grid), row, col) ==> slot.is_some() && *slot.unwrap() == grid_cells(
            *old(grid),
        )[(row as int, col as int)] && grid_cells(*final(grid)) == grid_cells(*old(grid)).insert(
            (row as int, col as int),
            *final(slot.unwrap()),
        ),
        !grid_has(*old(grid), row, col) ==> slot.is_none() && grid_cells(*final(grid))
            == grid_cells(*old(grid)),
{
    grid.get_mut(row, col)
}

/// Calls `Grid::clone`. Not proved: the copy has the rows, the columns and the
/// cells of the grid.
#[verifier::external_body]
pub(crate) fn grid_clone(grid: &Grid<Cell>) -> (copy: Grid<Cell>)
    ensures
        grid_size(copy) == grid_size(*grid),
        grid_cells(copy) == grid_cells(*grid),
{
    grid.clone()
}

/// The coordinates of the cells next to the cell at `row` and `col`: above,
/// below, left, right, each where the grid goes on that way.
pub(crate) fn grid_adjacent_indices(grid: &Grid<Cell>, row: usize, col: usize) -> (adjacent: Vec<
    (usize, usize),
>)
    requires
        grid_has(*grid, row, col),
    ensures
        as_spots(adjacent@) == grid_view(*grid).neighbors((row as int, col as int)),
{
    let mut adjacent: Vec<(usize, usize)> = Vec::new();
    let max_row = grid_row_count(grid);
    let max_col = grid_col_count(grid);
    if row > 0 {
        adjacent.push((row - 1, col));
    }
    if row + 1 < max_row {
        adjacent.push((row + 1, col));
    }
    if col > 0 {
        adjacent.push((row, col - 1));
    }
    if col + 1 < max_col {
        adjacent.push((row, col + 1));
    }
    assert(as_spots(adjacent@) =~= grid_view(*grid).neighbors((row as int, col as int)));
    adjacent
}

/// The spots that a list of coordinates names.
pub open spec fn as_spots(list: Seq<(usize, usize)>) -> Seq<Spot> {
    Seq::new(list.len(), |i: int| (list[i].0 as int, list[i].1 as int))
}

/// A board of cells. A board that is made and changed through the functions
/// of this crate is valid at every call: every cell is owned exactly when it
/// holds a dot, and no cell holds enough dots to explode.
pub struct Board {
    pub(crate) grid: Grid<Cell>,
}

impl View for Board {
    type V = Position;

    closed spec fn view(&self) -> Position {
        grid_view(self.grid)
    }
}

impl Clone for Board {
    fn clone(&self) -> (copy: Board)
        ensures
            copy@ == self@,
    {
        let copy = Board { grid: grid_clone(&self.grid) };
        assert(copy@.cells =~= self@.cells);
        copy
    }
}

impl Board {
    /// The board is seen through its grid.
    pub(crate) proof fn lemma_view(self)
        ensures
            self@ == grid_view(self.grid),
    {
    }

    /// An empty board of `rows` by `cols` cells. A board without rows or
    /// without columns has neither.
    pub fn new(rows: usize, cols: usize) -> (board: Board)
        requires
            rows * cols <= MAX_CELLS,
        ensures
            board@ == Position::empty(rows as nat, cols as nat),
            board@.valid(),
    {
        let grid = grid_new(rows, cols);
        proof {
            let position = grid_view(grid);
            assert(position.cells =~= Position::empty(rows as nat, cols as nat).cells);
            assert forall|at: Spot| !#[trigger] position.overflowing(at) by {
                if position.in_bounds(at) {
                    assert(position.cell(at) == CellState::empty());
                }
            }
        }
        Board { grid }
    }

    /// The number of rows.
    pub fn rows(&self) -> (rows: usize)
        ensures
            rows == self@.rows,
    {
        grid_row_count(&self.grid)
    }

    /// The number of columns.
    pub fn cols(&self) -> (cols: usize)
        ensures
            cols == self@.cols,
    {
        grid_col_count(&self.grid)
    }

    /// The number of rows and the number of columns.
    pub fn dimensions(&self) -> (size: (usize, usize))
        ensures
            size.0 == self@.rows,
            size.1 == self@.cols,
    {
        (grid_row_count(&self.grid), grid_col_count(&self.grid))
    }

    /// The coordinates of the cells next to the cell at `row` and `col`, in
    /// the order above, below, left, right.
    pub fn get_adjacent_indices(&self, row: usize, col: usize) -> (adjacent: Vec<(usize, usize)>)
        requires
            self@.in_bounds((row as int, col as int)),
        ensures
            as_spots(adjacent@) == self@.neighbors((row as int, col as int)),
    {
        grid_adjacent_indices(&self.grid, row, col)
    }

    /// The number of dots at which the cell at `row` and `col` explodes.
    pub fn capacity(&self, row: usize, col: usize) -> (capacity: usize)
        requires
            self@.in_bounds((row as int, col as int)),
        ensures
            capacity == self@.capacity((row as int, col as int)),
    {
        let adjacent = grid_adjacent_indices(&self.grid, row, col);
        assert(as_spots(adjacent@).len() == adjacent@.len());
        adjacent.len()
    }

    /// Replaces the cell at `row` and `col`. Turned down with `OutOfBounds`
    /// where the board has no such cell, and with `InvariantViolation` where
    /// the new cell is owned without dots, holds dots without an owner, or
    /// holds enough dots to explode. A request turned down changes nothing.
    pub fn set(&mut self, row: usize, col: usize, cell: Cell) -> (done: Result<(), GameError>)
        ensures
            old(self)@.valid() ==> final(self)@.valid(),
            !old(self)@.in_bounds((row as int, col as int)) ==> done == Err::<(), GameError>(
                GameError::OutOfBounds,
            ),
            old(self)@.in_bounds((row as int, col as int)) && !old(self)@.fits(
                (row as int, col as int),
                cell@,
            ) ==> done == Err::<(), GameError>(GameError::InvariantViolation),
            old(self)@.in_bounds((row as int, col as int)) && old(self)@.fits(
                (row as int, col as int),
                cell@,
            ) ==> done is Ok,
            done is Ok ==> final(self)@ == old(self)@.with_cell((row as int, col as int), cell@),
            done is Err ==> final(self)@ == old(self)@,
    {
        if row >= grid_row_count(&self.grid) || col >= grid_col_count(&self.grid) {
            return Err(GameError::OutOfBounds);
        }
        let adjacent = grid_adjacent_indices(&self.grid, row, col);
        assert(as_spots(adjacent@).len() == adjacent@.len());
        let capacity = adjacent.len();
        if !cell.is_consistent() || (capacity > 0 && cell.dot_count as usize >= capacity) {
            return Err(GameError::InvariantViolation);
        }
        let ghost before = grid_view(self.grid);
        match grid_get_mut(&mut self.grid, row, col) {
            Some(slot) => {
                *slot = cell;
            },
            None => {},
        }
        proof {
            let now = grid_view(self.grid);
            let at = (row as int, col as int);
            assert(now.cells =~= before.with_cell(at, cell@).cells);
            if before.valid() {
                assert forall|b: Spot| now.in_bounds(b) implies (#[trigger] now.cell(
                    b,
                )).consistent() by {
                    if b != at {
                        assert(before.cell(b).consistent());
                    }
                }
                assert forall|b: Spot| !#[trigger] now.overflowing(b) by {
                    if b != at {
                        assert(!before.overflowing(b));
                    }
                }
            }
        }
        Ok(())
    }

    /// Whether the board is valid: every cell is owned exactly when it holds a
    /// dot, and no cell holds enough dots to explode.
    pub fn is_valid(&self) -> (ok: bool)
        ensures
            ok == self@.valid(),
    {
        let ghost position = grid_view(self.grid);
        let rows = grid_row_count(&self.grid);
        let cols = grid_col_count(&self.grid);
        let mut row: usize = 0;
        while row < rows
            invariant
                position == grid_view(self.grid),
                rows == position.rows,
                cols == position.cols,
                row <= rows,
                forall|at: Spot|
                    0 <= at.0 < row && 0 <= at.1 < cols ==> position.fits(
                        at,
                        #[trigger] position.cell(at),
                    ),
            decreases rows - row,
        {
            let mut col: usize = 0;
            while col < cols
                invariant
                    position == grid_view(self.grid),
                    rows == position.rows,
                    cols == position.cols,
                    row < rows,
                    col <= cols,
                    forall|at: Spot|
                        0 <= at.0 < row && 0 <= at.1 < cols ==> position.fits(
                            at,
                            #[trigger] position.cell(at),
                        ),
                    forall|at: Spot|
                        at.0 == row && 0 <= at.1 < col ==> position.fits(
                            at,
                            #[trigger] position.cell(at),
                        ),
                decreases cols - col,
            {
                let ghost at = (row as int, col as int);
                let cell = match grid_get(&self.grid, row, col) {
                    Some(cell) => *cell,
                    None => Cell::new(),
                };
                let adjacent = grid_adjacent_indices(&self.grid, row, col);
                assert(as_spots(adjacent@).len() == adjacent@.len());
                let capacity = adjacent.len();
                if !cell.is_consistent() || (capacity > 0 && cell.dot_count as usize >= capacity) {
                    proof {
                        assert(position.in_bounds(at));
                        if position.valid() {
                            assert(position.cell(at).consistent());
                            assert(!position.overflowing(at));
                        }
                    }
                    return false;
                }
                col = col + 1;
            }
            row = row + 1;
        }
        proof {
            assert forall|at: Spot| position.in_bounds(at) implies (#[trigger] position.cell(
                at,
            )).consistent() by {
                assert(position.fits(at, position.cell(at)));
            }
            assert forall|at: Spot| !#[trigger] position.overflowing(at) by {
                if position.in_bounds(at) {
                    assert(position.fits(at, position.cell(at)));
                }
            }
        }
        true
    }

    /// The cells of the board, row by row, for drawing.
    pub fn cells(&self) -> (table: Vec<Vec<Cell>>)
        ensures
            table@.len() == self@.rows,
            forall|row: int|
                0 <= row < self@.rows ==> (#[trigger] table@[row])@.len() == self@.cols,
            forall|row: int, col: int|
                0 <= row < self@.rows && 0 <= col < self@.cols ==> (#[trigger] table@[row]@[col])@
                    == self@.cell((row, col)),
    {
        let rows = grid_row_count(&self.grid);
        let cols = grid_col_count(&self.grid);
        let mut table: Vec<Vec<Cell>> = Vec::new();
        let mut row: usize = 0;
        while row < rows
            invariant
                rows == grid_rows(self.grid),
                cols == grid_cols(self.grid),
                row <= rows,
                table@.len() == row,
                forall|r: int| 0 <= r < row ==> (#[trigger] table@[r])@.len() == cols,
                forall|r: int, c: int|
                    0 <= r < row && 0 <= c < cols ==> (#[trigger] table@[r]@[c])@ == grid_view(
                        self.grid,
                    ).cell((r, c)),
            decreases rows - row,
        {
            let mut line: Vec<Cell> = Vec::new();
            let mut col: usize = 0;
            while col < cols
                invariant
                    rows == grid_rows(self.grid),
                    cols == grid_cols(self.grid),
                    row < rows,
                    col <= cols,
                    line@.len() == col,
                    forall|c: int|
                        0 <= c < col ==> (#[trigger] line@[c])@ == grid_view(self.grid).cell(
                            (row as int, c),
                        ),
                decreases cols - col,
            {
                match grid_get(&self.grid, row, col) {
                    Some(cell) => {
                        line.push(*cell);
                    },
                    None => {},
                }
                col = col + 1;
            }
            table.push(line);
            row = row + 1;
        }
        table
    }

    /// The cell at `row` and `col`, or `OutOfBounds` where the board has no
    /// such cell.
    pub fn get(&self, row: usize, col: usize) -> (found: Result<Cell, GameError>)
        ensures
            self@.in_bounds((row as int, col as int)) ==> found is Ok && found->Ok_0@
                == self@.cell((row as int, col as int)),
            !self@.in_bounds((row as int, col as int)) ==> found == Err::<Cell, GameError>(
                GameError::OutOfBounds,
            ),
    {
        match grid_get(&self.grid, row, col) {
            Some(cell) => Ok(*cell),
            None => Err(GameError::OutOfBounds),
        }
    }
}

} // verus!
