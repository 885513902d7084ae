//! Move application: the placement of a dot and the cascade of explosions
//! that it sets off, resolved over a worklist of cells to look at.

use crate::board::{
    as_spots, grid_adjacent_indices, grid_clone, grid_col_count, grid_cols, grid_get,
    grid_get_mut, grid_has, grid_row_count, grid_rows, grid_view, Board,
};
use crate::cascade::{
    lemma_times_bound, lemma_times_concat, lemma_times_remove, lemma_times_unique, times,
};
use crate::cell::Cell;
use crate::moves::cascade_limit;
use crate::player::Player;
use crate::position::{adjacent, GameError, Position, Spot};
use grid::Grid;
use std::collections::VecDeque;
use vstd::prelude::*;

verus! {

/// The order in which the worklist of a cascade is worked off. The board that
/// a cascade leaves does not depend on it.
#[derive(Clone, Copy, PartialEq, Eq, Structural, Debug)]
pub enum Discipline {
    /// First in, first out: breadth first.
    Fifo,
    /// Last in, first out: depth first.
    Lifo,
}

/// Whether `b` is among the first `count` of `spots`.
spec fn among_first(spots: Seq<Spot>, count: int, b: Spot) -> bool {
    exists|j: int| 0 <= j < count && j < spots.len() && #[trigger] spots[j] == b
}

/// Lets the cell at `row` and `col` explode in a move of `player`: the cell
/// gives one dot to each neighbour, every neighbour becomes the mover's, and
/// each neighbour is put on the worklist.
fn explode(
    grid: &mut Grid<Cell>,
    row: usize,
    col: usize,
    player: Player,
    queue: &mut VecDeque<(usize, usize)>,
)
    requires
        grid_view(*old(grid)).overflowing((row as int, col as int)),
        forall|b: Spot|
            grid_view(*old(grid)).in_bounds(b) && adjacent((row as int, col as int), b)
                ==> grid_view(*old(grid)).cell(b).dots < u32::MAX,
    ensures
        grid_view(*final(grid)) == grid_view(*old(grid)).toppled((row as int, col as int), player),
        as_spots(final(queue)@) == as_spots(old(queue)@) + grid_view(*old(grid)).neighbors(
            (row as int, col as int),
        ),
{
    let ghost pre = grid_view(*grid);
    let ghost at = (row as int, col as int);
    let ghost spots = pre.neighbors(at);
    let ghost waiting = as_spots(queue@);
    let adjacent_indices = grid_adjacent_indices(grid, row, col);
    proof {
        pre.lemma_neighbors(at);
        pre.lemma_capacity(at);
        assert(as_spots(adjacent_indices@).len() == adjacent_indices@.len());
    }
    let capacity = adjacent_indices.len() as u32;
    match grid_get_mut(grid, row, col) {
        Some(cell) => {
            if cell.dot_count == capacity {
                cell.reset();
            } else {
                cell.dot_count = cell.dot_count - capacity;
            }
        },
        None => {},
    }
    assert(grid_view(*grid).cell(at) == pre.cell(at).without(pre.capacity(at)));
    let mut i: usize = 0;
    while i < adjacent_indices.len()
        invariant
            0 <= i <= adjacent_indices.len(),
            spots == pre.neighbors(at),
            spots == as_spots(adjacent_indices@),
            spots.len() == adjacent_indices.len(),
            pre.in_bounds(at),
            forall|b: Spot| spots.contains(b) <==> pre.in_bounds(b) && adjacent(at, b),
            spots.no_duplicates(),
            forall|b: Spot|
                pre.in_bounds(b) && adjacent(at, b) ==> (#[trigger] pre.cell(b)).dots < u32::MAX,
            grid_rows(*grid) == pre.rows,
            grid_cols(*grid) == pre.cols,
            forall|b: Spot|
                pre.in_bounds(b) ==> #[trigger] grid_view(*grid).cell(b) == (if b == at {
                    pre.cell(at).without(pre.capacity(at))
                } else if among_first(spots, i as int, b) {
                    pre.cell(b).with_dot(player)
                } else {
                    pre.cell(b)
                }),
            as_spots(queue@) == waiting + spots.take(i as int),
        decreases adjacent_indices.len() - i,
    {
        let (r, c) = adjacent_indices[i];
        let ghost next = (r as int, c as int);
        let ghost mid = grid_view(*grid);
        proof {
            assert(spots[i as int] == next);
            assert(spots.contains(next));
            assert(!among_first(spots, i as int, next));
            assert(mid.cell(next) == pre.cell(next));
        }
        match grid_get_mut(grid, r, c) {
            Some(cell) => {
                cell.dot_count = cell.dot_count + 1;
                cell.owner = Some(player);
            },
            None => {},
        }
        let ghost queued = as_spots(queue@);
        queue.push_back((r, c));
        proof {
            let now = grid_view(*grid);
            assert(as_spots(queue@) =~= queued.push(next));
            assert(spots.take(i as int + 1) =~= spots.take(i as int).push(next));
            assert(as_spots(queue@) =~= waiting + spots.take(i as int + 1));
            assert forall|b: Spot| pre.in_bounds(b) implies #[trigger] now.cell(b) == (if b
                == at {
                pre.cell(at).without(pre.capacity(at))
            } else if among_first(spots, i as int + 1, b) {
                pre.cell(b).with_dot(player)
            } else {
                pre.cell(b)
            }) by {
                assert(mid.cell(b) == (if b == at {
                    pre.cell(at).without(pre.capacity(at))
                } else if among_first(spots, i as int, b) {
                    pre.cell(b).with_dot(player)
                } else {
                    pre.cell(b)
                }));
                if b == next {
                    assert(among_first(spots, i as int + 1, b));
                } else if among_first(spots, i as int, b) {
                    let j = choose|j: int| 0 <= j < i && j < spots.len() && spots[j] == b;
                    assert(0 <= j < i + 1 && spots[j] == b);
                } else if among_first(spots, i as int + 1, b) {
                    let j = choose|j: int| 0 <= j < i + 1 && j < spots.len() && spots[j] == b;
                    assert(j < i);
                }
            }
        }
        i = i + 1;
    }
    proof {
        let now = grid_view(*grid);
        let goal = pre.toppled(at, player);
        assert(spots.take(i as int) =~= spots);
        assert forall|b: Spot| pre.in_bounds(b) implies now.cells[b] == goal.cells[b] by {
            assert(now.cell(b) == (if b == at {
                pre.cell(at).without(pre.capacity(at))
            } else if among_first(spots, i as int, b) {
                pre.cell(b).with_dot(player)
            } else {
                pre.cell(b)
            }));
            if b != at {
                if among_first(spots, i as int, b) {
                    let j = choose|j: int| 0 <= j < i && j < spots.len() && spots[j] == b;
                    assert(spots.contains(b));
                } else if adjacent(at, b) {
                    assert(spots.contains(b));
                    let j = choose|j: int| 0 <= j < spots.len() && spots[j] == b;
                    assert(among_first(spots, i as int, b));
                }
            }
        }
        assert(now.cells =~= goal.cells);
    }
}

/// Every cell that can explode holds fewer dots than it needs to explode and
/// the number of times it waits on the worklist, taken together. With an
/// empty worklist the board is stable.
#[verifier::opaque]
spec fn covered(position: Position, waiting: Seq<Spot>) -> bool {
    forall|b: Spot|
        position.in_bounds(b) && position.capacity(b) > 0 ==> (#[trigger] position.cell(b)).dots
            < position.capacity(b) + times(waiting, b)
}

/// Taking a cell that does not explode from the worklist leaves every cell
/// covered.
proof fn lemma_covered_after_look(mid: Position, waiting: Seq<Spot>, rest: Seq<Spot>, at: Spot)
    requires
        covered(mid, waiting),
        !mid.overflowing(at),
        forall|b: Spot| #[trigger]
            times(rest, b) == times(waiting, b) - if at == b { 1nat } else { 0nat },
    ensures
        covered(mid, rest),
{
    reveal(covered);
    assert forall|b: Spot| mid.in_bounds(b) && mid.capacity(b) > 0 implies (#[trigger] mid.cell(
        b,
    )).dots < mid.capacity(b) + times(rest, b) by {
        assert(times(rest, b) == times(waiting, b) - if at == b { 1nat } else { 0nat });
    }
}

/// An explosion whose neighbours are put on the worklist leaves every cell
/// covered.
proof fn lemma_covered_after_explosion(
    mid: Position,
    player: Player,
    waiting: Seq<Spot>,
    rest: Seq<Spot>,
    at: Spot,
)
    requires
        covered(mid, waiting),
        mid.overflowing(at),
        forall|b: Spot| #[trigger]
            times(rest, b) == times(waiting, b) - if at == b { 1nat } else { 0nat },
    ensures
        covered(mid.toppled(at, player), rest + mid.neighbors(at)),
{
    reveal(covered);
    let now = mid.toppled(at, player);
    let spots = mid.neighbors(at);
    mid.lemma_neighbors(at);
    assert forall|b: Spot| now.in_bounds(b) && now.capacity(b) > 0 implies (#[trigger] now.cell(
        b,
    )).dots < now.capacity(b) + times(rest + spots, b) by {
        lemma_times_concat(rest, spots, b);
        lemma_times_unique(spots, b);
        assert(mid.capacity(b) == now.capacity(b));
        assert(mid.cell(b).dots < mid.capacity(b) + times(waiting, b));
        assert(times(rest, b) == times(waiting, b) - if at == b { 1nat } else { 0nat });
    }
}

/// Taking the first or the last spot from the worklist takes one from the
/// count of that spot and leaves the other counts.
proof fn lemma_taken(waiting: Seq<Spot>, rest: Seq<Spot>, at: Spot, discipline: Discipline)
    requires
        waiting.len() > 0,
        discipline == Discipline::Fifo ==> at == waiting[0] && rest == waiting.subrange(
            1,
            waiting.len() as int,
        ),
        discipline == Discipline::Lifo ==> at == waiting[waiting.len() - 1] && rest
            == waiting.subrange(0, waiting.len() - 1),
    ensures
        forall|b: Spot| #[trigger]
            times(rest, b) == times(waiting, b) - if at == b { 1nat } else { 0nat },
        rest.len() + 1 == waiting.len(),
        forall|i: int| 0 <= i < rest.len() ==> waiting.contains(#[trigger] rest[i]),
        waiting.contains(at),
{
    match discipline {
        Discipline::Fifo => {
            assert(rest =~= waiting.remove(0));
            assert forall|b: Spot| #[trigger]
                times(rest, b) == times(waiting, b) - if at == b { 1nat } else { 0nat } by {
                lemma_times_remove(waiting, 0, b);
            }
            assert forall|i: int| 0 <= i < rest.len() implies waiting.contains(
                #[trigger] rest[i],
            ) by {
                assert(rest[i] == waiting[i + 1]);
            }
        },
        Discipline::Lifo => {
            assert(rest =~= waiting.drop_last());
            assert forall|i: int| 0 <= i < rest.len() implies waiting.contains(
                #[trigger] rest[i],
            ) by {
                assert(rest[i] == waiting[i]);
            }
        },
    }
}

/// While every cell is covered, no cell that can explode holds more dots than
/// four and the length of the worklist.
proof fn lemma_covered_bound(mid: Position, waiting: Seq<Spot>, b: Spot)
    requires
        covered(mid, waiting),
        mid.in_bounds(b),
        mid.capacity(b) > 0,
    ensures
        mid.cell(b).dots < 4 + waiting.len(),
{
    reveal(covered);
    mid.lemma_capacity(b);
    lemma_times_bound(waiting, b);
}

/// With nothing on the worklist, a board whose cells are covered is stable.
proof fn lemma_covered_stable(end: Position)
    requires
        covered(end, Seq::<Spot>::empty()),
    ensures
        end.stable(),
{
    reveal(covered);
    assert forall|b: Spot| !#[trigger] end.overflowing(b) by {
        if end.in_bounds(b) && end.capacity(b) > 0 {
            assert(end.cell(b).dots < end.capacity(b) + times(Seq::<Spot>::empty(), b));
        }
    }
}

/// After a dot has been placed on a valid board, every cell is covered by a
/// worklist that holds the spot of the dot.
proof fn lemma_covered_at_start(before: Position, at: Spot, player: Player)
    requires
        before.valid(),
        before.in_bounds(at),
    ensures
        covered(before.with_dot(at, player), seq![at]),
        before.with_dot(at, player).consistent(),
        before.with_dot(at, player).well_formed(),
{
    reveal(covered);
    let placed = before.with_dot(at, player);
    assert forall|b: Spot| placed.in_bounds(b) implies (#[trigger] placed.cell(b)).consistent() by {
        assert(before.cell(b).consistent());
    }
    assert forall|b: Spot| placed.in_bounds(b) && placed.capacity(b) > 0 implies (
    #[trigger] placed.cell(b)).dots < placed.capacity(b) + times(seq![at], b) by {
        assert(!before.overflowing(b));
        assert(seq![at].drop_last() =~= Seq::<Spot>::empty());
        assert(times(Seq::<Spot>::empty(), b) == 0);
        assert(seq![at].last() == at);
        assert(times(seq![at], b) == if at == b { 1nat } else { 0nat });
    }
}

/// Whether every spot of `waiting` names a cell of `position`.
spec fn all_on_board(position: Position, waiting: Seq<Spot>) -> bool {
    forall|b: Spot| waiting.contains(b) ==> position.in_bounds(b)
}

/// Takes the next cell from the worklist, from the end that `discipline`
/// names, and returns its coordinates if it holds enough dots to explode.
fn take_next(
    grid: &Grid<Cell>,
    queue: &mut VecDeque<(usize, usize)>,
    discipline: Discipline,
) -> (due: Option<(usize, usize)>)
    requires
        old(queue)@.len() > 0,
        covered(grid_view(*grid), as_spots(old(queue)@)),
        all_on_board(grid_view(*grid), as_spots(old(queue)@)),
    ensures
        final(queue)@.len() + 1 == old(queue)@.len(),
        all_on_board(grid_view(*grid), as_spots(final(queue)@)),
        due is None ==> covered(grid_view(*grid), as_spots(final(queue)@)),
        due is Some ==> ({
            let at = (due->Some_0.0 as int, due->Some_0.1 as int);
            &&& grid_view(*grid).overflowing(at)
            &&& forall|b: Spot| #[trigger]
                times(as_spots(final(queue)@), b) == times(as_spots(old(queue)@), b) - if at
                    == b { 1nat } else { 0nat }
        }),
{
    let ghost mid = grid_view(*grid);
    let ghost waiting = as_spots(queue@);
    let next = match discipline {
        Discipline::Fifo => queue.pop_front(),
        Discipline::Lifo => queue.pop_back(),
    };
    let ghost rest = as_spots(queue@);
    let (r, c) = match next {
        Some(spot) => spot,
        None => (0, 0),
    };
    let ghost at = (r as int, c as int);
    proof {
        assert(discipline == Discipline::Fifo ==> at == waiting[0] && rest =~= waiting.subrange(
            1,
            waiting.len() as int,
        ));
        assert(discipline == Discipline::Lifo ==> at == waiting[waiting.len() - 1] && rest
            =~= waiting.subrange(0, waiting.len() - 1));
        lemma_taken(waiting, rest, at, discipline);
        assert(mid.in_bounds(at));
        assert forall|b: Spot| rest.contains(b) implies mid.in_bounds(b) by {
            let i = choose|i: int| 0 <= i < rest.len() && rest[i] == b;
            assert(waiting.contains(rest[i]));
        }
    }
    let cell = match grid_get(grid, r, c) {
        Some(cell) => *cell,
        None => Cell::new(),
    };
    let adjacent_indices = grid_adjacent_indices(grid, r, c);
    assert(as_spots(adjacent_indices@).len() == adjacent_indices@.len());
    let capacity = adjacent_indices.len();
    if capacity > 0 && cell.dot_count as usize >= capacity {
        Some((r, c))
    } else {
        proof {
            lemma_covered_after_look(mid, waiting, rest, at);
        }
        None
    }
}

/// What follows for the worklist from an explosion at `at`: the cells next
/// to `at` can count one dot more, and once they are on the worklist every
/// cell is covered and every spot of the worklist lies on the board.
proof fn lemma_explosion(
    mid: Position,
    player: Player,
    waiting: Seq<Spot>,
    rest: Seq<Spot>,
    at: Spot,
)
    requires
        covered(mid, waiting),
        all_on_board(mid, rest),
        mid.overflowing(at),
        waiting.len() <= 4_000_000_001,
        forall|b: Spot| #[trigger]
            times(rest, b) == times(waiting, b) - if at == b { 1nat } else { 0nat },
    ensures
        forall|b: Spot| mid.in_bounds(b) && adjacent(at, b) ==> mid.cell(b).dots < u32::MAX,
        covered(mid.toppled(at, player), rest + mid.neighbors(at)),
        all_on_board(mid.toppled(at, player), rest + mid.neighbors(at)),
        mid.neighbors(at).len() <= 4,
{
    let spots = mid.neighbors(at);
    mid.lemma_neighbors(at);
    mid.lemma_capacity(at);
    lemma_covered_after_explosion(mid, player, waiting, rest, at);
    assert forall|b: Spot| mid.in_bounds(b) && adjacent(at, b) implies mid.cell(b).dots
        < u32::MAX by {
        mid.lemma_capacity(b);
        lemma_covered_bound(mid, waiting, b);
    }
    assert forall|b: Spot| (rest + spots).contains(b) implies mid.toppled(at, player).in_bounds(
        b,
    ) by {
        let i = choose|i: int| 0 <= i < (rest + spots).len() && (rest + spots)[i] == b;
        if i >= rest.len() {
            assert(spots[i - rest.len()] == b);
            assert(spots.contains(b));
        } else {
            assert(rest[i] == b);
            assert(rest.contains(b));
        }
    }
}

/// Resolves the cascade that starts at `row` and `col` in a move of `player`:
/// takes one cell after the other from the worklist, in the order that
/// `discipline` names, and lets it explode if it holds enough dots. Gives up,
/// with `false`, before the explosion that would exceed `limit`.
fn settle(
    grid: &mut Grid<Cell>,
    row: usize,
    col: usize,
    player: Player,
    limit: u32,
    discipline: Discipline,
) -> (settled: bool)
    requires
        grid_has(*old(grid), row, col),
        grid_view(*old(grid)).consistent(),
        covered(grid_view(*old(grid)), seq![(row as int, col as int)]),
        limit <= 1_000_000_000,
    ensures
        settled == grid_view(*old(grid)).settles_within(player, limit as nat),
        settled ==> grid_view(*final(grid)) == grid_view(*old(grid)).settled(player),
{
    let ghost start = grid_view(*grid);
    let ghost mut steps: Seq<Spot> = Seq::empty();
    let mut queue: VecDeque<(usize, usize)> = VecDeque::new();
    queue.push_back((row, col));
    let mut topples: u32 = 0;
    assert(as_spots(queue@) =~= seq![(row as int, col as int)]);
    while queue.len() > 0
        invariant
            start == grid_view(*old(grid)),
            start.well_formed(),
            start.consistent(),
            start.legal(player, steps),
            steps.len() == topples,
            topples <= limit <= 1_000_000_000,
            grid_view(*grid) == start.after(player, steps),
            covered(grid_view(*grid), as_spots(queue@)),
            all_on_board(grid_view(*grid), as_spots(queue@)),
            queue@.len() <= 1 + 4 * topples,
        decreases 5 * (limit - topples) + queue@.len(),
    {
        let ghost mid = grid_view(*grid);
        let ghost waiting = as_spots(queue@);
        match take_next(grid, &mut queue, discipline) {
            Some((r, c)) => {
                let ghost at = (r as int, c as int);
                let ghost rest = as_spots(queue@);
                let ghost longer = steps.push(at);
                proof {
                    assert(longer.drop_last() =~= steps);
                    assert(start.legal(player, longer));
                }
                if topples == limit {
                    proof {
                        if start.settles_within(player, limit as nat) {
                            let full = choose|full: Seq<Spot>| #[trigger]
                                start.settles_in(player, full) && full.len() <= limit as nat;
                            start.lemma_no_overrun(player, longer, full);
                        }
                    }
                    return false;
                }
                proof {
                    lemma_explosion(mid, player, waiting, rest, at);
                }
                explode(grid, r, c, player, &mut queue);
                topples = topples + 1;
                proof {
                    steps = longer;
                    assert(as_spots(queue@).len() == queue@.len());
                }
            },
            None => {},
        }
    }
    proof {
        assert(as_spots(queue@) =~= Seq::<Spot>::empty());
        lemma_covered_stable(grid_view(*grid));
        assert(start.settles_in(player, steps));
        start.lemma_settled(player, steps);
    }
    true
}

/// The number of explosions after which a cascade on a grid of `rows` by
/// `cols` cells is given up.
fn topple_limit(rows: usize, cols: usize) -> (limit: u32)
    ensures
        limit <= 1_000_000_000,
        limit == cascade_limit(rows as nat, cols as nat),
{
    let cells: u32 = match rows.checked_mul(cols) {
        Some(cells) => if cells < 1000 {
            cells as u32
        } else {
            1000
        },
        None => 1000,
    };
    assert(cells * cells <= 1_000_000 && cells * cells * cells <= 1_000_000_000)
        by (nonlinear_arith)
        requires
            cells <= 1000,
    ;
    cells * cells * cells
}

impl Board {
    /// The number of explosions after which a cascade on this board is given
    /// up: the cube of the number of cells, and at most a thousand million.
    pub fn topple_limit(&self) -> (limit: u32)
        ensures
            limit == self@.topple_limit(),
    {
        proof {
            self.lemma_view();
        }
        topple_limit(grid_row_count(&self.grid), grid_col_count(&self.grid))
    }

    /// Places a dot of `player` at `row` and `col` and resolves the cascade
    /// that follows, working the worklist off in the order that `discipline`
    /// names. With `transfer_ownership` the dot is placed whoever owns the
    /// cell; without it only on a cell that is free or the mover's own.
    ///
    /// Turned down with `OutOfBounds` where the board has no such cell, with
    /// `IllegalMove` where the cell belongs to another player, and with
    /// `InvariantViolation` where the cascade does not come to rest within
    /// the limit of the board or the cell cannot count one dot more. A request
    /// that is turned down leaves the board as it was. The board that a move
    /// leaves is the same for either discipline.
    pub fn increment_count(
        &mut self,
        row: usize,
        col: usize,
        player: Player,
        transfer_ownership: bool,
        discipline: Discipline,
    ) -> (done: Result<(), GameError>)
        requires
            old(self)@.valid(),
        ensures
            final(self)@.valid(),
            done is Ok ==> old(self)@.move_outcome(
                (row as int, col as int),
                player,
                transfer_ownership,
            ) == Ok::<Position, GameError>(final(self)@),
            done is Err ==> final(self)@ == old(self)@ && old(self)@.move_outcome(
                (row as int, col as int),
                player,
                transfer_ownership,
            ) == Err::<Position, GameError>(done->Err_0),
    {
        let ghost before = self@;
        let ghost at = (row as int, col as int);
        proof {
            self.lemma_view();
        }
        let rows = grid_row_count(&self.grid);
        let cols = grid_col_count(&self.grid);
        let cell = match grid_get(&self.grid, row, col) {
            Some(cell) => *cell,
            None => {
                return Err(GameError::OutOfBounds);
            },
        };
        if !transfer_ownership && !cell.accepts(player) {
            return Err(GameError::IllegalMove);
        }
        if cell.dot_count == u32::MAX {
            return Err(GameError::InvariantViolation);
        }
        let mut work = grid_clone(&self.grid);
        match grid_get_mut(&mut work, row, col) {
            Some(slot) => {
                slot.dot_count = slot.dot_count + 1;
                slot.owner = Some(player);
            },
            None => {},
        }
        let ghost placed = grid_view(work);
        proof {
            assert(placed.cells =~= before.with_dot(at, player).cells);
            lemma_covered_at_start(before, at, player);
        }
        let limit = topple_limit(rows, cols);
        if settle(&mut work, row, col, player, limit, discipline) {
            proof {
                let full = choose|full: Seq<Spot>| #[trigger]
                    placed.settles_in(player, full) && full.len() <= limit as nat;
                placed.lemma_settled(player, full);
            }
            self.grid = work;
            proof {
                self.lemma_view();
            }
            Ok(())
        } else {
            Err(GameError::InvariantViolation)
        }
    }

    /// Places a dot of `player` at `row` and `col` if the cell is free or its
    /// own, and resolves the cascade that follows. Returns whether the move
    /// was made; a move that was not made leaves the board as it was.
    pub fn apply_move(&mut self, row: usize, col: usize, player: Player) -> (moved: bool)
        requires
            old(self)@.valid(),
        ensures
            final(self)@.valid(),
            moved == old(self)@.move_outcome((row as int, col as int), player, false) is Ok,
            moved ==> old(self)@.move_outcome((row as int, col as int), player, false) == Ok::<
                Position,
                GameError,
            >(final(self)@),
            !moved ==> final(self)@ == old(self)@,
    {
        match self.increment_count(row, col, player, false, Discipline::Fifo) {
            Ok(_) => true,
            Err(_) => false,
        }
    }
}

} // verus!
