//! Cascades: sequences of explosions, and what holds of them whatever the
//! order in which the explosions are taken.
//!
//! A cascade is written as the sequence of the spots that explode, first to
//! last. The board that a cascade leaves depends only on how often each cell
//! exploded. A cascade that ends on a stable board explodes each cell at least
//! as often as any other cascade from the same board, so every such cascade
//! leaves the same board after the same number of explosions.

use crate::cell::CellState;
use crate::player::Player;
use crate::position::{Position, Spot};
use vstd::prelude::*;

verus! {

/// How often `at` occurs in `steps`.
pub open spec fn times(steps: Seq<Spot>, at: Spot) -> nat
    decreases steps.len(),
{
    if steps.len() == 0 {
        0
    } else {
        times(steps.drop_last(), at) + if steps.last() == at { 1nat } else { 0nat }
    }
}

/// How many dots the cell at `at` receives in `steps`: one for each explosion
/// of a cell next to it.
pub open spec fn inflow(steps: Seq<Spot>, at: Spot) -> nat {
    times(steps, (at.0 - 1, at.1)) + times(steps, (at.0 + 1, at.1)) + times(
        steps,
        (at.0, at.1 - 1),
    ) + times(steps, (at.0, at.1 + 1))
}

impl Position {
    /// The board after the cells at `steps` have exploded one after the other
    /// in a move of `player`.
    pub open spec fn after(self, player: Player, steps: Seq<Spot>) -> Position
        decreases steps.len(),
    {
        if steps.len() == 0 {
            self
        } else {
            self.after(player, steps.drop_last()).toppled(steps.last(), player)
        }
    }

    /// Every cell of `steps` holds enough dots to explode when its turn comes.
    pub open spec fn legal(self, player: Player, steps: Seq<Spot>) -> bool
        decreases steps.len(),
    {
        steps.len() > 0 ==> {
            &&& self.legal(player, steps.drop_last())
            &&& self.after(player, steps.drop_last()).overflowing(steps.last())
        }
    }

    /// `steps` is a cascade that runs until nothing is left to explode.
    pub open spec fn settles_in(self, player: Player, steps: Seq<Spot>) -> bool {
        self.legal(player, steps) && self.after(player, steps).stable()
    }

    /// Some cascade of at most `limit` explosions leaves the board stable.
    pub open spec fn settles_within(self, player: Player, limit: nat) -> bool {
        exists|steps: Seq<Spot>| #[trigger] self.settles_in(player, steps) && steps.len() <= limit
    }

    /// The stable board that the cascades of a move of `player` lead to, where
    /// there is one.
    pub open spec fn settled(self, player: Player) -> Position {
        self.after(player, choose|steps: Seq<Spot>| self.settles_in(player, steps))
    }

    /// The dots at `at` after `steps`, counted from how often each cell
    /// exploded: what the cell held, and what it received, less what it gave.
    pub open spec fn dots_after(self, steps: Seq<Spot>, at: Spot) -> int {
        self.cell(at).dots + inflow(steps, at) - self.capacity(at) * times(steps, at)
    }

    /// The cell at `at` after `steps`, counted from how often each cell
    /// exploded. A cell that received a dot and still holds one belongs to
    /// the mover.
    pub open spec fn cell_after(self, player: Player, steps: Seq<Spot>, at: Spot) -> CellState {
        let dots = self.dots_after(steps, at);
        CellState {
            dots: dots as nat,
            owner: if dots == 0 {
                None
            } else if inflow(steps, at) > 0 {
                Some(player)
            } else {
                self.cell(at).owner
            },
        }
    }

    /// A cascade keeps the size of the board and the rule that a cell is owned
    /// exactly when it holds a dot, explodes only cells of the board, and
    /// leaves in each cell what the counts of the explosions give.
    pub proof fn lemma_after(self, player: Player, steps: Seq<Spot>)
        requires
            self.well_formed(),
            self.consistent(),
            self.legal(player, steps),
        ensures
            self.after(player, steps).rows == self.rows,
            self.after(player, steps).cols == self.cols,
            self.after(player, steps).well_formed(),
            self.after(player, steps).consistent(),
            forall|at: Spot| !self.in_bounds(at) ==> #[trigger] times(steps, at) == 0,
            forall|at: Spot|
                self.in_bounds(at) ==> self.dots_after(steps, at) >= 0 && #[trigger] self.after(
                    player,
                    steps,
                ).cell(at) == self.cell_after(player, steps, at),
        decreases steps.len(),
    {
        let end = self.after(player, steps);
        if steps.len() == 0 {
            assert forall|at: Spot| self.in_bounds(at) implies self.dots_after(steps, at) >= 0
                && #[trigger] end.cell(at) == self.cell_after(player, steps, at) by {
                assert(self.cell(at).consistent());
                assert(times(steps, at) == 0);
                assert(inflow(steps, at) == 0);
                assert(self.capacity(at) * 0 == 0);
            }
        } else {
            let prev = steps.drop_last();
            let last = steps.last();
            let mid = self.after(player, prev);
            self.lemma_after(player, prev);
            assert(mid.overflowing(last));
            assert(mid.cell(last) == self.cell_after(player, prev, last));
            assert(mid.cell(last).consistent());
            assert forall|at: Spot| self.in_bounds(at) implies self.dots_after(steps, at) >= 0
                && #[trigger] end.cell(at) == self.cell_after(player, steps, at) by {
                assert(mid.cell(at) == self.cell_after(player, prev, at));
                assert(mid.capacity(at) == self.capacity(at));
                let given = self.capacity(at);
                let before = times(prev, at);
                if at == last {
                    assert(given * (before + 1) == given * before + given) by (nonlinear_arith);
                }
            }
            assert forall|at: Spot| end.in_bounds(at) implies (#[trigger] end.cell(
                at,
            )).consistent() by {
                assert(mid.cell(at).consistent());
            }
            assert forall|at: Spot| !self.in_bounds(at) implies #[trigger] times(steps, at)
                == 0 by {
                assert(times(prev, at) == 0);
            }
        }
    }

    /// No cascade explodes a cell more often than a cascade that runs until
    /// the board is stable.
    pub proof fn lemma_least_action(self, player: Player, steps: Seq<Spot>, full: Seq<Spot>)
        requires
            self.well_formed(),
            self.consistent(),
            self.legal(player, steps),
            self.settles_in(player, full),
        ensures
            forall|at: Spot| #[trigger] times(steps, at) <= times(full, at),
        decreases steps.len(),
    {
        if steps.len() > 0 {
            let prev = steps.drop_last();
            let last = steps.last();
            let mid = self.after(player, prev);
            let end = self.after(player, full);
            self.lemma_least_action(player, prev, full);
            self.lemma_after(player, prev);
            self.lemma_after(player, full);
            if times(prev, last) >= times(full, last) {
                assert(times(prev, (last.0 - 1, last.1)) <= times(full, (last.0 - 1, last.1)));
                assert(times(prev, (last.0 + 1, last.1)) <= times(full, (last.0 + 1, last.1)));
                assert(times(prev, (last.0, last.1 - 1)) <= times(full, (last.0, last.1 - 1)));
                assert(times(prev, (last.0, last.1 + 1)) <= times(full, (last.0, last.1 + 1)));
                assert(times(prev, last) == times(full, last));
                assert(mid.cell(last) == self.cell_after(player, prev, last));
                assert(end.cell(last) == self.cell_after(player, full, last));
                assert(mid.capacity(last) == end.capacity(last));
                assert(end.overflowing(last));
                assert(false);
            }
            assert forall|at: Spot| #[trigger] times(steps, at) <= times(full, at) by {
                assert(times(prev, at) <= times(full, at));
            }
        }
    }

    /// Whatever the order of the explosions, the cascades of a move that run
    /// until the board is stable all leave the same board, after the same
    /// number of explosions.
    pub proof fn lemma_order_independent(
        self,
        player: Player,
        first: Seq<Spot>,
        second: Seq<Spot>,
    )
        requires
            self.well_formed(),
            self.consistent(),
            self.settles_in(player, first),
            self.settles_in(player, second),
        ensures
            self.after(player, first) == self.after(player, second),
            first.len() == second.len(),
    {
        self.lemma_least_action(player, first, second);
        self.lemma_least_action(player, second, first);
        self.lemma_after(player, first);
        self.lemma_after(player, second);
        let one = self.after(player, first);
        let two = self.after(player, second);
        assert forall|at: Spot| times(first, at) == times(second, at) by {
            assert(times(first, at) <= times(second, at));
            assert(times(second, at) <= times(first, at));
        }
        assert forall|at: Spot| one.cells.contains_key(at) implies one.cells[at]
            == two.cells[at] by {
            assert(one.cell(at) == self.cell_after(player, first, at));
            assert(two.cell(at) == self.cell_after(player, second, at));
        }
        assert(one.cells =~= two.cells);
        lemma_shorter(first, second);
        lemma_shorter(second, first);
    }

    /// A cascade that can still go on is shorter than every cascade that runs
    /// until the board is stable.
    pub proof fn lemma_no_overrun(self, player: Player, steps: Seq<Spot>, full: Seq<Spot>)
        requires
            self.well_formed(),
            self.consistent(),
            self.legal(player, steps),
            self.settles_in(player, full),
        ensures
            steps.len() <= full.len(),
    {
        self.lemma_least_action(player, steps, full);
        lemma_shorter(steps, full);
    }

    /// A cascade that runs until the board is stable leaves the board that
    /// `settled` names, and that board is valid.
    pub proof fn lemma_settled(self, player: Player, steps: Seq<Spot>)
        requires
            self.well_formed(),
            self.consistent(),
            self.settles_in(player, steps),
        ensures
            self.settled(player) == self.after(player, steps),
            self.settled(player).valid(),
            self.settled(player).rows == self.rows,
            self.settled(player).cols == self.cols,
    {
        let chosen = choose|steps: Seq<Spot>| self.settles_in(player, steps);
        self.lemma_order_independent(player, chosen, steps);
        self.lemma_after(player, steps);
    }
}

/// A spot occurs in a sequence at most as often as the sequence is long.
pub proof fn lemma_times_bound(steps: Seq<Spot>, at: Spot)
    ensures
        times(steps, at) <= steps.len(),
    decreases steps.len(),
{
    if steps.len() > 0 {
        lemma_times_bound(steps.drop_last(), at);
    }
}

/// The counts of two sequences, one after the other, add up.
pub proof fn lemma_times_concat(front: Seq<Spot>, back: Seq<Spot>, at: Spot)
    ensures
        times(front + back, at) == times(front, at) + times(back, at),
    decreases back.len(),
{
    if back.len() == 0 {
        assert(front + back =~= front);
    } else {
        lemma_times_concat(front, back.drop_last(), at);
        assert((front + back).drop_last() =~= front + back.drop_last());
    }
}

/// In a sequence that holds nothing twice, a spot is counted once or not at all.
pub proof fn lemma_times_unique(steps: Seq<Spot>, at: Spot)
    requires
        steps.no_duplicates(),
    ensures
        times(steps, at) == if steps.contains(at) { 1nat } else { 0nat },
    decreases steps.len(),
{
    if steps.len() > 0 {
        let prev = steps.drop_last();
        lemma_times_unique(prev, at);
        if prev.contains(at) {
            let index = choose|index: int| 0 <= index < prev.len() && prev[index] == at;
            assert(steps[index] == at);
        } else if steps.last() == at {
            assert(steps[steps.len() - 1] == at);
        } else if steps.contains(at) {
            let index = choose|index: int| 0 <= index < steps.len() && steps[index] == at;
            assert(prev[index] == at);
        }
    }
}

/// Taking one step out of a sequence takes one from the count of its spot and
/// leaves the other counts.
pub proof fn lemma_times_remove(steps: Seq<Spot>, index: int, at: Spot)
    requires
        0 <= index < steps.len(),
    ensures
        times(steps.remove(index), at) == times(steps, at) - if steps[index] == at {
            1nat
        } else {
            0nat
        },
    decreases steps.len(),
{
    if index == steps.len() - 1 {
        assert(steps.remove(index) =~= steps.drop_last());
    } else {
        lemma_times_remove(steps.drop_last(), index, at);
        assert(steps.remove(index).drop_last() =~= steps.drop_last().remove(index));
        assert(steps.remove(index).last() == steps.last());
    }
}

/// A spot that is counted occurs.
pub proof fn lemma_times_found(steps: Seq<Spot>, at: Spot)
    requires
        times(steps, at) > 0,
    ensures
        steps.contains(at),
    decreases steps.len(),
{
    if steps.last() == at {
        assert(steps[steps.len() - 1] == at);
    } else {
        lemma_times_found(steps.drop_last(), at);
        let prev = steps.drop_last();
        let index = choose|index: int| 0 <= index < prev.len() && prev[index] == at;
        assert(steps[index] == at);
    }
}

/// A sequence that holds no spot more often than another is no longer.
pub proof fn lemma_shorter(steps: Seq<Spot>, full: Seq<Spot>)
    requires
        forall|at: Spot| #[trigger] times(steps, at) <= times(full, at),
    ensures
        steps.len() <= full.len(),
    decreases steps.len(),
{
    if steps.len() > 0 {
        let last = steps.last();
        assert(times(steps, last) <= times(full, last));
        lemma_times_found(full, last);
        let index = choose|index: int| 0 <= index < full.len() && full[index] == last;
        let rest = full.remove(index);
        assert forall|at: Spot| #[trigger] times(steps.drop_last(), at) <= times(rest, at) by {
            lemma_times_remove(full, index, at);
            assert(times(steps, at) <= times(full, at));
        }
        lemma_shorter(steps.drop_last(), rest);
    }
}

} // verus!
