//! Moves: when a request to place a dot is accepted, what it leaves on the
//! board, and what holds of every move that is made.

use crate::player::Player;
use crate::position::{GameError, Position, Spot};
use vstd::prelude::*;

verus! {

/// The number of explosions after which a cascade on a board of `rows` by
/// `cols` cells is given up: the cube of the number of cells, and at most a
/// thousand million.
pub open spec fn cascade_limit(rows: nat, cols: nat) -> nat {
    let cells = if rows * cols < 1000 { rows * cols } else { 1000 };
    cells * cells * cells
}

impl Position {
    /// The number of explosions after which a cascade on this board is given
    /// up.
    pub open spec fn topple_limit(self) -> nat {
        cascade_limit(self.rows, self.cols)
    }

    /// What becomes of the request of `player` to place a dot at `at`. With
    /// `transfer_ownership` the dot is placed whoever owns the cell.
    ///
    /// The request is turned down where the board has no such cell, where the
    /// cell belongs to another player, and where the cascade does not come to
    /// rest within the limit or the cell cannot count one dot more. Otherwise
    /// the dot is placed and the cascade runs until the board is stable.
    pub open spec fn move_outcome(
        self,
        at: Spot,
        player: Player,
        transfer_ownership: bool,
    ) -> Result<Position, GameError> {
        if !self.in_bounds(at) {
            Err(GameError::OutOfBounds)
        } else if !transfer_ownership && !self.cell(at).accepts(player) {
            Err(GameError::IllegalMove)
        } else if self.cell(at).dots >= u32::MAX || !self.with_dot(at, player).settles_within(
            player,
            self.topple_limit(),
        ) {
            Err(GameError::InvariantViolation)
        } else {
            Ok(self.with_dot(at, player).settled(player))
        }
    }

    /// A dot on a cell that another player owns is turned down as an illegal
    /// move.
    pub proof fn lemma_foreign_cell_refused(self, at: Spot, player: Player)
        requires
            self.in_bounds(at),
            self.cell(at).owner is Some,
            self.cell(at).owner != Some(player),
        ensures
            self.move_outcome(at, player, false) == Err::<Position, GameError>(
                GameError::IllegalMove,
            ),
    {
    }

    /// A dot on a cell of the board that is free or the mover's own is
    /// accepted, provided that the cascade comes to rest within the limit and
    /// the cell can count one dot more.
    pub proof fn lemma_own_cell_accepted(self, at: Spot, player: Player)
        requires
            self.admits(at, player),
            self.cell(at).dots < u32::MAX,
            self.with_dot(at, player).settles_within(player, self.topple_limit()),
        ensures
            self.move_outcome(at, player, false) is Ok,
    {
    }

    /// A dot on a cell that is free or the mover's own, and that stays below
    /// the number of its neighbours with it, is accepted and nothing explodes.
    /// So is every such dot on a cell without neighbours while the cell can
    /// count one dot more.
    pub proof fn lemma_quiet_move(self, at: Spot, player: Player)
        requires
            self.valid(),
            self.admits(at, player),
            self.cell(at).dots + 1 < self.capacity(at) || (self.capacity(at) == 0 && self.cell(
                at,
            ).dots < u32::MAX),
        ensures
            self.move_outcome(at, player, false) == Ok::<Position, GameError>(
                self.with_dot(at, player),
            ),
    {
        let placed = self.with_dot(at, player);
        let none = Seq::<Spot>::empty();
        self.lemma_capacity(at);
        assert forall|b: Spot| !#[trigger] placed.overflowing(b) by {
            assert(!self.overflowing(b));
        }
        assert forall|b: Spot| placed.in_bounds(b) implies (#[trigger] placed.cell(
            b,
        )).consistent() by {
            assert(self.cell(b).consistent());
        }
        assert(placed.settles_in(player, none));
        placed.lemma_settled(player, none);
    }

    /// A move that is made on a valid board leaves a valid board of the same
    /// size: every cell is owned exactly when it holds a dot, and on a board
    /// of more than one cell every cell holds fewer dots than it has
    /// neighbours.
    pub proof fn lemma_move_keeps_valid(
        self,
        at: Spot,
        player: Player,
        transfer_ownership: bool,
    )
        requires
            self.valid(),
            self.move_outcome(at, player, transfer_ownership) is Ok,
        ensures
            ({
                let next = self.move_outcome(at, player, transfer_ownership)->Ok_0;
                &&& next.valid()
                &&& next.rows == self.rows
                &&& next.cols == self.cols
                &&& self.rows > 1 || self.cols > 1 ==> forall|b: Spot|
                    next.in_bounds(b) ==> (#[trigger] next.cell(b)).dots < next.capacity(b)
            }),
    {
        let placed = self.with_dot(at, player);
        let next = placed.settled(player);
        let full = choose|full: Seq<Spot>| #[trigger]
            placed.settles_in(player, full) && full.len() <= self.topple_limit();
        assert forall|b: Spot| placed.in_bounds(b) implies (#[trigger] placed.cell(
            b,
        )).consistent() by {
            assert(self.cell(b).consistent());
        }
        placed.lemma_settled(player, full);
        if self.rows > 1 || self.cols > 1 {
            assert forall|b: Spot| next.in_bounds(b) implies (#[trigger] next.cell(b)).dots
                < next.capacity(b) by {
                next.lemma_capacity(b);
                assert(!next.overflowing(b));
            }
        }
    }

    /// Where a move is made, none of its cascades, in whatever order its
    /// explosions are taken, has more explosions than the limit.
    pub proof fn lemma_cascade_bounded(
        self,
        at: Spot,
        player: Player,
        transfer_ownership: bool,
        steps: Seq<Spot>,
    )
        requires
            self.valid(),
            self.move_outcome(at, player, transfer_ownership) is Ok,
            self.with_dot(at, player).legal(player, steps),
        ensures
            steps.len() <= self.topple_limit(),
    {
        let placed = self.with_dot(at, player);
        let full = choose|full: Seq<Spot>| #[trigger]
            placed.settles_in(player, full) && full.len() <= self.topple_limit();
        assert forall|b: Spot| placed.in_bounds(b) implies (#[trigger] placed.cell(
            b,
        )).consistent() by {
            assert(self.cell(b).consistent());
        }
        placed.lemma_no_overrun(player, steps, full);
    }
}

} // verus!
