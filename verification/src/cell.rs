//! One cell of the board: how many dots it holds and who owns them.

use crate::player::Player;
use vstd::prelude::*;

verus! {

/// A cell as the rules see it: a number of dots without a machine bound, and
/// the owner of those dots.
pub struct CellState {
    pub dots: nat,
    pub owner: Option<Player>,
}

impl CellState {
    /// The cell that holds nothing.
    pub open spec fn empty() -> CellState {
        CellState { dots: 0, owner: None }
    }

    /// A cell is owned exactly when it holds a dot.
    pub open spec fn consistent(self) -> bool {
        self.owner is None <==> self.dots == 0
    }

    /// A player may place a dot on a cell that is free or its own.
    pub open spec fn accepts(self, player: Player) -> bool {
        self.owner is None || self.owner == Some(player)
    }

    /// The cell after `player` has put one more dot on it.
    pub open spec fn with_dot(self, player: Player) -> CellState {
        CellState { dots: self.dots + 1, owner: Some(player) }
    }

    /// The cell after it has given away `given` of its dots. A cell left
    /// without dots has no owner.
    pub open spec fn without(self, given: nat) -> CellState {
        let left = (self.dots - given) as nat;
        CellState { dots: left, owner: if left == 0 { None } else { self.owner } }
    }

    /// The name of the colour in which the cell is drawn.
    pub open spec fn color_name(self) -> Seq<char> {
        match self.owner {
            Some(player) => player.color_name(),
            None => "white"@,
        }
    }
}

/// A cell of the board.
#[derive(Clone, Copy, PartialEq, Eq, Structural, Debug)]
pub struct Cell {
    pub dot_count: u32,
    pub owner: Option<Player>,
}

impl View for Cell {
    type V = CellState;

    open spec fn view(&self) -> CellState {
        CellState { dots: self.dot_count as nat, owner: self.owner }
    }
}

impl Default for Cell {
    fn default() -> (cell: Cell)
        ensures
            cell@ == CellState::empty(),
    {
        Cell { dot_count: 0, owner: None }
    }
}

impl Cell {
    /// An empty cell.
    pub fn new() -> (cell: Cell)
        ensures
            cell@ == CellState::empty(),
    {
        Cell { dot_count: 0, owner: None }
    }

    /// Whether the cell is owned exactly when it holds a dot.
    pub fn is_consistent(&self) -> (ok: bool)
        ensures
            ok == self@.consistent(),
    {
        self.owner.is_none() == (self.dot_count == 0)
    }

    /// Whether `player` may place a dot here: the cell is free or its own.
    pub fn accepts(&self, player: Player) -> (ok: bool)
        ensures
            ok == self@.accepts(player),
    {
        match self.owner {
            None => true,
            Some(owner) => owner == player,
        }
    }

    /// Places one dot of `player` if the cell is free or its own and the
    /// count has room for it. Otherwise the cell stays as it is.
    pub fn add_dot(&mut self, player: Player) -> (added: bool)
        ensures
            added == (old(self)@.accepts(player) && old(self).dot_count < u32::MAX),
            added ==> final(self)@ == old(self)@.with_dot(player),
            !added ==> *final(self) == *old(self),
    {
        if self.accepts(player) && self.dot_count < u32::MAX {
            self.dot_count += 1;
            self.owner = Some(player);
            true
        } else {
            false
        }
    }

    /// Empties the cell.
    pub fn reset(&mut self)
        ensures
            final(self)@ == CellState::empty(),
    {
        self.dot_count = 0;
        self.owner = None;
    }

    /// The colour in which the cell is drawn: its owner's, or white.
    pub fn color(&self) -> (name: &'static str)
        ensures
            name@ == self@.color_name(),
    {
        match self.owner {
            Some(player) => player.color(),
            None => "white",
        }
    }
}

} // verus!
