//! The game: a board, the player whose turn it is, and the last move.

use crate::board::{Board, MAX_CELLS};
use crate::cell::Cell;
use crate::player::Player;
use crate::position::{GameError, Position, Spot};
use vstd::prelude::*;

verus! {

/// What a player asks of the game.
#[derive(Clone, Copy, PartialEq, Eq, Structural, Debug)]
pub enum Msg {
    /// Place a dot of the current player at this row and column.
    AddDot(usize, usize),
}

/// The game as the rules see it.
pub struct Turn {
    pub position: Position,
    pub current_player: Player,
    pub last_move: Option<Spot>,
}

impl Turn {
    /// The game before the first move on an empty board: Red begins.
    pub open spec fn opening(rows: nat, cols: nat) -> Turn {
        Turn {
            position: Position::empty(rows, cols),
            current_player: Player::Red,
            last_move: None,
        }
    }

    /// Whether a dot of `player` at `at` is accepted.
    pub open spec fn accepts(self, at: Spot, player: Player) -> bool {
        self.position.move_outcome(at, player, false) is Ok
    }

    /// The game after `player` has asked for a dot at `at`. A move that is
    /// made passes the turn on and is remembered as the last move; a move that
    /// is turned down changes nothing.
    pub open spec fn after_move(self, at: Spot, player: Player) -> Turn {
        match self.position.move_outcome(at, player, false) {
            Ok(position) => Turn {
                position,
                current_player: self.current_player.successor(),
                last_move: Some(at),
            },
            Err(_) => self,
        }
    }

    /// The game after the current player has asked for a dot at each of
    /// `requests` in turn.
    pub open spec fn after_requests(self, requests: Seq<Spot>) -> Turn
        decreases requests.len(),
    {
        if requests.len() == 0 {
            self
        } else {
            let before = self.after_requests(requests.drop_last());
            before.after_move(requests.last(), before.current_player)
        }
    }

    /// How many of `requests` are accepted.
    pub open spec fn moves_made(self, requests: Seq<Spot>) -> nat
        decreases requests.len(),
    {
        if requests.len() == 0 {
            0
        } else {
            let before = self.after_requests(requests.drop_last());
            self.moves_made(requests.drop_last()) + if before.accepts(
                requests.last(),
                before.current_player,
            ) {
                1nat
            } else {
                0nat
            }
        }
    }

    /// The turn passes on once for each move that is made, and for no other
    /// request: after a number of requests it is with the player so many
    /// places further round the ring as moves were made.
    pub proof fn lemma_turn_rotation(self, requests: Seq<Spot>)
        ensures
            self.after_requests(requests).current_player == self.current_player.after_turns(
                self.moves_made(requests),
            ),
        decreases requests.len(),
    {
        if requests.len() > 0 {
            self.lemma_turn_rotation(requests.drop_last());
        }
    }

    /// After requests of which a multiple of four were accepted, and only
    /// then, the turn is back with the player who began.
    pub proof fn lemma_turn_returns(self, requests: Seq<Spot>)
        ensures
            self.after_requests(requests).current_player == self.current_player
                <==> self.moves_made(requests) % 4 == 0,
    {
        self.lemma_turn_rotation(requests);
        self.current_player.lemma_turn_cycle(self.moves_made(requests));
    }

    /// Requests keep a valid board valid.
    pub proof fn lemma_requests_keep_valid(self, requests: Seq<Spot>)
        requires
            self.position.valid(),
        ensures
            self.after_requests(requests).position.valid(),
        decreases requests.len(),
    {
        if requests.len() > 0 {
            let before = self.after_requests(requests.drop_last());
            self.lemma_requests_keep_valid(requests.drop_last());
            if before.accepts(requests.last(), before.current_player) {
                before.position.lemma_move_keeps_valid(
                    requests.last(),
                    before.current_player,
                    false,
                );
            }
        }
    }
}

/// A game of Chain Reaction.
pub struct Model {
    grid: Board,
    current_player: Player,
    last_edited: Option<(usize, usize)>,
}

impl View for Model {
    type V = Turn;

    closed spec fn view(&self) -> Turn {
        Turn {
            position: self.grid@,
            current_player: self.current_player,
            last_move: match self.last_edited {
                Some(spot) => Some((spot.0 as int, spot.1 as int)),
                None => None,
            },
        }
    }
}

impl Model {
    /// A game on an empty board of `rows` by `cols` cells. Red begins.
    pub fn new(rows: usize, cols: usize) -> (game: Model)
        requires
            rows * cols <= MAX_CELLS,
        ensures
            game@ == Turn::opening(rows as nat, cols as nat),
            game@.position.valid(),
    {
        Model { grid: Board::new(rows, cols), current_player: Player::Red, last_edited: None }
    }

    /// A game on an empty board of five by five cells. Red begins.
    pub fn create() -> (game: Model)
        ensures
            game@ == Turn::opening(5, 5),
            game@.position.valid(),
    {
        Model::new(5, 5)
    }

    /// Places a dot of `player` at `row` and `col` if the cell is free or its
    /// own, and resolves the cascade that follows. A move that is made passes
    /// the turn on and is remembered as the last move. Returns whether the
    /// move was made; a move that was not made changes nothing.
    pub fn apply_move(&mut self, row: usize, col: usize, player: Player) -> (moved: bool)
        requires
            old(self)@.position.valid(),
        ensures
            final(self)@.position.valid(),
            moved == old(self)@.accepts((row as int, col as int), player),
            final(self)@ == old(self)@.after_move((row as int, col as int), player),
    {
        if self.grid.apply_move(row, col, player) {
            self.last_edited = Some((row, col));
            self.current_player = self.current_player.next_player();
            true
        } else {
            false
        }
    }

    /// Handles a request of the current player. Returns whether the game is to
    /// be drawn again, which it always is.
    pub fn update(&mut self, msg: Msg) -> (redraw: bool)
        requires
            old(self)@.position.valid(),
        ensures
            redraw,
            final(self)@.position.valid(),
            match msg {
                Msg::AddDot(row, col) => final(self)@ == old(self)@.after_move(
                    (row as int, col as int),
                    old(self)@.current_player,
                ),
            },
    {
        match msg {
            Msg::AddDot(row, col) => {
                let player = self.current_player;
                self.apply_move(row, col, player);
                true
            },
        }
    }

    /// The cell at `row` and `col`, or `OutOfBounds` where the board has no
    /// such cell.
    pub fn get_cell(&self, row: usize, col: usize) -> (found: Result<Cell, GameError>)
        ensures
            self@.position.in_bounds((row as int, col as int)) ==> found is Ok && found->Ok_0@
                == self@.position.cell((row as int, col as int)),
            !self@.position.in_bounds((row as int, col as int)) ==> found == Err::<
                Cell,
                GameError,
            >(GameError::OutOfBounds),
    {
        self.grid.get(row, col)
    }

    /// The player whose turn it is.
    pub fn current_player(&self) -> (player: Player)
        ensures
            player == self@.current_player,
    {
        self.current_player
    }

    /// The number of rows and the number of columns of the board.
    pub fn dimensions(&self) -> (size: (usize, usize))
        ensures
            size.0 == self@.position.rows,
            size.1 == self@.position.cols,
    {
        self.grid.dimensions()
    }

    /// The row and column of the last move that was made, if there was one.
    pub fn last_move(&self) -> (spot: Option<(usize, usize)>)
        ensures
            match spot {
                Some(spot) => self@.last_move == Some((spot.0 as int, spot.1 as int)),
                None => self@.last_move is None,
            },
    {
        self.last_edited
    }

    /// The board.
    pub fn board(&self) -> (board: &Board)
        ensures
            board@ == self@.position,
    {
        &self.grid
    }
}

} // verus!
