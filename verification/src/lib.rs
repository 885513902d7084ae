//! Chain Reaction: the rules of the board game as a verified engine.
//!
//! Players place dots on the cells of a rectangular board. A cell that holds
//! as many dots as it has orthogonal neighbours explodes: it hands one dot to
//! each neighbour, which the mover then owns, and the neighbours may explode in
//! turn. The modules, leaves first:
//!
//! - [`player`]: the four players and the order of their turns;
//! - [`cell`]: one cell, a dot count and an optional owner;
//! - [`position`]: the mathematical model of a board, of a placement and of an
//!   explosion;
//! - [`cascade`]: cascades of explosions, and what holds of them whatever the
//!   order of the explosions;
//! - [`moves`]: when a move is made, and what holds of every move;
//! - [`board`]: the board itself, with bounds-checked access to its cells;
//! - [`propagation`]: move application, with the cascade that a move sets off;
//! - [`game`]: the board together with the turn.

pub mod board;
pub mod cascade;
pub mod cell;
pub mod game;
pub mod moves;
pub mod player;
pub mod position;
pub mod propagation;

pub use board::Board;
pub use cell::{Cell, CellState};
pub use game::{Model, Msg, Turn};
pub use player::Player;
pub use position::{adjacent, GameError, Position, Spot};
pub use propagation::Discipline;
