//! The four players and the fixed ring in which they take turns.

use vstd::prelude::*;

verus! {

/// A player, named by the colour of its dots.
#[derive(Clone, Copy, PartialEq, Eq, Structural, Debug)]
pub enum Player {
    Red,
    Green,
    Blue,
    Yellow,
}

impl Player {
    /// The player whose turn follows: Red, Green, Blue, Yellow, then Red again.
    pub open spec fn successor(self) -> Player {
        match self {
            Player::Red => Player::Green,
            Player::Green => Player::Blue,
            Player::Blue => Player::Yellow,
            Player::Yellow => Player::Red,
        }
    }

    /// The place of the player in the ring, counted from Red.
    pub open spec fn seat(self) -> nat {
        match self {
            Player::Red => 0,
            Player::Green => 1,
            Player::Blue => 2,
            Player::Yellow => 3,
        }
    }

    /// The player after `turns` completed turns.
    pub open spec fn after_turns(self, turns: nat) -> Player
        decreases turns,
    {
        if turns == 0 {
            self
        } else {
            self.after_turns((turns - 1) as nat).successor()
        }
    }

    /// The name of the player's colour.
    pub open spec fn color_name(self) -> Seq<char> {
        match self {
            Player::Red => "red"@,
            Player::Green => "green"@,
            Player::Blue => "blue"@,
            Player::Yellow => "yellow"@,
        }
    }

    /// The colour in which the player's cells are drawn.
    pub fn color(&self) -> (name: &'static str)
        ensures
            name@ == self.color_name(),
    {
        match self {
            Player::Red => "red",
            Player::Green => "green",
            Player::Blue => "blue",
            Player::Yellow => "yellow",
        }
    }

    /// The player who moves after this one.
    pub fn next_player(&self) -> (next: Player)
        ensures
            next == self.successor(),
    {
        match self {
            Player::Red => Player::Green,
            Player::Green => Player::Blue,
            Player::Blue => Player::Yellow,
            Player::Yellow => Player::Red,
        }
    }

    /// Each turn moves the seat one place round the ring of four.
    pub proof fn lemma_seat_after_turns(self, turns: nat)
        ensures
            self.after_turns(turns).seat() == (self.seat() + turns) % 4,
        decreases turns,
    {
        if turns > 0 {
            self.lemma_seat_after_turns((turns - 1) as nat);
        }
    }

    /// The turn comes back to a player exactly after a multiple of four turns.
    pub proof fn lemma_turn_cycle(self, turns: nat)
        ensures
            self.after_turns(turns) == self <==> turns % 4 == 0,
    {
        self.lemma_seat_after_turns(turns);
    }
}

} // verus!
