//! The score of a player: the level reached and the lives left.

use vstd::prelude::*;

verus! {

/// Whether the player can go on after a loss.
#[derive(Clone, Copy, Debug, PartialEq, Eq, Structural)]
pub enum GameStatus {
    Alive,
    Dead,
}

/// The level a player is on and the lives the player has left.
#[derive(Debug)]
pub struct Game {
    pub level: usize,
    pub lives: usize,
}

impl Game {
    /// A game at its beginning: level one, three lives.
    pub fn new() -> (game: Game)
        ensures
            game.level == 1,
            game.lives == 3,
    {
        Self { level: 1, lives: 3 }
    }

    /// Takes a life for a lost maze. The last life is never taken: a player
    /// who has more than one life loses one and stays alive, a player who
    /// has one life or none keeps what is there and is dead.
    pub fn apply_loss(&mut self) -> (status: GameStatus)
        ensures
            final(self).level == old(self).level,
            old(self).lives > 1 ==> status == GameStatus::Alive && final(self).lives == old(
                self,
            ).lives - 1,
            old(self).lives <= 1 ==> status == GameStatus::Dead && final(self).lives == old(
                self,
            ).lives,
    {
        if self.lives > 1 {
            self.lives -= 1;
            GameStatus::Alive
        } else {
            GameStatus::Dead
        }
    }

    /// Moves the player up one level for a solved maze.
    pub fn apply_win(&mut self)
        requires
            old(self).level < usize::MAX,
        ensures
            final(self).level == old(self).level + 1,
            final(self).lives == old(self).lives,
    {
        self.level += 1;
    }
}

} // verus!
