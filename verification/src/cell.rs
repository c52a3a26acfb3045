//! A single cell of the grid: four walls and a mark.

use vstd::prelude::*;
use crate::position::Direction;

verus! {

/// Whether a wall stands on one side of a cell.
#[derive(Clone, Copy, Debug, PartialEq, Eq, Structural)]
pub enum Wall {
    No,
    Yes,
}

/// A cell with one wall flag per side and the mark that a player sets by
/// clicking on it.
///
/// The wall between two neighbours is stored twice, once in each of them.
/// Nothing in the type keeps the two flags equal: whoever removes a wall
/// removes it on both sides.
#[derive(Clone, Copy, Debug, PartialEq, Eq, Structural)]
pub struct Cell {
    pub left: Wall,
    pub right: Wall,
    pub up: Wall,
    pub down: Wall,
    pub clicked: bool,
}

impl Cell {
    /// The cell with all four walls standing and no mark.
    pub open spec fn walled() -> Cell {
        Cell { left: Wall::Yes, right: Wall::Yes, up: Wall::Yes, down: Wall::Yes, clicked: false }
    }

    /// The wall flag on the side that faces `dir`.
    pub open spec fn side(self, dir: Direction) -> Wall {
        match dir {
            Direction::Left => self.left,
            Direction::Right => self.right,
            Direction::Up => self.up,
            Direction::Down => self.down,
        }
    }

    /// The same cell with the wall that faces `dir` taken away.
    pub open spec fn opened(self, dir: Direction) -> Cell {
        match dir {
            Direction::Left => Cell { left: Wall::No, ..self },
            Direction::Right => Cell { right: Wall::No, ..self },
            Direction::Up => Cell { up: Wall::No, ..self },
            Direction::Down => Cell { down: Wall::No, ..self },
        }
    }

    /// A cell that is closed off on all sides and not marked.
    pub fn closed() -> (cell: Cell)
        ensures
            cell == Cell::walled(),
    {
        Cell { left: Wall::Yes, right: Wall::Yes, up: Wall::Yes, down: Wall::Yes, clicked: false }
    }

    /// The wall flag on the side that faces `dir`.
    pub fn wall(&self, dir: Direction) -> (w: Wall)
        ensures
            w == self.side(dir),
    {
        match dir {
            Direction::Left => self.left,
            Direction::Right => self.right,
            Direction::Up => self.up,
            Direction::Down => self.down,
        }
    }

    /// Takes away the wall that faces `dir` and leaves the rest as it is.
    pub fn remove_wall(&mut self, dir: Direction)
        ensures
            *final(self) == old(self).opened(dir),
    {
        match dir {
            Direction::Left => {
                self.left = Wall::No;
            },
            Direction::Right => {
                self.right = Wall::No;
            },
            Direction::Up => {
                self.up = Wall::No;
            },
            Direction::Down => {
                self.down = Wall::No;
            },
        }
    }
}

} // verus!
