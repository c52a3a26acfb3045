//! Coordinates of a cell and the four compass moves between cells.

use vstd::prelude::*;

verus! {

/// One of the four compass directions in which a neighbour can lie.
#[derive(Clone, Copy, Debug, PartialEq, Eq, Structural)]
pub enum Direction {
    Left,
    Right,
    Up,
    Down,
}

/// The place of a cell: its row and its column, both counted from zero.
#[derive(Clone, Copy, Debug, Hash, PartialEq, Eq, Structural)]
pub struct Position {
    pub r: usize,
    pub c: usize,
}

impl Direction {
    /// The direction that undoes a move in `self`.
    pub open spec fn reversed(self) -> Direction {
        match self {
            Direction::Left => Direction::Right,
            Direction::Right => Direction::Left,
            Direction::Up => Direction::Down,
            Direction::Down => Direction::Up,
        }
    }

    /// The direction that points the other way.
    pub fn opposite(self) -> (res: Direction)
        ensures
            res == self.reversed(),
    {
        match self {
            Direction::Left => Direction::Right,
            Direction::Right => Direction::Left,
            Direction::Up => Direction::Down,
            Direction::Down => Direction::Up,
        }
    }
}

impl Position {
    /// Where one step in `dir` leads, if the coordinate can be represented:
    /// `Up` lowers the row, `Down` raises it, `Left` lowers the column and
    /// `Right` raises it. There is no step below zero or above `usize::MAX`.
    pub open spec fn moved(self, dir: Direction) -> Option<Position> {
        match dir {
            Direction::Up => if self.r > 0 {
                Some(Position { r: (self.r - 1) as usize, c: self.c })
            } else {
                None
            },
            Direction::Down => if self.r < usize::MAX {
                Some(Position { r: (self.r + 1) as usize, c: self.c })
            } else {
                None
            },
            Direction::Left => if self.c > 0 {
                Some(Position { r: self.r, c: (self.c - 1) as usize })
            } else {
                None
            },
            Direction::Right => if self.c < usize::MAX {
                Some(Position { r: self.r, c: (self.c + 1) as usize })
            } else {
                None
            },
        }
    }

    /// `self` comes strictly before `other` when the cells are read row by
    /// row, each row from left to right.
    pub open spec fn precedes(self, other: Position) -> bool {
        self.r < other.r || (self.r == other.r && self.c < other.c)
    }

    /// Takes one step in `dir`. The step fails only where the coordinate
    /// would leave the range of `usize`; bounds of a grid are not looked at.
    pub fn apply_move(self, dir: Direction) -> (res: Option<Position>)
        ensures
            res == self.moved(dir),
    {
        match dir {
            Direction::Up => match self.r.checked_sub(1) {
                Some(r) => Some(Position { r: r, c: self.c }),
                None => None,
            },
            Direction::Down => match self.r.checked_add(1) {
                Some(r) => Some(Position { r: r, c: self.c }),
                None => None,
            },
            Direction::Left => match self.c.checked_sub(1) {
                Some(c) => Some(Position { r: self.r, c: c }),
                None => None,
            },
            Direction::Right => match self.c.checked_add(1) {
                Some(c) => Some(Position { r: self.r, c: c }),
                None => None,
            },
        }
    }
}

/// A move is undone by the move in the opposite direction: whenever a step
/// from `p` in `dir` arrives at `q`, the step from `q` in the reversed
/// direction arrives back at `p`.
pub proof fn lemma_move_inverse(p: Position, dir: Direction, q: Position)
    requires
        p.moved(dir) == Some(q),
    ensures
        q.moved(dir.reversed()) == Some(p),
{
}

/// A step never stays in place, and steps in different directions lead to
/// different cells.
pub proof fn lemma_moves_distinct(p: Position, d1: Direction, d2: Direction)
    ensures
        p.moved(d1) != Some(p),
        d1 != d2 && p.moved(d1).is_some() ==> p.moved(d1) != p.moved(d2),
{
}

} // verus!
