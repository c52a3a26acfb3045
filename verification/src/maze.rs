//! The maze as it is held in memory.

use vstd::prelude::*;
use crate::cell::{Cell, Wall};
use crate::grid::{Grid, lemma_closed_grid, lemma_index_in_range, lemma_with_passage_cells};
use crate::position::{Direction, Position, lemma_move_inverse};

verus! {

/// A maze of `m` rows and `n` columns. The cell in row `r` and column `c` is
/// `cells[r * n + c]`.
#[derive(Clone, Debug, PartialEq)]
pub struct Maze {
    pub m: usize,
    pub n: usize,
    pub cells: Vec<Cell>,
}

impl View for Maze {
    type V = Grid;

    open spec fn view(&self) -> Grid {
        Grid { rows: self.m as nat, cols: self.n as nat, cells: self.cells@ }
    }
}

impl Maze {
    /// The maze has at least one cell, and `cells` holds one cell for each
    /// position. The fields are public, so this is asked of the caller
    /// wherever it matters.
    pub open spec fn wf(&self) -> bool {
        self@.wf()
    }

    /// A maze that is completely closed off: every wall stands and no cell
    /// is marked.
    pub fn new(m: usize, n: usize) -> (maze: Maze)
        requires
            m > 0,
            n > 0,
            m * n <= usize::MAX,
        ensures
            maze.m == m,
            maze.n == n,
            maze.wf(),
            maze@ == Grid::closed(m as nat, n as nat),
            maze@.symmetric(),
    {
        let total = m * n;
        let mut cells: Vec<Cell> = Vec::new();
        let mut i: usize = 0;
        while i < total
            invariant
                i <= total,
                cells@.len() == i,
                forall|k: int| 0 <= k < i ==> cells@[k] == Cell::walled(),
            decreases total - i,
        {
            cells.push(Cell::closed());
            i += 1;
        }
        let maze = Maze { m, n, cells };
        proof {
            assert(maze@.cells =~= Grid::closed(m as nat, n as nat).cells);
            lemma_closed_grid(m as nat, n as nat);
        }
        maze
    }

    /// Puts every wall back and takes every mark away; the size stays.
    pub fn reset_maze(&mut self)
        requires
            old(self).m > 0,
            old(self).n > 0,
            old(self).m * old(self).n <= usize::MAX,
        ensures
            final(self).m == old(self).m,
            final(self).n == old(self).n,
            final(self).wf(),
            final(self)@ == Grid::closed(old(self).m as nat, old(self).n as nat),
            final(self)@.symmetric(),
    {
        *self = Maze::new(self.m, self.n);
    }

    /// Whether `p` names a cell of this maze.
    pub fn is_position_valid(&self, p: Position) -> (res: bool)
        ensures
            res == self@.valid(p),
    {
        p.r < self.m && p.c < self.n
    }

    /// The index in `cells` of the cell at `p`.
    pub fn index(&self, p: Position) -> (i: usize)
        requires
            self.wf(),
            self@.valid(p),
        ensures
            i == self@.index(p),
            i < self.cells.len(),
    {
        proof {
            lemma_index_in_range(self@, p);
            assert(self.cells@.len() == self.cells.len());
            assert(0 <= p.r * self.n) by (nonlinear_arith);
        }
        p.r * self.n + p.c
    }

    /// The cell at `p`.
    pub fn cell(&self, p: Position) -> (cell: Cell)
        requires
            self.wf(),
            self@.valid(p),
        ensures
            cell == self@.cell(p),
    {
        let i = self.index(p);
        self.cells[i]
    }

    /// Whether one can walk from `p` in `dir` without leaving the maze or
    /// meeting a wall. The wall is looked at from both sides, so that a wall
    /// that was recorded on one side only still blocks the way.
    pub fn is_open(&self, p: Position, dir: Direction) -> (res: bool)
        requires
            self.wf(),
            self@.valid(p),
        ensures
            res == (self@.has_neighbor(p, dir) && self@.passage(p, dir, p.moved(dir).unwrap())),
    {
        match p.apply_move(dir) {
            Some(q) => {
                self.is_position_valid(q) && self.cell(p).wall(dir) == Wall::No && self.cell(
                    q,
                ).wall(dir.opposite()) == Wall::No
            },
            None => false,
        }
    }

    /// Takes away the wall between `p` and its neighbour in `dir`, on both
    /// sides at once, and returns the neighbour.
    pub fn open_passage(&mut self, p: Position, dir: Direction) -> (q: Position)
        requires
            old(self).wf(),
            old(self)@.has_neighbor(p, dir),
        ensures
            final(self).m == old(self).m,
            final(self).n == old(self).n,
            final(self).wf(),
            final(self)@ == old(self)@.with_passage(p, dir),
            p.moved(dir) == Some(q),
    {
        let q = match p.apply_move(dir) {
            Some(q) => q,
            None => p,
        };
        let i = self.index(p);
        let j = self.index(q);
        let mut here = self.cells[i];
        here.remove_wall(dir);
        self.cells.set(i, here);
        proof {
            lemma_with_passage_cells(old(self)@, p, dir);
            lemma_move_inverse(p, dir, q);
        }
        let mut there = self.cells[j];
        there.remove_wall(dir.opposite());
        self.cells.set(j, there);
        assert(self@.cells =~= old(self)@.with_passage(p, dir).cells);
        q
    }
}

} // verus!
