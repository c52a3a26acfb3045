//! Carving passages into a maze until every cell can be reached.
//!
//! The carving walks through the maze from the top left corner. While it is
//! on an excursion it breaks through into a neighbour that it has not been to
//! and goes on from there. When it is stuck, or when the excursion has grown
//! as long as the caller allows, it starts afresh at the first cell that it
//! has not been to; the first thing a fresh start does is to break through
//! into a neighbour that it *has* been to, which ties the new excursion to
//! what was carved before. Which of several possible neighbours is taken is
//! left to chance.

use vstd::prelude::*;
use rand::Rng;
use crate::flags::{count_set, no_flags, lemma_count_set_bounds, lemma_count_set_cells, lemma_count_set_update, lemma_flag_one};
use crate::grid::{
    Grid,
    lemma_carved_from_chain,
    lemma_connected_extend,
    lemma_connected_monotone,
    lemma_connected_reflexive,
    lemma_connected_transitive,
    lemma_index_in_range,
    lemma_joined_symmetric,
    lemma_route_backwards,
    lemma_with_passage,
    lemma_with_passage_symmetric,
};
use crate::maze::Maze;
use crate::position::{Direction, Position, lemma_moves_distinct};

verus! {

/// The cell in the top left corner, where every carving begins.
pub open spec fn origin() -> Position {
    Position { r: 0, c: 0 }
}

/// How far a carving has come.
pub struct Carving {
    /// One flag per cell, in the order of the maze's cells: whether the
    /// carving has been there.
    pub visited: Vec<bool>,
    /// How many cells the carving has been to.
    pub visited_count: usize,
    /// The cell where the next step begins.
    pub pos: Position,
    /// How many steps the present excursion has taken; zero at a fresh
    /// start.
    pub depth_count: usize,
}

impl Grid {
    /// Whether a step from `p` may go in `dir`: the neighbour on that side
    /// lies in the grid, and the carving has been there if this is a fresh
    /// start (`depth_count == 0`), or has not been there if it is not.
    pub open spec fn is_candidate(
        self,
        visited: Seq<bool>,
        p: Position,
        depth_count: usize,
        dir: Direction,
    ) -> bool {
        self.has_neighbor(p, dir) && self.flagged(visited, p.moved(dir).unwrap()) == (depth_count
            == 0)
    }

    /// `dir` alone if a step may go there, else nothing.
    pub open spec fn candidate(
        self,
        visited: Seq<bool>,
        p: Position,
        depth_count: usize,
        dir: Direction,
    ) -> Seq<Direction> {
        if self.is_candidate(visited, p, depth_count, dir) {
            seq![dir]
        } else {
            Seq::empty()
        }
    }

    /// The directions in which a step from `p` may go, in the order up,
    /// down, left, right.
    pub open spec fn candidates(self, visited: Seq<bool>, p: Position, depth_count: usize) -> Seq<
        Direction,
    > {
        self.candidate(visited, p, depth_count, Direction::Up) + self.candidate(
            visited,
            p,
            depth_count,
            Direction::Down,
        ) + self.candidate(visited, p, depth_count, Direction::Left) + self.candidate(
            visited,
            p,
            depth_count,
            Direction::Right,
        )
    }
}

impl Carving {
    /// The carving fits the grid: it has one flag per cell, its count is the
    /// number of flags that are set, and its position lies in the grid.
    pub open spec fn wf(&self, g: Grid) -> bool {
        &&& g.wf()
        &&& self.visited@.len() == g.cells.len()
        &&& self.visited_count == count_set(self.visited@)
        &&& g.valid(self.pos)
    }

    /// The carving has been to every cell.
    pub open spec fn done(&self) -> bool {
        self.visited_count == self.visited@.len()
    }

    /// What every carving that began with [`Carving::start`] keeps true from
    /// step to step:
    ///
    /// * every cell that it has been to is connected to the top left corner;
    /// * on an excursion, so is the cell where the next step begins;
    /// * at a fresh start, it has been to every cell before the present one;
    /// * it stands on a cell that it has been to only right after the first
    ///   step of an excursion.
    pub open spec fn sound(&self, g: Grid) -> bool {
        &&& self.wf(g)
        &&& forall|p: Position|
            g.valid(p) && #[trigger] g.flagged(self.visited@, p) ==> g.connected(
                Set::full(),
                origin(),
                p,
            )
        &&& self.depth_count > 0 ==> g.connected(Set::full(), origin(), self.pos)
        &&& self.depth_count == 0 ==> forall|q: Position|
            g.valid(q) && q.precedes(self.pos) ==> #[trigger] g.flagged(self.visited@, q)
        &&& !self.done() && self.depth_count != 1 ==> !g.flagged(self.visited@, self.pos)
    }

    /// A bound on the number of steps that are left: two for each cell that
    /// the carving has not been to, and one more while it stands on a cell
    /// that it has been to.
    pub open spec fn remaining(&self, g: Grid) -> int {
        2 * (self.visited@.len() - self.visited_count) + if g.flagged(self.visited@, self.pos) {
            1int
        } else {
            0int
        }
    }
}

/// The carving starts afresh: at the first cell that has no flag in
/// `visited`, or where it stood, at `from`, if every cell has one.
pub open spec fn restarted(g: Grid, visited: Seq<bool>, from: Position, next: Carving) -> bool {
    &&& next.depth_count == 0
    &&& if g.all_flagged(visited) {
        next.pos == from
    } else {
        g.is_first_unflagged(visited, next.pos)
    }
}

/// One step of the carving, from the grid `g` and the progress `st` to the
/// grid `g2` and the progress `st2`, where `pick` says which of the possible
/// directions is taken.
///
/// The present cell counts as visited from now on. If a step may go
/// somewhere, the wall to the neighbour in the picked direction goes, on both
/// sides, and the carving moves to that neighbour; then either the excursion
/// goes on from there, if it has taken fewer than `max_depth` steps, or the
/// carving starts afresh. If no step may go anywhere, nothing is carved and
/// the carving starts afresh.
pub open spec fn carve_steps_to(
    g: Grid,
    st: Carving,
    max_depth: usize,
    pick: usize,
    g2: Grid,
    st2: Carving,
) -> bool {
    let visited = st.visited@.update(g.index(st.pos), true);
    let dirs = g.candidates(st.visited@, st.pos, st.depth_count);
    &&& st2.visited@ == visited
    &&& st2.visited_count == count_set(visited)
    &&& if dirs.len() == 0 {
        &&& g2 == g
        &&& restarted(g2, visited, st.pos, st2)
    } else {
        &&& g2 == g.with_passage(st.pos, dirs[pick as int])
        &&& if st.depth_count < max_depth {
            &&& st2.pos == st.pos.moved(dirs[pick as int]).unwrap()
            &&& st2.depth_count == st.depth_count + 1
        } else {
            restarted(g2, visited, st.pos.moved(dirs[pick as int]).unwrap(), st2)
        }
    }
}

/// A moment in the course of a carving: the grid as it is, and how far the
/// carving has come.
pub struct Stage {
    pub grid: Grid,
    pub st: Carving,
}

/// The carving has not begun: it has been nowhere and stands in the top left
/// corner, at a fresh start.
pub open spec fn at_start(g: Grid, st: Carving) -> bool {
    &&& st.visited@ == Seq::new(g.cells.len(), |i: int| false)
    &&& st.visited_count == 0
    &&& st.pos == origin()
    &&& st.depth_count == 0
}

/// From stage `i` of `run` to the next is one step of an unfinished carving,
/// taken in the direction that `picks[i]` names.
pub open spec fn is_step(run: Seq<Stage>, picks: Seq<usize>, max_depth: usize, i: int) -> bool {
    let dirs = run[i].grid.candidates(run[i].st.visited@, run[i].st.pos, run[i].st.depth_count);
    &&& !run[i].st.done()
    &&& dirs.len() == 0 || picks[i] < dirs.len()
    &&& carve_steps_to(
        run[i].grid,
        run[i].st,
        max_depth,
        picks[i],
        run[i + 1].grid,
        run[i + 1].st,
    )
}

/// `run` is the course of a carving of `g` from its start, step by step.
pub open spec fn is_run(g: Grid, max_depth: usize, run: Seq<Stage>, picks: Seq<usize>) -> bool {
    &&& run.len() == picks.len() + 1
    &&& run[0].grid == g
    &&& at_start(g, run[0].st)
    &&& forall|i: int| 0 <= i < picks.len() ==> #[trigger] is_step(run, picks, max_depth, i)
}

/// `result` is what a carving of `g` can end in: some choice of directions
/// leads the carving, step by step, from `g` to `result`, where it has been
/// to every cell.
pub open spec fn carved_by_steps(g: Grid, max_depth: usize, result: Grid) -> bool {
    exists|run: Seq<Stage>, picks: Seq<usize>| #[trigger]
        is_run(g, max_depth, run, picks) && run.last().grid == result && run.last().st.done()
}

/// Each of the listed directions is one in which a step may go, and every
/// such direction is listed.
pub proof fn lemma_candidates(g: Grid, visited: Seq<bool>, p: Position, depth_count: usize)
    ensures
        g.candidates(visited, p, depth_count).len() <= 4,
        forall|k: int|
            0 <= k < g.candidates(visited, p, depth_count).len() ==> g.is_candidate(
                visited,
                p,
                depth_count,
                #[trigger] g.candidates(visited, p, depth_count)[k],
            ),
        forall|dir: Direction| #[trigger]
            g.is_candidate(visited, p, depth_count, dir) ==> g.candidates(
                visited,
                p,
                depth_count,
            ).len() > 0,
{
    let up = g.candidate(visited, p, depth_count, Direction::Up);
    let down = g.candidate(visited, p, depth_count, Direction::Down);
    let left = g.candidate(visited, p, depth_count, Direction::Left);
    let right = g.candidate(visited, p, depth_count, Direction::Right);
    let all = g.candidates(visited, p, depth_count);
    assert(all == up + down + left + right);
    assert forall|k: int| 0 <= k < all.len() implies g.is_candidate(
        visited,
        p,
        depth_count,
        #[trigger] all[k],
    ) by {
        if k < up.len() {
            assert(all[k] == up[k]);
        } else if k < up.len() + down.len() {
            assert(all[k] == down[k - up.len()]);
        } else if k < up.len() + down.len() + left.len() {
            assert(all[k] == left[k - up.len() - down.len()]);
        } else {
            assert(all[k] == right[k - up.len() - down.len() - left.len()]);
        }
    }
    assert forall|dir: Direction| #[trigger]
        g.is_candidate(visited, p, depth_count, dir) implies all.len() > 0 by {
        match dir {
            Direction::Up => {
                assert(up.len() == 1);
            },
            Direction::Down => {
                assert(down.len() == 1);
            },
            Direction::Left => {
                assert(left.len() == 1);
            },
            Direction::Right => {
                assert(right.len() == 1);
            },
        }
    }
}

/// Whether a step may go somewhere does not depend on the flag of the cell
/// where it begins.
pub proof fn lemma_candidates_ignore_own_flag(
    g: Grid,
    visited: Seq<bool>,
    p: Position,
    depth_count: usize,
)
    requires
        g.wf(),
        visited.len() == g.cells.len(),
        g.valid(p),
    ensures
        g.candidates(visited.update(g.index(p), true), p, depth_count) == g.candidates(
            visited,
            p,
            depth_count,
        ),
{
    let marked = visited.update(g.index(p), true);
    assert forall|dir: Direction|
        g.is_candidate(marked, p, depth_count, dir) == g.is_candidate(
            visited,
            p,
            depth_count,
            dir,
        ) by {
        if g.has_neighbor(p, dir) {
            lemma_moves_distinct(p, dir, dir);
            lemma_flag_one(g, visited, p, p.moved(dir).unwrap());
        }
    }
    assert(g.candidate(marked, p, depth_count, Direction::Up) == g.candidate(
        visited,
        p,
        depth_count,
        Direction::Up,
    ));
    assert(g.candidate(marked, p, depth_count, Direction::Down) == g.candidate(
        visited,
        p,
        depth_count,
        Direction::Down,
    ));
    assert(g.candidate(marked, p, depth_count, Direction::Left) == g.candidate(
        visited,
        p,
        depth_count,
        Direction::Left,
    ));
    assert(g.candidate(marked, p, depth_count, Direction::Right) == g.candidate(
        visited,
        p,
        depth_count,
        Direction::Right,
    ));
}

/// At a fresh start anywhere but in the top left corner, a step can go
/// somewhere: the cell to the left, or the one above, has been visited.
pub proof fn lemma_fresh_start_has_candidate(g: Grid, st: Carving)
    requires
        st.sound(g),
        st.depth_count == 0,
        st.pos != origin(),
    ensures
        g.candidates(st.visited@, st.pos, st.depth_count).len() > 0,
{
    let p = st.pos;
    lemma_candidates(g, st.visited@, p, st.depth_count);
    if p.c > 0 {
        let q = Position { r: p.r, c: (p.c - 1) as usize };
        assert(p.moved(Direction::Left) == Some(q));
        assert(q.precedes(p));
        assert(g.flagged(st.visited@, q));
        assert(g.is_candidate(st.visited@, p, st.depth_count, Direction::Left));
    } else {
        let q = Position { r: (p.r - 1) as usize, c: p.c };
        assert(p.moved(Direction::Up) == Some(q));
        assert(q.precedes(p));
        assert(g.flagged(st.visited@, q));
        assert(g.is_candidate(st.visited@, p, st.depth_count, Direction::Up));
    }
}

/// What a step does to the grid: it only takes walls away between cells of
/// the grid, and it keeps walls recorded alike on both sides.
pub proof fn lemma_step_grid(
    g: Grid,
    st: Carving,
    max_depth: usize,
    pick: usize,
    g2: Grid,
    st2: Carving,
)
    requires
        st.wf(g),
        g.candidates(st.visited@, st.pos, st.depth_count).len() == 0 || pick < g.candidates(
            st.visited@,
            st.pos,
            st.depth_count,
        ).len(),
        carve_steps_to(g, st, max_depth, pick, g2, st2),
    ensures
        g2.wf(),
        g2.carved_from(g),
        g.symmetric() ==> g2.symmetric(),
{
    let dirs = g.candidates(st.visited@, st.pos, st.depth_count);
    lemma_candidates(g, st.visited@, st.pos, st.depth_count);
    if dirs.len() == 0 {
        lemma_carved_from_chain(g, g, g);
    } else {
        let dir = dirs[pick as int];
        assert(g.is_candidate(st.visited@, st.pos, st.depth_count, dir));
        lemma_with_passage(g, st.pos, dir);
        if g.symmetric() {
            lemma_with_passage_symmetric(g, st.pos, dir);
        }
    }
}

/// After a step, every cell that the carving has been to is connected to the
/// top left corner.
pub proof fn lemma_step_keeps_visited_connected(
    g: Grid,
    st: Carving,
    max_depth: usize,
    pick: usize,
    g2: Grid,
    st2: Carving,
    p: Position,
)
    requires
        st.sound(g),
        g.candidates(st.visited@, st.pos, st.depth_count).len() == 0 || pick < g.candidates(
            st.visited@,
            st.pos,
            st.depth_count,
        ).len(),
        carve_steps_to(g, st, max_depth, pick, g2, st2),
        g2.valid(p),
        g2.flagged(st2.visited@, p),
    ensures
        g2.connected(Set::full(), origin(), p),
{
    let full = Set::<Position>::full();
    let dirs = g.candidates(st.visited@, st.pos, st.depth_count);
    lemma_step_grid(g, st, max_depth, pick, g2, st2);
    lemma_candidates(g, st.visited@, st.pos, st.depth_count);
    lemma_flag_one(g, st.visited@, st.pos, p);
    assert(g2.index(p) == g.index(p));
    if g.flagged(st.visited@, p) {
        lemma_connected_monotone(g, g2, full, full, origin(), p);
    } else {
        assert(p == st.pos);
        if st.depth_count > 0 {
            lemma_connected_monotone(g, g2, full, full, origin(), p);
        } else if p == origin() {
            lemma_connected_reflexive(g2, full, p);
        } else {
            lemma_fresh_start_has_candidate(g, st);
            let dir = dirs[pick as int];
            assert(g.is_candidate(st.visited@, st.pos, st.depth_count, dir));
            let q = p.moved(dir).unwrap();
            assert(g.flagged(st.visited@, q));
            lemma_connected_monotone(g, g2, full, full, origin(), q);
            lemma_with_passage(g, p, dir);
            lemma_joined_symmetric(g2, p, q);
            lemma_connected_extend(g2, full, origin(), q, p);
        }
    }
}

/// A step keeps the carving sound and brings it closer to its end.
pub proof fn lemma_step_sound(
    g: Grid,
    st: Carving,
    max_depth: usize,
    pick: usize,
    g2: Grid,
    st2: Carving,
)
    requires
        st.sound(g),
        g.candidates(st.visited@, st.pos, st.depth_count).len() == 0 || pick < g.candidates(
            st.visited@,
            st.pos,
            st.depth_count,
        ).len(),
        carve_steps_to(g, st, max_depth, pick, g2, st2),
    ensures
        st2.sound(g2),
        !st.done() ==> st2.remaining(g2) < st.remaining(g),
{
    let full = Set::<Position>::full();
    let dirs = g.candidates(st.visited@, st.pos, st.depth_count);
    let visited = st.visited@.update(g.index(st.pos), true);
    lemma_step_grid(g, st, max_depth, pick, g2, st2);
    lemma_candidates(g, st.visited@, st.pos, st.depth_count);
    lemma_index_in_range(g, st.pos);
    lemma_flag_one(g, st.visited@, st.pos, st.pos);
    lemma_count_set_bounds(st.visited@);
    lemma_count_set_bounds(visited);
    lemma_count_set_cells(g2, visited);
    if !g.flagged(st.visited@, st.pos) {
        lemma_count_set_update(st.visited@, g.index(st.pos));
    } else {
        assert(visited =~= st.visited@);
    }
    let moves_on = dirs.len() > 0 && st.depth_count < max_depth;
    if dirs.len() > 0 {
        let dir = dirs[pick as int];
        let q = st.pos.moved(dir).unwrap();
        assert(g.is_candidate(st.visited@, st.pos, st.depth_count, dir));
        lemma_moves_distinct(st.pos, dir, dir);
        lemma_flag_one(g, st.visited@, st.pos, q);
        lemma_with_passage(g, st.pos, dir);
        if moves_on {
            assert(st2.pos == q);
            assert(g2.index(q) == g.index(q));
            if st.depth_count == 0 {
                lemma_connected_monotone(g, g2, full, full, origin(), q);
            } else {
                lemma_connected_monotone(g, g2, full, full, origin(), st.pos);
                lemma_connected_extend(g2, full, origin(), st.pos, q);
                assert(!g2.flagged(st2.visited@, q));
            }
        }
    }
    if !moves_on {
        assert(st2.depth_count == 0);
        assert(g2.index(st.pos) == g.index(st.pos));
    }
    assert(g2.valid(st2.pos));
    assert forall|p: Position| g2.valid(p) && #[trigger] g2.flagged(st2.visited@, p) implies g2.connected(
        full,
        origin(),
        p,
    ) by {
        lemma_step_keeps_visited_connected(g, st, max_depth, pick, g2, st2, p);
    }
}

/// The course of a carving grows by one more step.
pub proof fn lemma_run_goes_on(
    g: Grid,
    max_depth: usize,
    run: Seq<Stage>,
    picks: Seq<usize>,
    next: Stage,
    pick: usize,
)
    requires
        is_run(g, max_depth, run, picks),
        is_step(run.push(next), picks.push(pick), max_depth, picks.len() as int),
    ensures
        is_run(g, max_depth, run.push(next), picks.push(pick)),
{
    let longer = run.push(next);
    let more = picks.push(pick);
    assert forall|i: int| 0 <= i < more.len() implies #[trigger] is_step(
        longer,
        more,
        max_depth,
        i,
    ) by {
        if i < picks.len() {
            assert(is_step(run, picks, max_depth, i));
            assert(longer[i] == run[i]);
            assert(longer[i + 1] == run[i + 1]);
            assert(more[i] == picks[i]);
        }
    }
}

/// A carving that has not begun is sound.
pub proof fn lemma_start_sound(g: Grid, st: Carving)
    requires
        g.wf(),
        at_start(g, st),
    ensures
        st.sound(g),
{
    lemma_count_set_bounds(st.visited@);
    assert forall|p: Position| g.valid(p) implies !#[trigger] g.flagged(st.visited@, p) by {
        lemma_index_in_range(g, p);
    }
}

/// Every stage in the course of a carving is sound, and its grid came out of
/// the first one by taking walls away.
pub proof fn lemma_run_sound(
    g: Grid,
    max_depth: usize,
    run: Seq<Stage>,
    picks: Seq<usize>,
    i: int,
)
    requires
        g.wf(),
        is_run(g, max_depth, run, picks),
        0 <= i < run.len(),
    ensures
        run[i].st.sound(run[i].grid),
        run[i].grid.carved_from(g),
        g.symmetric() ==> run[i].grid.symmetric(),
    decreases i,
{
    if i == 0 {
        lemma_start_sound(g, run[0].st);
        lemma_carved_from_chain(g, g, g);
    } else {
        lemma_run_sound(g, max_depth, run, picks, i - 1);
        assert(is_step(run, picks, max_depth, i - 1));
        let from = run[i - 1];
        lemma_step_grid(from.grid, from.st, max_depth, picks[i - 1], run[i].grid, run[i].st);
        lemma_step_sound(from.grid, from.st, max_depth, picks[i - 1], run[i].grid, run[i].st);
        lemma_carved_from_chain(g, from.grid, run[i].grid);
    }
}

/// Whatever a carving ends in, by whatever choice of directions: every cell
/// can be reached from every other one, only walls between cells of the grid
/// have gone, and walls that were recorded alike on both sides still are.
pub proof fn lemma_carved_is_connected(g: Grid, max_depth: usize, result: Grid)
    requires
        g.wf(),
        carved_by_steps(g, max_depth, result),
    ensures
        result.fully_connected(),
        result.carved_from(g),
        g.symmetric() ==> result.symmetric(),
{
    let (run, picks) = choose|run: Seq<Stage>, picks: Seq<usize>| #[trigger]
        is_run(g, max_depth, run, picks) && run.last().grid == result && run.last().st.done();
    lemma_run_sound(g, max_depth, run, picks, run.len() - 1);
    lemma_done_is_connected(result, run.last().st);
}

/// Once the carving has been to every cell, the grid is fully connected.
pub proof fn lemma_done_is_connected(g: Grid, st: Carving)
    requires
        st.sound(g),
        st.done(),
    ensures
        g.fully_connected(),
{
    let full = Set::<Position>::full();
    lemma_count_set_cells(g, st.visited@);
    assert forall|a: Position, b: Position| g.valid(a) && g.valid(b) implies #[trigger] g.connected(
        full,
        a,
        b,
    ) by {
        assert(g.flagged(st.visited@, a));
        assert(g.flagged(st.visited@, b));
        lemma_route_backwards(g, full, origin(), a);
        lemma_connected_transitive(g, full, a, origin(), b);
    }
}

/// A number below `n`, left to chance.
///
/// Calls `rand::Rng::gen_range` with the range `0..n` on the generator that
/// `rand::thread_rng` hands out. That function draws from the half-open
/// range it is given, so the result lies below `n`; it panics on an empty
/// range, which `n > 0` rules out. Nothing else is claimed of the result:
/// two calls may differ. This is taken on trust, not proved. The generator
/// itself gives up where the system has no randomness to seed it with.
#[verifier::external_body]
fn random_index(n: usize) -> (k: usize)
    requires
        n > 0,
    ensures
        k < n,
{
    rand::thread_rng().gen_range(0..n)
}

impl Carving {
    /// The carving before its first step: it has been nowhere and stands in
    /// the top left corner, at a fresh start.
    pub fn start(maze: &Maze) -> (st: Carving)
        requires
            maze.wf(),
        ensures
            st.sound(maze@),
            st.visited@ == Seq::new(maze@.cells.len(), |i: int| false),
            st.visited_count == 0,
            st.pos == origin(),
            st.depth_count == 0,
    {
        let visited = no_flags(maze.cells.len());
        let st = Carving { visited, visited_count: 0, pos: Position { r: 0, c: 0 }, depth_count: 0 };
        proof {
            lemma_start_sound(maze@, st);
        }
        st
    }

    /// Whether the carving has been to every cell.
    pub fn is_done(&self) -> (res: bool)
        ensures
            res == self.done(),
    {
        self.visited_count == self.visited.len()
    }
}

impl Maze {
    /// Whether a carving step from `p` may go in `dir`.
    pub fn is_candidate(
        &self,
        p: Position,
        visited: &Vec<bool>,
        depth_count: usize,
        dir: Direction,
    ) -> (res: bool)
        requires
            self.wf(),
            visited@.len() == self.cells@.len(),
            self@.valid(p),
        ensures
            res == self@.is_candidate(visited@, p, depth_count, dir),
    {
        match p.apply_move(dir) {
            Some(new_pos) => {
                if depth_count == 0 {
                    self.is_position_valid(new_pos) && visited[self.index(new_pos)]
                } else {
                    self.is_position_valid(new_pos) && !visited[self.index(new_pos)]
                }
            },
            None => false,
        }
    }

    /// The directions in which a carving step from `p` may go, in the order
    /// up, down, left, right.
    pub fn neighbor_dirs(&self, p: Position, visited: &Vec<bool>, depth_count: usize) -> (dirs: Vec<
        Direction,
    >)
        requires
            self.wf(),
            visited@.len() == self.cells@.len(),
            self@.valid(p),
        ensures
            dirs@ == self@.candidates(visited@, p, depth_count),
    {
        let mut dirs: Vec<Direction> = Vec::new();
        if self.is_candidate(p, visited, depth_count, Direction::Up) {
            dirs.push(Direction::Up);
        }
        if self.is_candidate(p, visited, depth_count, Direction::Down) {
            dirs.push(Direction::Down);
        }
        if self.is_candidate(p, visited, depth_count, Direction::Left) {
            dirs.push(Direction::Left);
        }
        if self.is_candidate(p, visited, depth_count, Direction::Right) {
            dirs.push(Direction::Right);
        }
        assert(dirs@ =~= self@.candidates(visited@, p, depth_count));
        dirs
    }

    /// The first cell that has no flag in `visited`, reading row by row and
    /// each row from left to right; `None` if every cell has one.
    pub fn first_unvisited(&self, visited: &Vec<bool>) -> (res: Option<Position>)
        requires
            self.wf(),
            visited@.len() == self.cells@.len(),
        ensures
            match res {
                Some(p) => self@.is_first_unflagged(visited@, p),
                None => self@.all_flagged(visited@),
            },
    {
        let mut i: usize = 0;
        while i < self.m
            invariant
                self.wf(),
                visited@.len() == self.cells@.len(),
                i <= self.m,
                forall|q: Position|
                    self@.valid(q) && q.r < i ==> #[trigger] self@.flagged(visited@, q),
            decreases self.m - i,
        {
            let mut j: usize = 0;
            while j < self.n
                invariant
                    self.wf(),
                    visited@.len() == self.cells@.len(),
                    i < self.m,
                    j <= self.n,
                    forall|q: Position|
                        self@.valid(q) && q.r < i ==> #[trigger] self@.flagged(visited@, q),
                    forall|q: Position|
                        self@.valid(q) && q.r == i && q.c < j ==> #[trigger] self@.flagged(
                            visited@,
                            q,
                        ),
                decreases self.n - j,
            {
                let p = Position { r: i, c: j };
                if !visited[self.index(p)] {
                    return Some(p);
                }
                j += 1;
            }
            i += 1;
        }
        None
    }

    /// One step of the carving, where `pick` says which of the directions
    /// that [`Maze::neighbor_dirs`] lists for the present cell is taken.
    /// `pick` is not looked at where the list is empty.
    pub fn carve_step(&mut self, st: &mut Carving, max_depth: usize, pick: usize)
        requires
            old(st).wf(old(self)@),
            old(self)@.candidates(old(st).visited@, old(st).pos, old(st).depth_count).len() == 0
                || pick < old(self)@.candidates(
                old(st).visited@,
                old(st).pos,
                old(st).depth_count,
            ).len(),
        ensures
            final(self).m == old(self).m,
            final(self).n == old(self).n,
            final(st).wf(final(self)@),
            carve_steps_to(old(self)@, *old(st), max_depth, pick, final(self)@, *final(st)),
    {
        let ghost g = self@;
        let ghost before = st.visited@;
        let here = st.pos;
        let i = self.index(here);
        proof {
            lemma_count_set_bounds(before);
            lemma_candidates_ignore_own_flag(g, before, here, st.depth_count);
            lemma_candidates(g, before, here, st.depth_count);
        }
        if !st.visited[i] {
            proof {
                lemma_count_set_update(before, i as int);
            }
            st.visited_count += 1;
        }
        st.visited.set(i, true);
        assert(st.visited@ =~= before.update(i as int, true));
        assert(st.visited_count == count_set(st.visited@)) by {
            if before[i as int] {
                assert(st.visited@ =~= before);
            }
        }
        let dirs = self.neighbor_dirs(here, &st.visited, st.depth_count);
        let mut moves_on = false;
        if dirs.len() > 0 {
            let dir = dirs[pick];
            assert(g.is_candidate(before, here, st.depth_count, dir));
            st.pos = self.open_passage(here, dir);
            if st.depth_count < max_depth {
                st.depth_count += 1;
                moves_on = true;
            }
        }
        if !moves_on {
            st.depth_count = 0;
            match self.first_unvisited(&st.visited) {
                Some(p) => {
                    st.pos = p;
                },
                None => {},
            }
        }
    }

    /// Randomizes the maze with passages: takes walls away until every cell
    /// can be reached from every other one.
    ///
    /// `max_depth` bounds how many steps an excursion takes before the
    /// carving starts afresh; with zero every step is a fresh start. Walls
    /// are only ever taken away, on both sides at once and never on the
    /// outer border; marks are left alone. The maze that comes out is one
    /// that [`Maze::carve_step`] reaches from a fresh [`Carving`], step by
    /// step; chance decides the direction of each step.
    pub fn cut_up_maze(&mut self, max_depth: usize)
        requires
            old(self).wf(),
        ensures
            final(self).m == old(self).m,
            final(self).n == old(self).n,
            final(self).wf(),
            final(self)@.fully_connected(),
            final(self)@.carved_from(old(self)@),
            old(self)@.symmetric() ==> final(self)@.symmetric(),
            carved_by_steps(old(self)@, max_depth, final(self)@),
    {
        let mut st = Carving::start(self);
        let ghost mut run: Seq<Stage> = seq![Stage { grid: self@, st: st }];
        let ghost mut picks: Seq<usize> = Seq::empty();
        proof {
            lemma_carved_from_chain(self@, self@, self@);
        }
        while !st.is_done()
            invariant
                self.m == old(self).m,
                self.n == old(self).n,
                st.sound(self@),
                self@.carved_from(old(self)@),
                old(self)@.symmetric() ==> self@.symmetric(),
                is_run(old(self)@, max_depth, run, picks),
                run.last().grid == self@,
                run.last().st == st,
            decreases st.remaining(self@),
        {
            let ghost g = self@;
            let ghost prev = st;
            let dirs = self.neighbor_dirs(st.pos, &st.visited, st.depth_count);
            let pick = if dirs.len() > 0 {
                random_index(dirs.len())
            } else {
                0
            };
            self.carve_step(&mut st, max_depth, pick);
            proof {
                lemma_step_grid(g, prev, max_depth, pick, self@, st);
                lemma_step_sound(g, prev, max_depth, pick, self@, st);
                lemma_carved_from_chain(old(self)@, g, self@);
                lemma_count_set_bounds(prev.visited@);
                lemma_count_set_bounds(st.visited@);
                lemma_run_goes_on(old(self)@, max_depth, run, picks, Stage { grid: self@, st: st }, pick);
                run = run.push(Stage { grid: self@, st: st });
                picks = picks.push(pick);
            }
        }
        proof {
            lemma_done_is_connected(self@, st);
        }
    }
}

} // verus!
