//! The mathematical model of a maze, and what it means for cells to be
//! connected in it.
//!
//! A [`Grid`] is what the contracts of this crate speak about. It has a
//! number of rows and columns and one [`Cell`] per position, stored row by
//! row. Two neighbouring cells are *joined* when the wall between them is
//! gone on both sides, a *route* walks from cell to cell through such
//! openings, and two cells are *connected* when a route leads from one to the
//! other.

use vstd::prelude::*;
use crate::cell::{Cell, Wall};
use crate::position::{Direction, Position, lemma_move_inverse, lemma_moves_distinct};

verus! {

/// A rectangular arrangement of cells.
#[verifier::ext_equal]
pub struct Grid {
    pub rows: nat,
    pub cols: nat,
    pub cells: Seq<Cell>,
}

impl Grid {
    /// The grid has at least one cell, exactly one cell per position, and no
    /// more rows or columns than a [`Position`] can name.
    pub open spec fn wf(self) -> bool {
        &&& 0 < self.rows <= usize::MAX
        &&& 0 < self.cols <= usize::MAX
        &&& self.cells.len() == self.rows * self.cols
    }

    /// The grid of the given size in which every wall stands and no cell is
    /// marked.
    pub open spec fn closed(rows: nat, cols: nat) -> Grid {
        Grid { rows, cols, cells: Seq::new(rows * cols, |i: int| Cell::walled()) }
    }

    /// `p` lies inside the grid.
    pub open spec fn valid(self, p: Position) -> bool {
        p.r < self.rows && p.c < self.cols
    }

    /// The place of the cell at `p` in `cells`.
    pub open spec fn index(self, p: Position) -> int {
        p.r * self.cols + p.c
    }

    /// The cell at `p`.
    pub open spec fn cell(self, p: Position) -> Cell {
        self.cells[self.index(p)]
    }

    /// The wall flag of the cell at `p` on the side that faces `dir`.
    pub open spec fn wall(self, p: Position, dir: Direction) -> Wall {
        self.cell(p).side(dir)
    }

    /// The step from `p` in `dir` stays inside the grid.
    pub open spec fn has_neighbor(self, p: Position, dir: Direction) -> bool {
        self.valid(p) && p.moved(dir).is_some() && self.valid(p.moved(dir).unwrap())
    }

    /// One can walk from `a` in `dir` and arrive at `b`: both cells lie in
    /// the grid, `b` is the neighbour of `a` on that side, and the wall
    /// between them is gone in `a` and in `b`.
    pub open spec fn passage(self, a: Position, dir: Direction, b: Position) -> bool {
        &&& self.valid(a)
        &&& self.valid(b)
        &&& a.moved(dir) == Some(b)
        &&& self.wall(a, dir) == Wall::No
        &&& self.wall(b, dir.reversed()) == Wall::No
    }

    /// `a` and `b` are neighbours with an open passage between them.
    pub open spec fn joined(self, a: Position, b: Position) -> bool {
        ||| self.passage(a, Direction::Up, b)
        ||| self.passage(a, Direction::Down, b)
        ||| self.passage(a, Direction::Left, b)
        ||| self.passage(a, Direction::Right, b)
    }

    /// Step number `i` of `route` goes through an open passage and arrives
    /// at a cell of `marked`.
    pub open spec fn hop(self, marked: Set<Position>, route: Seq<Position>, i: int) -> bool {
        self.joined(route[i], route[i + 1]) && marked.contains(route[i + 1])
    }

    /// `route` is a walk through the grid: it names at least one cell, and
    /// each step goes through an open passage to a cell of `marked`. The
    /// first cell need not be in `marked`.
    pub open spec fn is_route(self, marked: Set<Position>, route: Seq<Position>) -> bool {
        &&& route.len() > 0
        &&& forall|i: int| 0 <= i < route.len() - 1 ==> #[trigger] self.hop(marked, route, i)
    }

    /// A route leads from `start` to `stop`.
    pub open spec fn connected(self, marked: Set<Position>, start: Position, stop: Position) -> bool {
        exists|route: Seq<Position>| #[trigger]
            self.is_route(marked, route) && route[0] == start && route.last() == stop
    }

    /// Every cell of the grid can be reached from every other one through
    /// open passages.
    pub open spec fn fully_connected(self) -> bool {
        forall|a: Position, b: Position|
            self.valid(a) && self.valid(b) ==> #[trigger] self.connected(Set::full(), a, b)
    }

    /// Each wall between two cells of the grid is recorded alike on both of
    /// its sides.
    pub open spec fn symmetric(self) -> bool {
        forall|p: Position, dir: Direction|
            self.has_neighbor(p, dir) ==> #[trigger] self.wall(p, dir) == self.wall(
                p.moved(dir).unwrap(),
                dir.reversed(),
            )
    }

    /// The grid in which the wall between `a` and its neighbour in `dir` has
    /// been taken away on both sides.
    pub open spec fn with_passage(self, a: Position, dir: Direction) -> Grid {
        let b = a.moved(dir).unwrap();
        Grid {
            rows: self.rows,
            cols: self.cols,
            cells: self.cells.update(self.index(a), self.cell(a).opened(dir)).update(
                self.index(b),
                self.cell(b).opened(dir.reversed()),
            ),
        }
    }

    /// `self` came out of `before` by taking walls away between cells of the
    /// grid: the size and the marks are the same, and each wall flag is
    /// either what it was or has been cleared, which happens only on a side
    /// that faces another cell of the grid.
    pub open spec fn carved_from(self, before: Grid) -> bool {
        &&& self.rows == before.rows
        &&& self.cols == before.cols
        &&& self.cells.len() == before.cells.len()
        &&& forall|p: Position|
            before.valid(p) ==> (#[trigger] self.cell(p)).clicked == before.cell(p).clicked
        &&& forall|p: Position, dir: Direction|
            before.valid(p) ==> {
                ||| #[trigger] self.wall(p, dir) == before.wall(p, dir)
                ||| self.wall(p, dir) == Wall::No && before.has_neighbor(p, dir)
            }
    }
}

/// The index of a cell of the grid is an index into `cells`.
pub proof fn lemma_index_in_range(g: Grid, p: Position)
    requires
        g.wf(),
        g.valid(p),
    ensures
        0 <= g.index(p) < g.cells.len(),
{
    let r = p.r as int;
    let c = p.c as int;
    let rows = g.rows as int;
    let cols = g.cols as int;
    assert(r * cols + c < rows * cols) by (nonlinear_arith)
        requires
            0 <= r < rows,
            0 <= c < cols,
    ;
}

/// Every index into `cells` is the index of a cell of the grid.
pub proof fn lemma_index_onto(g: Grid, i: int) -> (p: Position)
    requires
        g.wf(),
        0 <= i < g.cells.len(),
    ensures
        g.valid(p),
        g.index(p) == i,
{
    let rows = g.rows as int;
    let cols = g.cols as int;
    let r = i / cols;
    let c = i % cols;
    assert(0 <= c < cols && i == r * cols + c && 0 <= r < rows) by (nonlinear_arith)
        requires
            0 <= i < rows * cols,
            0 < cols,
            0 < rows,
            r == i / cols,
            c == i % cols,
    ;
    Position { r: r as usize, c: c as usize }
}

/// Different cells of the grid have different indices.
pub proof fn lemma_index_injective(g: Grid, p: Position, q: Position)
    requires
        g.valid(p),
        g.valid(q),
        g.index(p) == g.index(q),
    ensures
        p == q,
{
    let r1 = p.r as int;
    let c1 = p.c as int;
    let r2 = q.r as int;
    let c2 = q.c as int;
    let cols = g.cols as int;
    assert(r1 == r2 && c1 == c2) by (nonlinear_arith)
        requires
            0 <= c1 < cols,
            0 <= c2 < cols,
            0 <= r1,
            0 <= r2,
            r1 * cols + c1 == r2 * cols + c2,
    ;
}

/// The grid in which every wall stands is well formed, and its walls are
/// recorded alike on both sides.
pub proof fn lemma_closed_grid(rows: nat, cols: nat)
    requires
        0 < rows <= usize::MAX,
        0 < cols <= usize::MAX,
    ensures
        Grid::closed(rows, cols).wf(),
        Grid::closed(rows, cols).symmetric(),
        forall|p: Position|
            Grid::closed(rows, cols).valid(p) ==> #[trigger] Grid::closed(rows, cols).cell(p)
                == Cell::walled(),
{
    let g = Grid::closed(rows, cols);
    assert forall|p: Position| g.valid(p) implies #[trigger] g.cell(p) == Cell::walled() by {
        lemma_index_in_range(g, p);
    }
    assert forall|p: Position, dir: Direction| g.has_neighbor(p, dir) implies #[trigger] g.wall(
        p,
        dir,
    ) == g.wall(p.moved(dir).unwrap(), dir.reversed()) by {
        assert(g.cell(p) == Cell::walled());
        assert(g.cell(p.moved(dir).unwrap()) == Cell::walled());
    }
}

/// A passage can be walked in both directions.
pub proof fn lemma_joined_symmetric(g: Grid, a: Position, b: Position)
    requires
        g.joined(a, b),
    ensures
        g.joined(b, a),
{
    if g.passage(a, Direction::Up, b) {
        lemma_move_inverse(a, Direction::Up, b);
        assert(g.passage(b, Direction::Down, a));
    } else if g.passage(a, Direction::Down, b) {
        lemma_move_inverse(a, Direction::Down, b);
        assert(g.passage(b, Direction::Up, a));
    } else if g.passage(a, Direction::Left, b) {
        lemma_move_inverse(a, Direction::Left, b);
        assert(g.passage(b, Direction::Right, a));
    } else {
        lemma_move_inverse(a, Direction::Right, b);
        assert(g.passage(b, Direction::Left, a));
    }
}

/// Every cell is connected to itself, by the route that never leaves it,
/// whatever is marked.
pub proof fn lemma_connected_reflexive(g: Grid, marked: Set<Position>, a: Position)
    ensures
        g.connected(marked, a, a),
{
    let route = seq![a];
    assert(g.is_route(marked, route));
    assert(route[0] == a && route.last() == a);
}

/// A route can be made one step longer: if `a` is connected to `b`, and `b`
/// is joined to a marked cell `c`, then `a` is connected to `c`.
pub proof fn lemma_connected_extend(
    g: Grid,
    marked: Set<Position>,
    a: Position,
    b: Position,
    c: Position,
)
    requires
        g.connected(marked, a, b),
        g.joined(b, c),
        marked.contains(c),
    ensures
        g.connected(marked, a, c),
{
    let route = choose|route: Seq<Position>| #[trigger]
        g.is_route(marked, route) && route[0] == a && route.last() == b;
    let longer = route.push(c);
    assert forall|i: int| 0 <= i < longer.len() - 1 implies #[trigger] g.hop(marked, longer, i) by {
        if i < route.len() - 1 {
            assert(g.hop(marked, route, i));
        }
    }
    assert(g.is_route(marked, longer));
    assert(longer[0] == a && longer.last() == c);
}

/// Routes can be put end to end: connection is transitive.
pub proof fn lemma_connected_transitive(
    g: Grid,
    marked: Set<Position>,
    a: Position,
    b: Position,
    c: Position,
)
    requires
        g.connected(marked, a, b),
        g.connected(marked, b, c),
    ensures
        g.connected(marked, a, c),
{
    let first = choose|route: Seq<Position>| #[trigger]
        g.is_route(marked, route) && route[0] == a && route.last() == b;
    let second = choose|route: Seq<Position>| #[trigger]
        g.is_route(marked, route) && route[0] == b && route.last() == c;
    let whole = first + second.subrange(1, second.len() as int);
    assert forall|i: int| 0 <= i < whole.len() - 1 implies #[trigger] g.hop(marked, whole, i) by {
        if i < first.len() - 1 {
            assert(g.hop(marked, first, i));
        } else {
            let j = i - (first.len() - 1);
            assert(g.hop(marked, second, j));
            assert(whole[i] == second[j]);
            assert(whole[i + 1] == second[j + 1]);
        }
    }
    assert(g.is_route(marked, whole));
    assert(whole[0] == a && whole.last() == c);
}

/// Where both ends are marked, a route can be walked backwards: `start` is
/// connected to `stop` exactly if `stop` is connected to `start`.
pub proof fn lemma_connected_symmetric(
    g: Grid,
    marked: Set<Position>,
    start: Position,
    stop: Position,
)
    requires
        marked.contains(start),
        marked.contains(stop),
    ensures
        g.connected(marked, start, stop) == g.connected(marked, stop, start),
{
    if g.connected(marked, start, stop) {
        lemma_route_backwards(g, marked, start, stop);
    }
    if g.connected(marked, stop, start) {
        lemma_route_backwards(g, marked, stop, start);
    }
}

/// A route whose first cell is marked can be walked backwards.
pub proof fn lemma_route_backwards(g: Grid, marked: Set<Position>, a: Position, b: Position)
    requires
        marked.contains(a),
        g.connected(marked, a, b),
    ensures
        g.connected(marked, b, a),
{
    let route = choose|route: Seq<Position>| #[trigger]
        g.is_route(marked, route) && route[0] == a && route.last() == b;
    let n = route.len() as int;
    let back = Seq::new(route.len(), |i: int| route[n - 1 - i]);
    assert forall|i: int| 0 <= i < back.len() - 1 implies #[trigger] g.hop(marked, back, i) by {
        let j = n - 2 - i;
        assert(g.hop(marked, route, j));
        lemma_joined_symmetric(g, route[j], route[j + 1]);
        assert(back[i] == route[j + 1]);
        assert(back[i + 1] == route[j]);
        if j > 0 {
            assert(g.hop(marked, route, j - 1));
        }
    }
    assert(g.is_route(marked, back));
    assert(back[0] == b && back.last() == a);
}

/// Taking walls away and marking more cells keeps every connection. Marks
/// on positions outside the grid do not matter.
pub proof fn lemma_connected_monotone(
    before: Grid,
    after: Grid,
    fewer: Set<Position>,
    more: Set<Position>,
    a: Position,
    b: Position,
)
    requires
        after.carved_from(before),
        forall|p: Position| before.valid(p) && fewer.contains(p) ==> more.contains(p),
        before.connected(fewer, a, b),
    ensures
        after.connected(more, a, b),
{
    let route = choose|route: Seq<Position>| #[trigger]
        before.is_route(fewer, route) && route[0] == a && route.last() == b;
    assert forall|i: int| 0 <= i < route.len() - 1 implies #[trigger] after.hop(more, route, i) by {
        assert(before.hop(fewer, route, i));
        lemma_joined_monotone(before, after, route[i], route[i + 1]);
    }
    assert(after.is_route(more, route));
}

/// Taking walls away keeps every open passage.
pub proof fn lemma_joined_monotone(before: Grid, after: Grid, a: Position, b: Position)
    requires
        after.carved_from(before),
        before.joined(a, b),
    ensures
        after.joined(a, b),
{
    let dir = if before.passage(a, Direction::Up, b) {
        Direction::Up
    } else if before.passage(a, Direction::Down, b) {
        Direction::Down
    } else if before.passage(a, Direction::Left, b) {
        Direction::Left
    } else {
        Direction::Right
    };
    assert(before.passage(a, dir, b));
    assert(after.wall(a, dir) == Wall::No);
    assert(after.wall(b, dir.reversed()) == Wall::No);
    assert(after.passage(a, dir, b));
}

/// `carved_from` is reflexive and transitive.
pub proof fn lemma_carved_from_chain(first: Grid, second: Grid, third: Grid)
    requires
        second.carved_from(first),
        third.carved_from(second),
    ensures
        first.carved_from(first),
        third.carved_from(first),
{
    assert forall|p: Position, dir: Direction| first.valid(p) implies {
        ||| #[trigger] third.wall(p, dir) == first.wall(p, dir)
        ||| third.wall(p, dir) == Wall::No && first.has_neighbor(p, dir)
    } by {
        assert(second.wall(p, dir) == first.wall(p, dir) || (second.wall(p, dir) == Wall::No
            && first.has_neighbor(p, dir)));
    }
    assert forall|p: Position| first.valid(p) implies (#[trigger] third.cell(p)).clicked
        == first.cell(p).clicked by {
        assert(second.cell(p).clicked == first.cell(p).clicked);
    }
}

/// What a new passage changes: the two cells on its sides lose the wall
/// between them, and every other cell stays as it was.
pub proof fn lemma_with_passage_cells(g: Grid, a: Position, dir: Direction)
    requires
        g.wf(),
        g.has_neighbor(a, dir),
    ensures
        g.with_passage(a, dir).wf(),
        g.with_passage(a, dir).rows == g.rows,
        g.with_passage(a, dir).cols == g.cols,
        g.with_passage(a, dir).cell(a) == g.cell(a).opened(dir),
        g.with_passage(a, dir).cell(a.moved(dir).unwrap()) == g.cell(a.moved(dir).unwrap()).opened(
            dir.reversed(),
        ),
        forall|p: Position|
            g.valid(p) && p != a && p != a.moved(dir).unwrap() ==> #[trigger] g.with_passage(
                a,
                dir,
            ).cell(p) == g.cell(p),
{
    let b = a.moved(dir).unwrap();
    let h = g.with_passage(a, dir);
    lemma_index_in_range(g, a);
    lemma_index_in_range(g, b);
    lemma_moves_distinct(a, dir, dir);
    if g.index(a) == g.index(b) {
        lemma_index_injective(g, a, b);
    }
    assert forall|p: Position| g.valid(p) && p != a && p != b implies #[trigger] h.cell(p)
        == g.cell(p) by {
        lemma_index_in_range(g, p);
        if g.index(p) == g.index(a) {
            lemma_index_injective(g, p, a);
        }
        if g.index(p) == g.index(b) {
            lemma_index_injective(g, p, b);
        }
    }
}

/// The wall flags after a new passage: the two flags of the wall between `a`
/// and its neighbour are cleared, every other flag is what it was.
pub proof fn lemma_with_passage_walls(g: Grid, a: Position, dir: Direction, p: Position, d: Direction)
    requires
        g.wf(),
        g.has_neighbor(a, dir),
        g.valid(p),
    ensures
        g.with_passage(a, dir).wall(p, d) == if (p == a && d == dir) || (p == a.moved(dir).unwrap()
            && d == dir.reversed()) {
            Wall::No
        } else {
            g.wall(p, d)
        },
        g.with_passage(a, dir).cell(p).clicked == g.cell(p).clicked,
{
    let b = a.moved(dir).unwrap();
    let h = g.with_passage(a, dir);
    lemma_with_passage_cells(g, a, dir);
    lemma_moves_distinct(a, dir, dir);
    if p != a && p != b {
        assert(h.cell(p) == g.cell(p));
    }
}

/// A new passage joins the two cells on its sides and takes nothing else
/// away.
pub proof fn lemma_with_passage(g: Grid, a: Position, dir: Direction)
    requires
        g.wf(),
        g.has_neighbor(a, dir),
    ensures
        g.with_passage(a, dir).wf(),
        g.with_passage(a, dir).carved_from(g),
        g.with_passage(a, dir).joined(a, a.moved(dir).unwrap()),
{
    let b = a.moved(dir).unwrap();
    let h = g.with_passage(a, dir);
    lemma_with_passage_cells(g, a, dir);
    lemma_move_inverse(a, dir, b);
    lemma_with_passage_walls(g, a, dir, a, dir);
    lemma_with_passage_walls(g, a, dir, b, dir.reversed());
    assert(h.passage(a, dir, b));
    assert forall|p: Position, d: Direction| g.valid(p) implies {
        ||| #[trigger] h.wall(p, d) == g.wall(p, d)
        ||| h.wall(p, d) == Wall::No && g.has_neighbor(p, d)
    } by {
        lemma_with_passage_walls(g, a, dir, p, d);
    }
    assert forall|p: Position| g.valid(p) implies (#[trigger] h.cell(p)).clicked == g.cell(
        p,
    ).clicked by {
        lemma_with_passage_walls(g, a, dir, p, dir);
    }
}

/// A new passage keeps the walls recorded alike on both sides.
pub proof fn lemma_with_passage_symmetric(g: Grid, a: Position, dir: Direction)
    requires
        g.wf(),
        g.has_neighbor(a, dir),
        g.symmetric(),
    ensures
        g.with_passage(a, dir).symmetric(),
{
    let b = a.moved(dir).unwrap();
    let h = g.with_passage(a, dir);
    lemma_move_inverse(a, dir, b);
    assert forall|p: Position, d: Direction| h.has_neighbor(p, d) implies #[trigger] h.wall(p, d)
        == h.wall(p.moved(d).unwrap(), d.reversed()) by {
        let q = p.moved(d).unwrap();
        assert(g.has_neighbor(p, d));
        assert(g.wall(p, d) == g.wall(q, d.reversed()));
        lemma_move_inverse(p, d, q);
        lemma_with_passage_walls(g, a, dir, p, d);
        lemma_with_passage_walls(g, a, dir, q, d.reversed());
        if p == a && d == dir {
            assert(q == b);
        } else if p == b && d == dir.reversed() {
            assert(q == a);
        } else if q == a && d.reversed() == dir {
            assert(p == b);
        } else if q == b && d.reversed() == dir.reversed() {
            assert(d == dir);
            assert(p == a);
        }
    }
}

} // verus!
