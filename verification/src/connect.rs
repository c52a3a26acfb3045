//! Deciding whether two cells are connected through marked cells.
//!
//! The search goes outwards from the start, nearest cells first. It keeps a
//! queue of the cells it has reached and a flag per cell that says so. A cell
//! is reached from a cell of the queue when the two are joined by an open
//! passage and the new cell is marked.

use vstd::prelude::*;
use crate::flags::{count_set, no_flags, lemma_count_set_bounds, lemma_count_set_update, lemma_flag_one};
use crate::grid::{Grid, lemma_connected_extend, lemma_connected_reflexive, lemma_index_in_range};
use crate::maze::Maze;
use crate::position::{Direction, Position};

verus! {

/// `p` is among the first `k` entries of `path`.
pub open spec fn listed(path: Seq<Position>, k: int, p: Position) -> bool {
    exists|j: int| 0 <= j < k && #[trigger] path[j] == p
}

/// What the search knows at any moment.
///
/// * There is one flag per cell, and the queue holds exactly the cells whose
///   flag is set, each once.
/// * Every cell of the queue is connected to the start.
/// * The goal has not been reached.
pub open spec fn searching(
    g: Grid,
    marked: Set<Position>,
    start: Position,
    stop: Position,
    seen: Seq<bool>,
    queue: Seq<Position>,
) -> bool {
    &&& g.wf()
    &&& seen.len() == g.cells.len()
    &&& queue.len() == count_set(seen)
    &&& forall|k: int|
        0 <= k < queue.len() ==> g.valid(#[trigger] queue[k]) && g.flagged(seen, queue[k])
    &&& forall|p: Position|
        g.valid(p) && #[trigger] g.flagged(seen, p) ==> queue.contains(p) && g.connected(
            marked,
            start,
            p,
        )
    &&& g.valid(stop) ==> !g.flagged(seen, stop)
}

/// The search has looked at every way out of the first `head` cells of the
/// queue: each marked cell that one of them is joined to has been reached.
pub open spec fn expanded(
    g: Grid,
    marked: Set<Position>,
    seen: Seq<bool>,
    queue: Seq<Position>,
    head: int,
) -> bool {
    forall|k: int, b: Position|
        0 <= k < head && #[trigger] g.joined(queue[k], b) && marked.contains(b) ==> g.flagged(
            seen,
            b,
        )
}

/// The search has only gone forward between two moments: the queue has
/// grown at its end, and no flag has been taken back.
pub open spec fn grown(
    g: Grid,
    seen0: Seq<bool>,
    queue0: Seq<Position>,
    seen1: Seq<bool>,
    queue1: Seq<Position>,
) -> bool {
    &&& queue0.len() <= queue1.len()
    &&& forall|k: int| 0 <= k < queue0.len() ==> #[trigger] queue1[k] == queue0[k]
    &&& forall|p: Position| g.valid(p) && #[trigger] g.flagged(seen0, p) ==> g.flagged(seen1, p)
}

/// Going forward twice is going forward.
pub proof fn lemma_grown_twice(
    g: Grid,
    seen0: Seq<bool>,
    queue0: Seq<Position>,
    seen1: Seq<bool>,
    queue1: Seq<Position>,
    seen2: Seq<bool>,
    queue2: Seq<Position>,
)
    requires
        grown(g, seen0, queue0, seen1, queue1),
        grown(g, seen1, queue1, seen2, queue2),
    ensures
        grown(g, seen0, queue0, seen2, queue2),
{
    assert forall|k: int| 0 <= k < queue0.len() implies #[trigger] queue2[k] == queue0[k] by {
        assert(queue1[k] == queue0[k]);
    }
    assert forall|p: Position| g.valid(p) && #[trigger] g.flagged(seen0, p) implies g.flagged(
        seen2,
        p,
    ) by {
        assert(g.flagged(seen1, p));
    }
}

/// Going forward keeps what has been looked at.
pub proof fn lemma_grown_keeps_expanded(
    g: Grid,
    marked: Set<Position>,
    seen0: Seq<bool>,
    queue0: Seq<Position>,
    seen1: Seq<bool>,
    queue1: Seq<Position>,
    head: int,
)
    requires
        grown(g, seen0, queue0, seen1, queue1),
        expanded(g, marked, seen0, queue0, head),
        head <= queue0.len(),
    ensures
        expanded(g, marked, seen1, queue1, head),
{
    assert forall|k: int, b: Position|
        0 <= k < head && #[trigger] g.joined(queue1[k], b) && marked.contains(b) implies g.flagged(
        seen1,
        b,
    ) by {
        assert(queue1[k] == queue0[k]);
        assert(g.joined(queue0[k], b));
        assert(g.flagged(seen0, b));
    }
}

/// A route that sets out from a cell outside the grid goes nowhere.
pub proof fn lemma_no_route_from_outside(
    g: Grid,
    marked: Set<Position>,
    start: Position,
    stop: Position,
)
    requires
        !g.valid(start) || !g.valid(stop),
        start != stop,
    ensures
        !g.connected(marked, start, stop),
{
    if g.connected(marked, start, stop) {
        let route = choose|route: Seq<Position>| #[trigger]
            g.is_route(marked, route) && route[0] == start && route.last() == stop;
        assert(route.len() > 1);
        assert(g.hop(marked, route, 0));
        assert(g.hop(marked, route, route.len() - 2));
    }
}

/// Once the search has looked at every way out of every cell it has
/// reached, it has reached every cell of every route from the start.
pub proof fn lemma_route_reached(
    g: Grid,
    marked: Set<Position>,
    start: Position,
    stop: Position,
    seen: Seq<bool>,
    queue: Seq<Position>,
    route: Seq<Position>,
    i: int,
)
    requires
        searching(g, marked, start, stop, seen, queue),
        expanded(g, marked, seen, queue, queue.len() as int),
        g.valid(start),
        g.flagged(seen, start),
        g.is_route(marked, route),
        route[0] == start,
        0 <= i < route.len(),
    ensures
        g.valid(route[i]),
        g.flagged(seen, route[i]),
    decreases i,
{
    if i > 0 {
        lemma_route_reached(g, marked, start, stop, seen, queue, route, i - 1);
        let a = route[i - 1];
        assert(g.hop(marked, route, i - 1));
        assert(queue.contains(a));
        let k = choose|k: int| 0 <= k < queue.len() && queue[k] == a;
        assert(g.joined(queue[k], route[i]));
    }
}

/// A search that has run dry without reaching the goal shows that no route
/// leads there.
pub proof fn lemma_search_exhausted(
    g: Grid,
    marked: Set<Position>,
    start: Position,
    stop: Position,
    seen: Seq<bool>,
    queue: Seq<Position>,
)
    requires
        searching(g, marked, start, stop, seen, queue),
        expanded(g, marked, seen, queue, queue.len() as int),
        g.valid(start),
        g.flagged(seen, start),
    ensures
        !g.connected(marked, start, stop),
{
    if g.connected(marked, start, stop) {
        let route = choose|route: Seq<Position>| #[trigger]
            g.is_route(marked, route) && route[0] == start && route.last() == stop;
        lemma_route_reached(g, marked, start, stop, seen, queue, route, route.len() - 1);
    }
}

impl Maze {
    /// One flag per cell that says whether `path` names the cell. Entries of
    /// `path` that lie outside the maze name no cell.
    pub fn mark_cells(&self, path: &Vec<Position>) -> (marked: Vec<bool>)
        requires
            self.wf(),
        ensures
            marked@.len() == self.cells@.len(),
            forall|p: Position|
                self@.valid(p) ==> #[trigger] self@.flagged(marked@, p) == path@.contains(p),
    {
        let mut marked = no_flags(self.cells.len());
        proof {
            assert forall|p: Position| self@.valid(p) implies #[trigger] self@.flagged(marked@, p)
                == listed(path@, 0, p) by {
                lemma_index_in_range(self@, p);
            }
        }
        let mut k: usize = 0;
        while k < path.len()
            invariant
                self.wf(),
                k <= path@.len(),
                marked@.len() == self.cells@.len(),
                forall|p: Position|
                    self@.valid(p) ==> #[trigger] self@.flagged(marked@, p) == listed(
                        path@,
                        k as int,
                        p,
                    ),
            decreases path@.len() - k,
        {
            let entry = path[k];
            let ghost before = marked@;
            if self.is_position_valid(entry) {
                let i = self.index(entry);
                marked.set(i, true);
            }
            proof {
                assert forall|p: Position| self@.valid(p) implies #[trigger] self@.flagged(
                    marked@,
                    p,
                ) == listed(path@, k + 1, p) by {
                    if self@.valid(entry) {
                        lemma_flag_one(self@, before, entry, p);
                    }
                    assert(self@.flagged(before, p) == listed(path@, k as int, p));
                    if listed(path@, k as int, p) {
                        let j = choose|j: int| 0 <= j < k && #[trigger] path@[j] == p;
                        assert(path@[j] == p);
                    }
                    if p == entry {
                        assert(path@[k as int] == p);
                    }
                    if listed(path@, k + 1, p) {
                        let j = choose|j: int| 0 <= j < k + 1 && #[trigger] path@[j] == p;
                        if j < k {
                            assert(listed(path@, k as int, p));
                        }
                    }
                }
            }
            k += 1;
        }
        proof {
            assert forall|p: Position| self@.valid(p) implies #[trigger] self@.flagged(marked@, p)
                == path@.contains(p) by {
                assert(self@.flagged(marked@, p) == listed(path@, path@.len() as int, p));
                if path@.contains(p) {
                    let j = choose|j: int| 0 <= j < path@.len() && path@[j] == p;
                    assert(path@[j] == p);
                }
            }
        }
        marked
    }

    /// Looks from the reached cell `p` in `dir`: if a passage leads to a
    /// marked cell that has not been reached, that cell is reached now.
    /// Returns whether it is the goal.
    fn look(
        &self,
        p: Position,
        dir: Direction,
        start: Position,
        stop: Position,
        marked: &Vec<bool>,
        seen: &mut Vec<bool>,
        queue: &mut Vec<Position>,
        Ghost(set): Ghost<Set<Position>>,
    ) -> (found: bool)
        requires
            searching(self@, set, start, stop, old(seen)@, old(queue)@),
            marked@.len() == self.cells@.len(),
            forall|q: Position|
                self@.valid(q) ==> #[trigger] self@.flagged(marked@, q) == set.contains(q),
            self@.valid(p),
            self@.flagged(old(seen)@, p),
        ensures
            found ==> self@.connected(set, start, stop),
            !found ==> searching(self@, set, start, stop, final(seen)@, final(queue)@),
            !found ==> grown(self@, old(seen)@, old(queue)@, final(seen)@, final(queue)@),
            !found ==> forall|b: Position|
                #[trigger] self@.passage(p, dir, b) && set.contains(b) ==> self@.flagged(
                    final(seen)@,
                    b,
                ),
    {
        let ghost g = self@;
        let ghost seen0 = seen@;
        let ghost queue0 = queue@;
        match p.apply_move(dir) {
            Some(q) => {
                if self.is_position_valid(q) {
                    let j = self.index(q);
                    assert(g.flagged(marked@, q) == set.contains(q));
                    if marked[j] && !seen[j] && self.is_open(p, dir) {
                        proof {
                            assert(g.flagged(marked@, q));
                            assert(g.passage(p, dir, q));
                            assert(g.joined(p, q));
                            lemma_connected_extend(g, set, start, p, q);
                        }
                        if q == stop {
                            return true;
                        }
                        seen.set(j, true);
                        queue.push(q);
                        proof {
                            lemma_count_set_update(seen0, j as int);
                            assert forall|x: Position|
                                g.valid(x) && #[trigger] g.flagged(seen@, x) implies queue@.contains(
                                x,
                            ) && g.connected(set, start, x) by {
                                lemma_flag_one(g, seen0, q, x);
                                if x == q {
                                    assert(queue@[queue0.len() as int] == x);
                                } else {
                                    assert(g.flagged(seen0, x));
                                    let k = choose|k: int| 0 <= k < queue0.len() && queue0[k] == x;
                                    assert(queue@[k] == x);
                                }
                            }
                            assert forall|x: Position|
                                g.valid(x) && #[trigger] g.flagged(seen0, x) implies g.flagged(
                                seen@,
                                x,
                            ) by {
                                lemma_flag_one(g, seen0, q, x);
                            }
                            if g.valid(stop) {
                                lemma_flag_one(g, seen0, q, stop);
                            }
                            lemma_flag_one(g, seen0, q, q);
                            assert forall|k: int| 0 <= k < queue@.len() implies g.valid(
                                #[trigger] queue@[k],
                            ) && g.flagged(seen@, queue@[k]) by {
                                if k < queue0.len() {
                                    assert(queue@[k] == queue0[k]);
                                    lemma_flag_one(g, seen0, q, queue0[k]);
                                }
                            }
                        }
                    }
                }
            },
            None => {},
        }
        false
    }

    /// Whether a route leads from `start` to `stop` through open passages,
    /// arriving with each step at a cell that `path` names. `start` itself
    /// need not be named, and a cell is always connected to itself.
    pub fn is_connected(&self, start: Position, stop: Position, path: &Vec<Position>) -> (res: bool)
        requires
            self.wf(),
        ensures
            res == self@.connected(path@.to_set(), start, stop),
            start == stop ==> res,
    {
        let ghost g = self@;
        let ghost set = path@.to_set();
        if start == stop {
            proof {
                lemma_connected_reflexive(g, set, start);
            }
            return true;
        }
        if !self.is_position_valid(start) || !self.is_position_valid(stop) {
            proof {
                lemma_no_route_from_outside(g, set, start, stop);
            }
            return false;
        }
        let marked = self.mark_cells(path);
        let mut seen = no_flags(self.cells.len());
        let mut queue: Vec<Position> = Vec::new();
        let first = self.index(start);
        proof {
            lemma_count_set_update(seen@, first as int);
            lemma_connected_reflexive(g, set, start);
        }
        let ghost none = seen@;
        seen.set(first, true);
        queue.push(start);
        proof {
            assert forall|p: Position| g.valid(p) && #[trigger] g.flagged(seen@, p) implies queue@.contains(
                p,
            ) && g.connected(set, start, p) by {
                lemma_flag_one(g, none, start, p);
                lemma_index_in_range(g, p);
                assert(queue@[0] == start);
            }
            lemma_flag_one(g, none, start, stop);
            lemma_flag_one(g, none, start, start);
            lemma_index_in_range(g, stop);
            assert(queue@[0] == start);
        }
        let mut head: usize = 0;
        while head < queue.len()
            invariant
                g == self@,
                set == path@.to_set(),
                self.wf(),
                g.valid(start),
                g.flagged(seen@, start),
                marked@.len() == self.cells@.len(),
                forall|q: Position|
                    g.valid(q) ==> #[trigger] g.flagged(marked@, q) == set.contains(q),
                searching(g, set, start, stop, seen@, queue@),
                expanded(g, set, seen@, queue@, head as int),
                head <= queue@.len(),
            decreases g.cells.len() - head,
        {
            let p = queue[head];
            let ghost seen0 = seen@;
            let ghost queue0 = queue@;
            proof {
                lemma_count_set_bounds(seen@);
                assert(g.valid(queue@[head as int]));
            }
            if self.look(p, Direction::Up, start, stop, &marked, &mut seen, &mut queue, Ghost(set)) {
                return true;
            }
            let ghost seen1 = seen@;
            let ghost queue1 = queue@;
            if self.look(p, Direction::Down, start, stop, &marked, &mut seen, &mut queue, Ghost(set)) {
                return true;
            }
            let ghost seen2 = seen@;
            let ghost queue2 = queue@;
            if self.look(p, Direction::Left, start, stop, &marked, &mut seen, &mut queue, Ghost(set)) {
                return true;
            }
            let ghost seen3 = seen@;
            let ghost queue3 = queue@;
            if self.look(p, Direction::Right, start, stop, &marked, &mut seen, &mut queue, Ghost(set)) {
                return true;
            }
            proof {
                lemma_grown_twice(g, seen2, queue2, seen3, queue3, seen@, queue@);
                lemma_grown_twice(g, seen1, queue1, seen2, queue2, seen@, queue@);
                lemma_grown_twice(g, seen0, queue0, seen1, queue1, seen@, queue@);
                lemma_grown_keeps_expanded(g, set, seen0, queue0, seen@, queue@, head as int);
                assert(queue@[head as int] == p);
                assert forall|k: int, b: Position|
                    0 <= k < head + 1 && #[trigger] g.joined(queue@[k], b) && set.contains(
                        b,
                    ) implies g.flagged(seen@, b) by {
                    if k == head {
                        if g.passage(p, Direction::Up, b) {
                            assert(g.flagged(seen1, b));
                        } else if g.passage(p, Direction::Down, b) {
                            assert(g.flagged(seen2, b));
                        } else if g.passage(p, Direction::Left, b) {
                            assert(g.flagged(seen3, b));
                        } else {
                            assert(g.passage(p, Direction::Right, b));
                        }
                    }
                }
                lemma_count_set_bounds(seen@);
            }
            head += 1;
        }
        proof {
            lemma_search_exhausted(g, set, start, stop, seen@, queue@);
        }
        false
    }
}

} // verus!
