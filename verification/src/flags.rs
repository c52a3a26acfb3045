//! One flag per cell, kept in a vector beside the maze, and how many of
//! them are set.

use vstd::prelude::*;
use crate::grid::{Grid, lemma_index_in_range, lemma_index_injective, lemma_index_onto};
use crate::position::Position;

verus! {

/// How many of `flags` are set.
pub open spec fn count_set(flags: Seq<bool>) -> nat
    decreases flags.len(),
{
    if flags.len() == 0 {
        0
    } else {
        count_set(flags.drop_last()) + if flags.last() {
            1nat
        } else {
            0nat
        }
    }
}

impl Grid {
    /// The flag of the cell at `p`.
    pub open spec fn flagged(self, flags: Seq<bool>, p: Position) -> bool {
        flags[self.index(p)]
    }

    /// Every cell of the grid has its flag set.
    pub open spec fn all_flagged(self, flags: Seq<bool>) -> bool {
        forall|p: Position| self.valid(p) ==> #[trigger] self.flagged(flags, p)
    }

    /// `p` is the first cell without a flag when the cells are read row by
    /// row, each row from left to right.
    pub open spec fn is_first_unflagged(self, flags: Seq<bool>, p: Position) -> bool {
        &&& self.valid(p)
        &&& !self.flagged(flags, p)
        &&& forall|q: Position| self.valid(q) && q.precedes(p) ==> #[trigger] self.flagged(flags, q)
    }
}

/// A vector of `n` flags, none of them set.
pub fn no_flags(n: usize) -> (flags: Vec<bool>)
    ensures
        flags@ == Seq::new(n as nat, |i: int| false),
        count_set(flags@) == 0,
{
    let mut flags: Vec<bool> = Vec::new();
    let mut i: usize = 0;
    while i < n
        invariant
            i <= n,
            flags@.len() == i,
            forall|k: int| 0 <= k < i ==> !flags@[k],
        decreases n - i,
    {
        flags.push(false);
        i += 1;
    }
    proof {
        lemma_count_set_bounds(flags@);
        assert(flags@ =~= Seq::new(n as nat, |i: int| false));
    }
    flags
}

/// No more flags are set than there are, and all are set exactly if the
/// count equals the length.
pub proof fn lemma_count_set_bounds(flags: Seq<bool>)
    ensures
        count_set(flags) <= flags.len(),
        count_set(flags) == flags.len() <==> (forall|i: int| 0 <= i < flags.len() ==> flags[i]),
        count_set(flags) == 0 <==> (forall|i: int| 0 <= i < flags.len() ==> !flags[i]),
    decreases flags.len(),
{
    if flags.len() > 0 {
        let front = flags.drop_last();
        lemma_count_set_bounds(front);
        assert forall|i: int| 0 <= i < front.len() implies front[i] == flags[i] by {}
        if count_set(flags) == flags.len() {
            assert forall|i: int| 0 <= i < flags.len() implies flags[i] by {
                if i < front.len() {
                    assert(front[i]);
                }
            }
        }
        if forall|i: int| 0 <= i < flags.len() ==> flags[i] {
            assert(flags.last());
            assert forall|i: int| 0 <= i < front.len() implies front[i] by {
                assert(flags[i]);
            }
        }
        if count_set(flags) == 0 {
            assert forall|i: int| 0 <= i < flags.len() implies !flags[i] by {
                if i < front.len() {
                    assert(!front[i]);
                }
            }
        }
        if forall|i: int| 0 <= i < flags.len() ==> !flags[i] {
            assert(!flags.last());
            assert forall|i: int| 0 <= i < front.len() implies !front[i] by {
                assert(!flags[i]);
            }
        }
    }
}

/// Setting a flag that was not set raises the count by one.
pub proof fn lemma_count_set_update(flags: Seq<bool>, i: int)
    requires
        0 <= i < flags.len(),
        !flags[i],
    ensures
        count_set(flags.update(i, true)) == count_set(flags) + 1,
    decreases flags.len(),
{
    let after = flags.update(i, true);
    if i == flags.len() - 1 {
        assert(after.drop_last() =~= flags.drop_last());
    } else {
        lemma_count_set_update(flags.drop_last(), i);
        assert(after.drop_last() =~= flags.drop_last().update(i, true));
    }
}

/// Where fewer flags are set than there are cells, some cell of the grid has
/// none; where as many are set as there are cells, every cell has one.
pub proof fn lemma_count_set_cells(g: Grid, flags: Seq<bool>)
    requires
        g.wf(),
        flags.len() == g.cells.len(),
    ensures
        count_set(flags) == flags.len() <==> g.all_flagged(flags),
{
    lemma_count_set_bounds(flags);
    if count_set(flags) == flags.len() {
        assert forall|p: Position| g.valid(p) implies #[trigger] g.flagged(flags, p) by {
            lemma_index_in_range(g, p);
        }
    }
    if g.all_flagged(flags) {
        assert forall|i: int| 0 <= i < flags.len() implies flags[i] by {
            let p = lemma_index_onto(g, i);
            assert(g.flagged(flags, p));
        }
    }
}

/// Setting the flag of one cell changes the flag of no other cell.
pub proof fn lemma_flag_one(g: Grid, flags: Seq<bool>, p: Position, q: Position)
    requires
        g.wf(),
        flags.len() == g.cells.len(),
        g.valid(p),
        g.valid(q),
    ensures
        g.flagged(flags.update(g.index(p), true), q) == (q == p || g.flagged(flags, q)),
{
    lemma_index_in_range(g, p);
    lemma_index_in_range(g, q);
    if g.index(p) == g.index(q) {
        lemma_index_injective(g, p, q);
    }
}

} // verus!
