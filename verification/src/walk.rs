//! The mathematical model of routes: legal 8-directional steps, walks
//! through walkable squares, their cost, and reachability.

use vstd::prelude::*;
use crate::grid::Cell;
use crate::grid::Grid;

verus! {

/// Two cells differ by one of the eight legal king-move offsets.
pub open spec fn adjacent(a: Cell, b: Cell) -> bool {
    let dx = crate::heuristic::abs_diff(a.x as int, b.x as int);
    let dy = crate::heuristic::abs_diff(a.y as int, b.y as int);
    dx <= 1 && dy <= 1 && (dx != 0 || dy != 0)
}

/// Cost of one legal step: 10 for an axis-aligned move, 14 for a diagonal one.
pub open spec fn step_cost(a: Cell, b: Cell) -> int {
    if a.x != b.x && a.y != b.y {
        14
    } else {
        10
    }
}

/// One legal move of a walk: a king-move step onto a walkable in-bounds square.
pub open spec fn step_ok(g: Grid, a: Cell, b: Cell) -> bool {
    adjacent(a, b) && g.spec_in_bounds(b) && g.spec_walkable(b)
}

/// `w` is a walk from `s` to `d`: it starts at `s`, ends at `d`, and every
/// move is a legal step onto a walkable square. The first cell itself need
/// not be walkable.
pub open spec fn is_walk(g: Grid, s: Cell, d: Cell, w: Seq<Cell>) -> bool {
    &&& w.len() >= 1
    &&& w[0] == s
    &&& w[w.len() - 1] == d
    &&& forall|i: int| #![trigger w[i]] 0 <= i < w.len() - 1 ==> step_ok(g, w[i], w[i + 1])
}

/// Total cost of a walk: the sum of its per-step costs.
pub open spec fn walk_cost(w: Seq<Cell>) -> int
    decreases w.len(),
{
    if w.len() <= 1 {
        0
    } else {
        step_cost(w[0], w[1]) + walk_cost(w.subrange(1, w.len() as int))
    }
}

/// `d` can be reached from `s` through walkable squares.
pub open spec fn reachable(g: Grid, s: Cell, d: Cell) -> bool {
    exists|w: Seq<Cell>| is_walk(g, s, d, w)
}

/// Prepending one cell to a walk adds exactly the cost of the new first step.
pub proof fn lemma_walk_cost_prepend(p: Cell, w: Seq<Cell>)
    requires
        w.len() >= 1,
    ensures
        walk_cost(seq![p] + w) == step_cost(p, w[0]) + walk_cost(w),
{
    let pw = seq![p] + w;
    assert(pw.subrange(1, pw.len() as int) =~= w);
}

/// Any set of cells that contains the first cell of a walk and is closed
/// under legal steps contains the last cell of the walk.
pub proof fn lemma_walk_closed(g: Grid, s: Cell, d: Cell, w: Seq<Cell>, cl: spec_fn(Cell) -> bool)
    requires
        is_walk(g, s, d, w),
        cl(s),
        forall|a: Cell, b: Cell| #[trigger] cl(a) && #[trigger] step_ok(g, a, b) ==> cl(b),
    ensures
        cl(d),
    decreases w.len(),
{
    if w.len() == 1 {
        assert(d == s);
    } else {
        assert(step_ok(g, w[0], w[1]));
        let w2 = w.subrange(1, w.len() as int);
        assert(w2[0] == w[1]);
        assert(w2[w2.len() - 1] == d);
        assert forall|i: int| 0 <= i < w2.len() - 1 implies #[trigger] step_ok(g, w2[i], w2[i + 1]) by {
            assert(w2[i] == w[i + 1]);
            assert(w2[i + 1] == w[i + 2]);
            assert(step_ok(g, w[i + 1], w[i + 2]));
        }
        lemma_walk_closed(g, w[1], d, w2, cl);
    }
}

} // verus!
