//! The re-plan policy around the search engine: owns the current grid,
//! start and destination, and keeps the published route in step with them.

use vstd::prelude::*;
use crate::grid::Cell;
use crate::grid::Grid;
use crate::heuristic::Heuristic;
use crate::search::find_path_with_cost;
use crate::walk::is_walk;
use crate::walk::reachable;
use crate::walk::walk_cost;

verus! {

/// The route `p` is exactly what a search over `g` from `s` to `d` owes:
/// empty when `d` is unreachable from `s`, otherwise a legal walk from `s`
/// to `d`, a single cell when the two coincide.
pub open spec fn valid_result(g: Grid, s: Cell, d: Cell, p: Seq<Cell>) -> bool {
    &&& p.len() > 0 <==> reachable(g, s, d)
    &&& p.len() > 0 ==> is_walk(g, s, d, p)
    &&& s == d ==> p.len() == 1
}

/// Owns the current grid snapshot, start and destination, and the route
/// computed for them. Every setter re-runs the search before the new state
/// is visible, so `current_path` never returns a stale route.
pub struct Planner {
    pub grid: Grid,
    pub start: Cell,
    pub dest: Cell,
    pub heu: Heuristic,
    pub path: Vec<Cell>,
    pub cost: u64,
}

impl Planner {
    /// The published route always corresponds to the latest committed grid,
    /// start and destination.
    pub open spec fn wf(self) -> bool {
        &&& self.grid.wf()
        &&& self.grid.spec_in_bounds(self.start)
        &&& self.grid.spec_in_bounds(self.dest)
        &&& valid_result(self.grid, self.start, self.dest, self.path@)
        &&& self.path@.len() > 0 ==> walk_cost(self.path@) == self.cost
        &&& self.path@.len() == 0 ==> self.cost == 0
    }

    /// Builds a planner and computes the first route.
    pub fn new(grid: Grid, start: Cell, dest: Cell, heu: Heuristic) -> (r: Planner)
        requires
            grid.wf(),
            grid.spec_in_bounds(start),
            grid.spec_in_bounds(dest),
        ensures
            r.wf(),
            r.grid == grid,
            r.start == start,
            r.dest == dest,
            r.heu == heu,
    {
        let (path, cost) = find_path_with_cost(&grid, start, dest, heu);
        Planner { grid, start, dest, heu, path, cost }
    }

    /// Moves the start and recomputes the route before it becomes visible.
    pub fn set_start(&mut self, c: Cell)
        requires
            old(self).wf(),
            old(self).grid.spec_in_bounds(c),
        ensures
            final(self).wf(),
            final(self).start == c,
            final(self).dest == old(self).dest,
            final(self).grid == old(self).grid,
            final(self).heu == old(self).heu,
            valid_result(old(self).grid, c, old(self).dest, final(self).path@),
    {
        let (path, cost) = find_path_with_cost(&self.grid, c, self.dest, self.heu);
        self.start = c;
        self.path = path;
        self.cost = cost;
    }

    /// Moves the destination and recomputes the route before it becomes
    /// visible: the published route reflects the new destination, never the
    /// stale one.
    pub fn set_destination(&mut self, c: Cell)
        requires
            old(self).wf(),
            old(self).grid.spec_in_bounds(c),
        ensures
            final(self).wf(),
            final(self).dest == c,
            final(self).start == old(self).start,
            final(self).grid == old(self).grid,
            final(self).heu == old(self).heu,
            valid_result(old(self).grid, old(self).start, c, final(self).path@),
    {
        let (path, cost) = find_path_with_cost(&self.grid, self.start, c, self.heu);
        self.dest = c;
        self.path = path;
        self.cost = cost;
    }

    /// Replaces the grid snapshot and recomputes the route.
    pub fn set_grid(&mut self, grid: Grid)
        requires
            old(self).wf(),
            grid.wf(),
            grid.spec_in_bounds(old(self).start),
            grid.spec_in_bounds(old(self).dest),
        ensures
            final(self).wf(),
            final(self).grid == grid,
            final(self).start == old(self).start,
            final(self).dest == old(self).dest,
            final(self).heu == old(self).heu,
            valid_result(grid, old(self).start, old(self).dest, final(self).path@),
    {
        let (path, cost) = find_path_with_cost(&grid, self.start, self.dest, self.heu);
        self.grid = grid;
        self.path = path;
        self.cost = cost;
    }

    /// The route computed for the latest committed state, start to
    /// destination inclusive; empty when no route exists.
    pub fn current_path(&self) -> (r: &Vec<Cell>)
        ensures
            r@ == self.path@,
    {
        &self.path
    }

    /// The per-step cost total of the current route; zero when it is empty.
    pub fn current_cost(&self) -> (r: u64)
        ensures
            r == self.cost,
    {
        self.cost
    }
}

} // verus!
