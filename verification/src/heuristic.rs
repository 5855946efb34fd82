//! Cost-to-go estimates between two cells under the 10/14 step-cost model.

use vstd::prelude::*;
use crate::grid::Cell;

verus! {

/// Which estimate the search uses.
///
/// `ScaledManhattan` is the classic `10 * (|dx| + |dy|)` estimate; it
/// overestimates whenever a diagonal shortcut exists, so the search still
/// finds a route whenever one exists but need not find the cheapest one.
/// `Octile` is `10 * max(|dx|, |dy|) + 4 * min(|dx|, |dy|)`, which never
/// overestimates under the 10/14 cost model.
#[derive(Clone, Copy, PartialEq, Eq, Structural, Debug)]
pub enum Heuristic {
    ScaledManhattan,
    Octile,
}

pub open spec fn abs_diff(a: int, b: int) -> int {
    if a >= b {
        a - b
    } else {
        b - a
    }
}

/// The estimate's mathematical value.
pub open spec fn h_value(h: Heuristic, a: Cell, b: Cell) -> int {
    let dx = abs_diff(a.x as int, b.x as int);
    let dy = abs_diff(a.y as int, b.y as int);
    match h {
        Heuristic::ScaledManhattan => 10 * (dx + dy),
        Heuristic::Octile => if dx >= dy {
            10 * dx + 4 * dy
        } else {
            10 * dy + 4 * dx
        },
    }
}

/// Scaled Manhattan distance, `10 * (|dx| + |dy|)`.
pub fn manhattan_distance(a: Cell, b: Cell) -> (r: u64)
    requires
        a.x <= MAX_H_COORD,
        a.y <= MAX_H_COORD,
        b.x <= MAX_H_COORD,
        b.y <= MAX_H_COORD,
    ensures
        r == h_value(Heuristic::ScaledManhattan, a, b),
{
    let dx: u64 = if a.x >= b.x {
        (a.x - b.x) as u64
    } else {
        (b.x - a.x) as u64
    };
    let dy: u64 = if a.y >= b.y {
        (a.y - b.y) as u64
    } else {
        (b.y - a.y) as u64
    };
    10 * (dx + dy)
}

/// Octile distance, `10 * max(|dx|, |dy|) + 4 * min(|dx|, |dy|)`.
pub fn octile_distance(a: Cell, b: Cell) -> (r: u64)
    requires
        a.x <= MAX_H_COORD,
        a.y <= MAX_H_COORD,
        b.x <= MAX_H_COORD,
        b.y <= MAX_H_COORD,
    ensures
        r == h_value(Heuristic::Octile, a, b),
{
    let dx: u64 = if a.x >= b.x {
        (a.x - b.x) as u64
    } else {
        (b.x - a.x) as u64
    };
    let dy: u64 = if a.y >= b.y {
        (a.y - b.y) as u64
    } else {
        (b.y - a.y) as u64
    };
    if dx >= dy {
        10 * dx + 4 * dy
    } else {
        10 * dy + 4 * dx
    }
}

/// Coordinate bound under which the estimates cannot overflow.
pub const MAX_H_COORD: usize = 46340;

/// The estimate chosen by `h`.
pub fn heuristic_cost(h: Heuristic, a: Cell, b: Cell) -> (r: u64)
    requires
        a.x <= MAX_H_COORD,
        a.y <= MAX_H_COORD,
        b.x <= MAX_H_COORD,
        b.y <= MAX_H_COORD,
    ensures
        r == h_value(h, a, b),
{
    match h {
        Heuristic::ScaledManhattan => manhattan_distance(a, b),
        Heuristic::Octile => octile_distance(a, b),
    }
}

/// The estimate is non-negative, zero between equal cells, and bounded by
/// `20 * m` when both coordinates of both cells stay below `m`.
pub proof fn lemma_h_value_bounds(h: Heuristic, a: Cell, b: Cell, m: int)
    requires
        a.x < m,
        a.y < m,
        b.x < m,
        b.y < m,
    ensures
        0 <= h_value(h, a, b) <= 20 * m,
        a == b ==> h_value(h, a, b) == 0,
{
}

} // verus!
