//! Informed best-first search over the grid, and path reconstruction from
//! the parent table it builds.

use vstd::prelude::*;
use vstd::arithmetic::div_mod::lemma_fundamental_div_mod;
use vstd::arithmetic::div_mod::lemma_fundamental_div_mod_converse;
use vstd::arithmetic::div_mod::lemma_mod_bound;
use vstd::arithmetic::div_mod::lemma_div_pos_is_pos;
use vstd::set_lib::lemma_len_subset;
use crate::grid::Cell;
use crate::grid::Grid;
use crate::heuristic::Heuristic;
use crate::heuristic::h_value;
use crate::heuristic::heuristic_cost;
use crate::heuristic::lemma_h_value_bounds;
use crate::walk::adjacent;
use crate::walk::is_walk;
use crate::walk::reachable;
use crate::walk::step_cost;
use crate::walk::step_ok;
use crate::walk::walk_cost;
use crate::walk::lemma_walk_closed;

verus! {

/// One frontier record: accumulated cost `g` from the start, priority
/// `f = g + h(cell, destination)`, and the cell itself.
#[derive(Clone, Copy, PartialEq, Eq, Structural)]
pub struct Node {
    pub f: u64,
    pub g: u64,
    pub x: usize,
    pub y: usize,
}

impl Node {
    pub open spec fn cell(self) -> Cell {
        Cell { x: self.x, y: self.y }
    }
}

/// Position of cell `c` in a row-major `size * size` table.
pub open spec fn flat_idx(s: int, c: Cell) -> int {
    c.y * s + c.x
}

pub open spec fn closed_at(closed: Seq<bool>, s: int, c: Cell) -> bool {
    closed[flat_idx(s, c)]
}

pub open spec fn open_at(open: Seq<u64>, s: int, c: Cell) -> u64 {
    open[flat_idx(s, c)]
}

pub open spec fn parent_at(parent: Seq<Option<Cell>>, s: int, c: Cell) -> Option<Cell> {
    parent[flat_idx(s, c)]
}

/// A cell's coordinates as a pair of integers.
pub open spec fn pr(c: Cell) -> (int, int) {
    (c.x as int, c.y as int)
}

pub proof fn lemma_flat_idx_range(s: int, c: Cell)
    requires
        c.x < s,
        c.y < s,
    ensures
        0 <= flat_idx(s, c) < s * s,
{
    assert(0 <= c.y * s + c.x < s * s) by (nonlinear_arith)
        requires
            0 <= c.x < s,
            0 <= c.y < s,
    {}
}

pub proof fn lemma_flat_idx_inj(s: int, a: Cell, b: Cell)
    requires
        1 <= s,
        a.x < s,
        a.y < s,
        b.x < s,
        b.y < s,
        flat_idx(s, a) == flat_idx(s, b),
    ensures
        a == b,
{
    lemma_fundamental_div_mod_converse(flat_idx(s, a), s, a.y as int, a.x as int);
    lemma_fundamental_div_mod_converse(flat_idx(s, b), s, b.y as int, b.x as int);
}

spec fn cells_upto(s: int, n: int) -> Set<(int, int)>
    decreases n,
{
    if n <= 0 {
        Set::empty()
    } else {
        cells_upto(s, n - 1).insert(((n - 1) % s, (n - 1) / s))
    }
}

proof fn lemma_cells_upto(s: int, n: int)
    requires
        1 <= s,
        0 <= n <= s * s,
    ensures
        cells_upto(s, n).finite(),
        cells_upto(s, n).len() == n,
        forall|p: (int, int)|
            #[trigger] cells_upto(s, n).contains(p) <==> (0 <= p.0 < s && 0 <= p.1 && p.1 * s + p.0
                < n),
    decreases n,
{
    broadcast use vstd::set::group_set_axioms;

    if n == 0 {
        assert forall|p: (int, int)| !(0 <= p.0 < s && 0 <= p.1 && p.1 * s + p.0 < 0) by {
            if 0 <= p.0 && 0 <= p.1 {
                assert(p.1 * s >= 0) by (nonlinear_arith)
                    requires
                        s >= 1,
                        p.1 >= 0,
                {}
            }
        }
    } else {
        lemma_cells_upto(s, n - 1);
        let e = (((n - 1) % s), ((n - 1) / s));
        lemma_mod_bound(n - 1, s);
        lemma_div_pos_is_pos(n - 1, s);
        lemma_fundamental_div_mod(n - 1, s);
        assert(s * ((n - 1) / s) == ((n - 1) / s) * s) by (nonlinear_arith) {}
        assert(e.1 * s + e.0 == n - 1);
        assert(!cells_upto(s, n - 1).contains(e));
        assert forall|p: (int, int)|
            #[trigger] cells_upto(s, n).contains(p) <==> (0 <= p.0 < s && 0 <= p.1 && p.1 * s + p.0
                < n) by {
            if 0 <= p.0 < s && 0 <= p.1 && p.1 * s + p.0 < n {
                if p.1 * s + p.0 == n - 1 {
                    lemma_fundamental_div_mod_converse(n - 1, s, p.1, p.0);
                    assert(p == e);
                }
            }
        }
    }
}

/// A finite set of coordinate pairs drawn from an `s` by `s` board has at
/// most `s * s` elements.
proof fn lemma_closed_count_bound(s: int, cset: Set<(int, int)>)
    requires
        1 <= s,
        cset.finite(),
        forall|p: (int, int)| #[trigger] cset.contains(p) ==> 0 <= p.0 < s && 0 <= p.1 < s,
    ensures
        cset.len() <= s * s,
{
    assert(s * s >= 1) by (nonlinear_arith)
        requires
            s >= 1,
    {}
    lemma_cells_upto(s, s * s);
    assert forall|p: (int, int)| cset.contains(p) implies cells_upto(s, s * s).contains(p) by {
        assert(p.1 * s + p.0 < s * s) by (nonlinear_arith)
            requires
                0 <= p.0 < s,
                0 <= p.1 < s,
        {}
    }
    lemma_len_subset(cset, cells_upto(s, s * s));
}

/// Horizontal offset of direction `k`, matching the search's expansion order:
/// the first four directions are axis-aligned, the last four diagonal.
pub open spec fn dir_dx(k: int) -> int {
    if k == 1 || k == 4 || k == 5 {
        -1
    } else if k == 3 || k == 6 || k == 7 {
        1
    } else {
        0
    }
}

/// Vertical offset of direction `k`.
pub open spec fn dir_dy(k: int) -> int {
    if k == 0 || k == 4 || k == 7 {
        -1
    } else if k == 2 || k == 5 || k == 6 {
        1
    } else {
        0
    }
}

/// Step cost of direction `k`: 10 axis-aligned, 14 diagonal.
pub open spec fn dir_cost(k: int) -> int {
    if k < 4 {
        10
    } else {
        14
    }
}

/// Whether stepping from `c` in direction `k` stays on the board.
pub open spec fn nbr_exists(g: Grid, c: Cell, k: int) -> bool {
    &&& 0 <= c.x + dir_dx(k) < g.size
    &&& 0 <= c.y + dir_dy(k) < g.size
}

/// The neighbour of `c` in direction `k`.
pub open spec fn nbr_cell(c: Cell, k: int) -> Cell {
    Cell { x: (c.x + dir_dx(k)) as usize, y: (c.y + dir_dy(k)) as usize }
}

/// An on-board neighbour is adjacent, distinct, in bounds, and its step
/// costs `dir_cost(k)`.
proof fn lemma_dir_step(g: Grid, c: Cell, k: int)
    requires
        0 <= k < 8,
        nbr_exists(g, c, k),
        g.size <= usize::MAX,
    ensures
        adjacent(c, nbr_cell(c, k)),
        step_cost(c, nbr_cell(c, k)) == dir_cost(k),
        g.spec_in_bounds(nbr_cell(c, k)),
        nbr_cell(c, k) != c,
{
    let n = nbr_cell(c, k);
    assert(n.x == c.x + dir_dx(k));
    assert(n.y == c.y + dir_dy(k));
}

/// Every adjacent cell is reached by one of the eight directions.
proof fn lemma_adjacent_dir(c: Cell, n: Cell)
    requires
        adjacent(c, n),
    ensures
        exists|k: int|
            0 <= k < 8 && c.x + #[trigger] dir_dx(k) == n.x && c.y + dir_dy(k) == n.y,
{
    let dx = n.x - c.x;
    let dy = n.y - c.y;
    if dx == 0 && dy == -1 {
        assert(c.x + dir_dx(0) == n.x && c.y + dir_dy(0) == n.y);
    } else if dx == -1 && dy == 0 {
        assert(c.x + dir_dx(1) == n.x && c.y + dir_dy(1) == n.y);
    } else if dx == 0 && dy == 1 {
        assert(c.x + dir_dx(2) == n.x && c.y + dir_dy(2) == n.y);
    } else if dx == 1 && dy == 0 {
        assert(c.x + dir_dx(3) == n.x && c.y + dir_dy(3) == n.y);
    } else if dx == -1 && dy == -1 {
        assert(c.x + dir_dx(4) == n.x && c.y + dir_dy(4) == n.y);
    } else if dx == -1 && dy == 1 {
        assert(c.x + dir_dx(5) == n.x && c.y + dir_dy(5) == n.y);
    } else if dx == 1 && dy == 1 {
        assert(c.x + dir_dx(6) == n.x && c.y + dir_dy(6) == n.y);
    } else {
        assert(dx == 1 && dy == -1);
        assert(c.x + dir_dx(7) == n.x && c.y + dir_dy(7) == n.y);
    }
}

/// A vector of `n` copies of `val`.
fn filled<T: Copy>(val: T, n: usize) -> (r: Vec<T>)
    ensures
        r@.len() == n,
        forall|i: int| 0 <= i < n ==> r@[i] == val,
{
    let mut r: Vec<T> = Vec::new();
    let mut i: usize = 0;
    while i < n
        invariant
            i <= n,
            r@.len() == i,
            forall|j: int| 0 <= j < i ==> r@[j] == val,
        decreases n - i,
    {
        r.push(val);
        i = i + 1;
    }
    r
}

/// Row-major position of `(x, y)` in a `s * s` table.
fn flat_index(x: usize, y: usize, s: usize) -> (r: usize)
    requires
        x < s,
        y < s,
        s <= crate::grid::MAX_GRID_SIZE,
    ensures
        r == flat_idx(s as int, Cell { x, y }),
        r < s * s,
{
    proof {
        lemma_flat_idx_range(s as int, Cell { x, y });
        assert(s * s <= 46340 * 46340) by (nonlinear_arith)
            requires
                0 <= s <= 46340,
        {}
    }
    y * s + x
}

/// Offsets of direction `k`.
fn dir_step(k: usize) -> (r: (i64, i64))
    requires
        k < 8,
    ensures
        r.0 == dir_dx(k as int),
        r.1 == dir_dy(k as int),
{
    if k == 0 {
        (0, -1)
    } else if k == 1 {
        (-1, 0)
    } else if k == 2 {
        (0, 1)
    } else if k == 3 {
        (1, 0)
    } else if k == 4 {
        (-1, -1)
    } else if k == 5 {
        (-1, 1)
    } else if k == 6 {
        (1, 1)
    } else {
        (1, -1)
    }
}

/// Cost of one step in direction `k`.
fn dir_step_cost(k: usize) -> (r: u64)
    requires
        k < 8,
    ensures
        r == dir_cost(k as int),
{
    if k < 4 {
        10
    } else {
        14
    }
}

/// What the search guarantees of one finalised cell: it carries a finalised
/// cost and a back-pointer to an earlier-finalised adjacent cell, the start
/// pointing to itself with cost zero.
pub open spec fn closed_cell_wf(
    g: Grid,
    start: Cell,
    s: int,
    parent: Seq<Option<Cell>>,
    closed: Seq<bool>,
    rank: Map<Cell, nat>,
    gcl: Map<Cell, int>,
    c: Cell,
) -> bool {
    &&& rank.contains_key(c)
    &&& gcl.contains_key(c)
    &&& 0 <= gcl[c]
    &&& if c == start {
        parent_at(parent, s, c) == Some(c) && gcl[c] == 0
    } else {
        parent_at(parent, s, c) matches Some(p) && g.spec_in_bounds(p) && closed_at(closed, s, p)
            && adjacent(p, c) && g.spec_walkable(c) && rank.contains_key(p) && rank[p] < rank[c]
            && gcl.contains_key(p) && gcl[c] == gcl[p] + step_cost(p, c)
    }
}

/// The parent table is a forest of back-pointers over the finalised cells,
/// rooted at the start: every finalised cell satisfies [`closed_cell_wf`].
pub open spec fn parent_wf(
    g: Grid,
    start: Cell,
    s: int,
    parent: Seq<Option<Cell>>,
    closed: Seq<bool>,
    rank: Map<Cell, nat>,
    gcl: Map<Cell, int>,
) -> bool {
    forall|c: Cell|
        g.spec_in_bounds(c) && #[trigger] closed_at(closed, s, c) ==> closed_cell_wf(
            g,
            start,
            s,
            parent,
            closed,
            rank,
            gcl,
            c,
        )
}

/// Walks the parent table backward from the destination to the start and
/// returns the route the search found, in start-to-destination order. Its
/// cost is exactly the cost the search finalised for the destination, and
/// its cells are exactly the chain the parent table holds.
#[verifier::rlimit(100)]
pub fn reconstruct_path(
    parent: &Vec<Option<Cell>>,
    closed: &Vec<bool>,
    grid: &Grid,
    start: Cell,
    dest: Cell,
    Ghost(rank): Ghost<Map<Cell, nat>>,
    Ghost(gcl): Ghost<Map<Cell, int>>,
) -> (r: Vec<Cell>)
    requires
        grid.wf(),
        grid.spec_in_bounds(start),
        grid.spec_in_bounds(dest),
        parent@.len() == grid.size * grid.size,
        closed@.len() == grid.size * grid.size,
        parent_wf(*grid, start, grid.size as int, parent@, closed@, rank, gcl),
        closed_at(closed@, grid.size as int, dest),
    ensures
        crate::walk::is_walk(*grid, start, dest, r@),
        gcl.contains_key(dest),
        crate::walk::walk_cost(r@) == gcl[dest],
        start == dest ==> r@.len() == 1,
{
    let ghost si = grid.size as int;
    let s = grid.size;
    let mut chain: Vec<Cell> = Vec::new();
    let mut cur: Cell = dest;
    proof {
        assert(closed_at(closed@, si, dest));
        let w0 = chain@.push(cur).reverse();
        assert(w0.len() == 1);
        assert(w0[0] == dest);
    }
    while cur != start
        invariant
            grid.wf(),
            s == grid.size,
            si == grid.size as int,
            grid.spec_in_bounds(start),
            grid.spec_in_bounds(dest),
            grid.spec_in_bounds(cur),
            parent@.len() == s * s,
            closed@.len() == s * s,
            parent_wf(*grid, start, si, parent@, closed@, rank, gcl),
            closed_at(closed@, si, cur),
            gcl.contains_key(cur),
            gcl.contains_key(dest),
            rank.contains_key(cur),
            start == dest ==> chain@.len() == 0,
            ({
                let w = chain@.push(cur).reverse();
                crate::walk::is_walk(*grid, cur, dest, w) && crate::walk::walk_cost(w) == gcl[dest]
                    - gcl[cur]
            }),
        decreases rank[cur],
    {
        proof {
            assert(closed_at(closed@, si, cur));
            lemma_flat_idx_range(si, cur);
            if start == dest {
                let w = chain@.push(cur).reverse();
                assert(w[0] == cur);
                assert(false);
            }
        }
        let ci = flat_index(cur.x, cur.y, s);
        let po = parent[ci];
        proof {
            assert(po == parent_at(parent@, si, cur));
            assert(po is Some);
        }
        if let Some(p) = po {
            let ghost w = chain@.push(cur).reverse();
            chain.push(cur);
            let ghost prev = cur;
            cur = p;
            proof {
                let w2 = chain@.push(cur).reverse();
                assert(w2.len() == w.len() + 1);
                assert forall|j: int| 1 <= j < w2.len() implies w2[j] == w[j - 1] by {}
                assert(w2 =~= seq![p] + w);
                assert(w[0] == prev);
                crate::walk::lemma_walk_cost_prepend(p, w);
                assert(step_ok(*grid, p, prev));
                assert forall|i: int| #![trigger w2[i]] 0 <= i < w2.len() - 1 implies step_ok(
                    *grid,
                    w2[i],
                    w2[i + 1],
                ) by {
                    if i >= 1 {
                        assert(w2[i] == w[i - 1]);
                        assert(w2[i + 1] == w[i]);
                        assert(step_ok(*grid, w[i - 1], w[i]));
                    }
                }
            }
        } else {
            proof {
                assert(false);
            }
        }
    }
    chain.push(cur);
    let mut path: Vec<Cell> = Vec::new();
    let mut i: usize = chain.len();
    while i > 0
        invariant
            i <= chain@.len(),
            path@.len() == chain@.len() - i,
            forall|j: int| 0 <= j < path@.len() ==> path@[j] == chain@[chain@.len() - 1 - j],
        decreases i,
    {
        i = i - 1;
        let c = chain[i];
        path.push(c);
    }
    proof {
        assert(path@ =~= chain@.reverse());
        assert(closed_at(closed@, si, start));
    }
    path
}

/// The finalised set mirrors the closed table, and stays on the board.
spec fn cset_ok(g: Grid, s: int, cset: Set<(int, int)>, closed: Seq<bool>) -> bool {
    &&& cset.finite()
    &&& forall|p: (int, int)| #[trigger] cset.contains(p) ==> 0 <= p.0 < s && 0 <= p.1 < s
    &&& forall|c: Cell|
        g.spec_in_bounds(c) ==> (closed_at(closed, s, c) <==> #[trigger] cset.contains(pr(c)))
}

/// Every finalised cell was discovered.
spec fn closed_discovered(g: Grid, s: int, closed: Seq<bool>, open: Seq<u64>) -> bool {
    forall|c: Cell|
        g.spec_in_bounds(c) && #[trigger] closed_at(closed, s, c) ==> open_at(open, s, c)
            < u64::MAX
}

/// Every discovered, not yet finalised cell still has a live frontier record
/// carrying exactly its best recorded priority.
spec fn discovered_reached(
    g: Grid,
    s: int,
    closed: Seq<bool>,
    open: Seq<u64>,
    frontier: Seq<Node>,
) -> bool {
    forall|c: Cell|
        g.spec_in_bounds(c) && #[trigger] open_at(open, s, c) < u64::MAX && !closed_at(
            closed,
            s,
            c,
        ) ==> exists|i: int|
            0 <= i < frontier.len() && (#[trigger] frontier[i]).cell() == c && frontier[i].f
                == open_at(open, s, c)
}

/// What holds of a live frontier record: its cost chains off the parent
/// recorded for its cell, the start record carrying cost zero.
spec fn live_ok(
    g: Grid,
    start: Cell,
    s: int,
    parent: Seq<Option<Cell>>,
    closed: Seq<bool>,
    gcl: Map<Cell, int>,
    n: Node,
) -> bool {
    let c = n.cell();
    if c == start {
        n.g == 0 && parent_at(parent, s, c) == Some(c)
    } else {
        parent_at(parent, s, c) matches Some(p) && g.spec_in_bounds(p) && closed_at(closed, s, p)
            && adjacent(p, c) && gcl.contains_key(p) && n.g == gcl[p] + step_cost(p, c)
    }
}

/// What holds of every frontier record.
spec fn entry_ok(
    g: Grid,
    start: Cell,
    dest: Cell,
    heu: Heuristic,
    s: int,
    open: Seq<u64>,
    closed: Seq<bool>,
    parent: Seq<Option<Cell>>,
    gcl: Map<Cell, int>,
    clen: int,
    n: Node,
) -> bool {
    let c = n.cell();
    &&& g.spec_in_bounds(c)
    &&& n.f == n.g + h_value(heu, c, dest)
    &&& n.g <= 14 * clen
    &&& n.f < u64::MAX
    &&& open_at(open, s, c) <= n.f
    &&& (c == start || g.spec_walkable(c))
    &&& ((!closed_at(closed, s, c) && n.f == open_at(open, s, c)) ==> live_ok(
        g,
        start,
        s,
        parent,
        closed,
        gcl,
        n,
    ))
}

spec fn frontier_ok(
    g: Grid,
    start: Cell,
    dest: Cell,
    heu: Heuristic,
    s: int,
    open: Seq<u64>,
    closed: Seq<bool>,
    parent: Seq<Option<Cell>>,
    gcl: Map<Cell, int>,
    clen: int,
    frontier: Seq<Node>,
) -> bool {
    forall|i: int|
        0 <= i < frontier.len() ==> entry_ok(
            g,
            start,
            dest,
            heu,
            s,
            open,
            closed,
            parent,
            gcl,
            clen,
            #[trigger] frontier[i],
        )
}

/// Finalised ranks stay below the number of finalised cells.
spec fn rank_bounded(g: Grid, s: int, closed: Seq<bool>, rank: Map<Cell, nat>, clen: int) -> bool {
    forall|c: Cell|
        g.spec_in_bounds(c) && #[trigger] closed_at(closed, s, c) ==> rank.contains_key(c)
            && rank[c] < clen
}

/// Every legal step out of a finalised cell, other than `except`, reaches a
/// discovered cell.
spec fn closed_expanded_except(
    g: Grid,
    s: int,
    closed: Seq<bool>,
    open: Seq<u64>,
    except: Cell,
) -> bool {
    forall|c: Cell, n: Cell|
        #![trigger closed_at(closed, s, c), step_ok(g, c, n)]
        g.spec_in_bounds(c) && closed_at(closed, s, c) && c != except && step_ok(g, c, n)
            ==> open_at(open, s, n) < u64::MAX
}

/// Every legal step out of a finalised cell reaches a discovered cell.
spec fn closed_expanded(g: Grid, s: int, closed: Seq<bool>, open: Seq<u64>) -> bool {
    forall|c: Cell, n: Cell|
        #![trigger closed_at(closed, s, c), step_ok(g, c, n)]
        g.spec_in_bounds(c) && closed_at(closed, s, c) && step_ok(g, c, n) ==> open_at(open, s, n)
            < u64::MAX
}

/// The first `k` directions out of `cc` have been expanded: each walkable
/// on-board neighbour among them is discovered.
spec fn expanded_upto(g: Grid, s: int, open: Seq<u64>, cc: Cell, k: int) -> bool {
    forall|j: int|
        #![trigger nbr_cell(cc, j)]
        0 <= j < k && nbr_exists(g, cc, j) && g.spec_walkable(nbr_cell(cc, j)) ==> open_at(
            open,
            s,
            nbr_cell(cc, j),
        ) < u64::MAX
}

/// Until the start is finalised, it is the only cell on the frontier.
spec fn start_pinned(g: Grid, s: int, closed: Seq<bool>, frontier: Seq<Node>, start: Cell) -> bool {
    closed_at(closed, s, start) || (forall|i: int|
        0 <= i < frontier.len() ==> (#[trigger] frontier[i]).cell() == start)
}

/// `i` is the position of the record the search pops next: the first
/// record of minimal priority.
pub open spec fn is_first_min(fr: Seq<Node>, i: int) -> bool {
    &&& 0 <= i < fr.len()
    &&& forall|j: int| 0 <= j < fr.len() ==> fr[i].f <= (#[trigger] fr[j]).f
    &&& forall|j: int| 0 <= j < i ==> (#[trigger] fr[j]).f > fr[i].f
}

/// Index of a frontier record with the smallest priority.
fn min_index(frontier: &Vec<Node>) -> (r: usize)
    requires
        frontier@.len() > 0,
    ensures
        r < frontier@.len(),
        forall|j: int| 0 <= j < frontier@.len() ==> frontier@[r as int].f <= (#[trigger] frontier@[j]).f,
        is_first_min(frontier@, r as int),
{
    let mut best: usize = 0;
    let mut i: usize = 1;
    while i < frontier.len()
        invariant
            best < i,
            i <= frontier@.len(),
            forall|j: int| 0 <= j < i ==> frontier@[best as int].f <= (#[trigger] frontier@[j]).f,
            forall|j: int| 0 <= j < best ==> (#[trigger] frontier@[j]).f > frontier@[best as int].f,
        decreases frontier@.len() - i,
    {
        if frontier[i].f < frontier[best].f {
            best = i;
        }
        i = i + 1;
    }
    best
}

/// Everything that holds while the newly finalised cell of `node` has had
/// its first `k` directions expanded.
spec fn expand_inv(
    g: Grid,
    start: Cell,
    dest: Cell,
    heu: Heuristic,
    node: Node,
    k: int,
    closed: Seq<bool>,
    open: Seq<u64>,
    parent: Seq<Option<Cell>>,
    frontier: Seq<Node>,
    rank: Map<Cell, nat>,
    gcl: Map<Cell, int>,
    cset: Set<(int, int)>,
) -> bool {
    let s = g.size as int;
    let c = node.cell();
    &&& g.wf()
    &&& g.spec_in_bounds(start)
    &&& g.spec_in_bounds(dest)
    &&& g.spec_in_bounds(c)
    &&& 0 <= k <= 8
    &&& closed.len() == s * s
    &&& open.len() == s * s
    &&& parent.len() == s * s
    &&& closed_at(closed, s, c)
    &&& closed_at(closed, s, start)
    &&& !closed_at(closed, s, dest)
    &&& gcl.contains_key(c)
    &&& gcl[c] == node.g
    &&& cset.len() >= 1
    &&& node.g <= 14 * (cset.len() - 1)
    &&& cset_ok(g, s, cset, closed)
    &&& cset.len() <= s * s
    &&& rank_bounded(g, s, closed, rank, cset.len() as int)
    &&& parent_wf(g, start, s, parent, closed, rank, gcl)
    &&& closed_discovered(g, s, closed, open)
    &&& discovered_reached(g, s, closed, open, frontier)
    &&& frontier_ok(g, start, dest, heu, s, open, closed, parent, gcl, cset.len() as int, frontier)
    &&& closed_expanded_except(g, s, closed, open, c)
    &&& expanded_upto(g, s, open, c, k)
    &&& open_at(open, s, start) < u64::MAX
}

/// Re-establishes the expansion invariant after recording an improved
/// route to `ncell` and pushing its new frontier record.
#[verifier::rlimit(100)]
proof fn lemma_push_reestablish(
    g: Grid,
    start: Cell,
    dest: Cell,
    heu: Heuristic,
    node: Node,
    k: int,
    ncell: Cell,
    g2: u64,
    f2: u64,
    closed: Seq<bool>,
    open_old: Seq<u64>,
    open_new: Seq<u64>,
    parent_old: Seq<Option<Cell>>,
    parent_new: Seq<Option<Cell>>,
    fr_old: Seq<Node>,
    fr_new: Seq<Node>,
    rank: Map<Cell, nat>,
    gcl: Map<Cell, int>,
    cset: Set<(int, int)>,
)
    requires
        expand_inv(g, start, dest, heu, node, k, closed, open_old, parent_old, fr_old, rank, gcl, cset),
        0 <= k < 8,
        nbr_exists(g, node.cell(), k),
        ncell == nbr_cell(node.cell(), k),
        g.spec_walkable(ncell),
        !closed_at(closed, g.size as int, ncell),
        g2 == node.g + dir_cost(k),
        f2 == g2 + h_value(heu, ncell, dest),
        f2 < u64::MAX,
        f2 < open_at(open_old, g.size as int, ncell),
        open_new == open_old.update(flat_idx(g.size as int, ncell), f2),
        parent_new == parent_old.update(flat_idx(g.size as int, ncell), Some(node.cell())),
        fr_new == fr_old.push(Node { f: f2, g: g2, x: ncell.x, y: ncell.y }),
    ensures
        expand_inv(g, start, dest, heu, node, k + 1, closed, open_new, parent_new, fr_new, rank, gcl, cset),
{
    let si = g.size as int;
    let c = node.cell();
    lemma_dir_step(g, c, k);
    lemma_flat_idx_range(si, ncell);
    assert(ncell != start);
    assert(ncell != c);
    // the tables changed at ncell alone
    assert forall|c2: Cell| g.spec_in_bounds(c2) && c2 != ncell implies #[trigger] open_at(
        open_new,
        si,
        c2,
    ) == open_at(open_old, si, c2) by {
        lemma_flat_idx_range(si, c2);
        if flat_idx(si, c2) == flat_idx(si, ncell) {
            lemma_flat_idx_inj(si, c2, ncell);
        }
    }
    assert forall|c2: Cell| g.spec_in_bounds(c2) && c2 != ncell implies #[trigger] parent_at(
        parent_new,
        si,
        c2,
    ) == parent_at(parent_old, si, c2) by {
        lemma_flat_idx_range(si, c2);
        if flat_idx(si, c2) == flat_idx(si, ncell) {
            lemma_flat_idx_inj(si, c2, ncell);
        }
    }
    assert(open_at(open_new, si, ncell) == f2);
    assert(parent_at(parent_new, si, ncell) == Some(c));
    // finalised cells keep their chains
    assert forall|c2: Cell|
        g.spec_in_bounds(c2) && #[trigger] closed_at(closed, si, c2) implies closed_cell_wf(
        g,
        start,
        si,
        parent_new,
        closed,
        rank,
        gcl,
        c2,
    ) by {
        assert(closed_cell_wf(g, start, si, parent_old, closed, rank, gcl, c2));
        assert(c2 != ncell);
        assert(parent_at(parent_new, si, c2) == parent_at(parent_old, si, c2));
    }
    // discovered cells still have live records
    assert forall|c2: Cell|
        g.spec_in_bounds(c2) && #[trigger] open_at(open_new, si, c2) < u64::MAX && !closed_at(
            closed,
            si,
            c2,
        ) implies exists|i: int|
        0 <= i < fr_new.len() && (#[trigger] fr_new[i]).cell() == c2 && fr_new[i].f == open_at(
            open_new,
            si,
            c2,
        ) by {
        if c2 == ncell {
            let iw = fr_new.len() - 1;
            assert(fr_new[iw].cell() == ncell);
            assert(fr_new[iw].f == open_at(open_new, si, ncell));
        } else {
            assert(open_at(open_old, si, c2) == open_at(open_new, si, c2));
            let j = choose|j: int|
                0 <= j < fr_old.len() && (#[trigger] fr_old[j]).cell() == c2 && fr_old[j].f
                    == open_at(open_old, si, c2);
            assert(fr_new[j].cell() == c2);
            assert(fr_new[j].f == open_at(open_new, si, c2));
        }
    }
    // all frontier records keep their guarantees
    assert forall|i: int| 0 <= i < fr_new.len() implies entry_ok(
        g,
        start,
        dest,
        heu,
        si,
        open_new,
        closed,
        parent_new,
        gcl,
        cset.len() as int,
        #[trigger] fr_new[i],
    ) by {
        if i < fr_new.len() - 1 {
            let e = fr_old[i];
            assert(fr_new[i] == e);
            assert(entry_ok(
                g,
                start,
                dest,
                heu,
                si,
                open_old,
                closed,
                parent_old,
                gcl,
                cset.len() as int,
                e,
            ));
            let ce = e.cell();
            if ce == ncell {
                assert(open_at(open_old, si, ce) <= e.f);
                assert(open_at(open_new, si, ce) == f2);
                assert(f2 < open_at(open_old, si, ce));
            } else {
                assert(open_at(open_new, si, ce) == open_at(open_old, si, ce));
                assert(parent_at(parent_new, si, ce) == parent_at(parent_old, si, ce));
                if !closed_at(closed, si, ce) && e.f == open_at(open_new, si, ce) {
                    assert(live_ok(g, start, si, parent_old, closed, gcl, e));
                    if ce != start {
                        match parent_at(parent_old, si, ce) {
                            Some(p2) => {
                                assert(p2 != ncell);
                            },
                            None => {
                                assert(false);
                            },
                        }
                    }
                }
            }
        } else {
            let e = fr_new[i];
            assert(e.cell() == ncell);
            assert(e.f == f2 && e.g == g2);
            assert(g2 == gcl[c] + step_cost(c, ncell));
            assert(live_ok(g, start, si, parent_new, closed, gcl, e));
        }
    }
    // steps out of other finalised cells stay discovered
    assert forall|c2: Cell, n2: Cell|
        #![trigger closed_at(closed, si, c2), step_ok(g, c2, n2)]
        g.spec_in_bounds(c2) && closed_at(closed, si, c2) && c2 != c && step_ok(
            g,
            c2,
            n2,
        ) implies open_at(open_new, si, n2) < u64::MAX by {
        if n2 != ncell {
            assert(open_at(open_new, si, n2) == open_at(open_old, si, n2));
        }
    }
    // directions expanded so far stay discovered
    assert forall|j: int|
        #![trigger nbr_cell(c, j)]
        0 <= j < k + 1 && nbr_exists(g, c, j) && g.spec_walkable(nbr_cell(c, j)) implies open_at(
        open_new,
        si,
        nbr_cell(c, j),
    ) < u64::MAX by {
        if j < k {
            if nbr_cell(c, j) != ncell {
                assert(open_at(open_new, si, nbr_cell(c, j)) == open_at(
                    open_old,
                    si,
                    nbr_cell(c, j),
                ));
            }
        } else {
            assert(nbr_cell(c, j) == ncell);
        }
    }
    assert(open_at(open_new, si, start) == open_at(open_old, si, start));
}

/// Expands direction `k` out of the newly finalised cell of `node`: a
/// walkable, unfinalised on-board neighbour whose priority improves on its
/// best recorded one is recorded and pushed onto the frontier.
#[verifier::rlimit(100)]
fn expand_neighbor(
    grid: &Grid,
    start: Cell,
    dest: Cell,
    heu: Heuristic,
    node: Node,
    k: usize,
    closed: &Vec<bool>,
    open: &mut Vec<u64>,
    parent: &mut Vec<Option<Cell>>,
    frontier: &mut Vec<Node>,
    Ghost(rank): Ghost<Map<Cell, nat>>,
    Ghost(gcl): Ghost<Map<Cell, int>>,
    Ghost(cset): Ghost<Set<(int, int)>>,
)
    requires
        k < 8,
        expand_inv(
            *grid,
            start,
            dest,
            heu,
            node,
            k as int,
            closed@,
            old(open)@,
            old(parent)@,
            old(frontier)@,
            rank,
            gcl,
            cset,
        ),
    ensures
        expand_inv(
            *grid,
            start,
            dest,
            heu,
            node,
            k + 1,
            closed@,
            final(open)@,
            final(parent)@,
            final(frontier)@,
            rank,
            gcl,
            cset,
        ),
{
    let ghost si = grid.size as int;
    let s = grid.size;
    let c = Cell { x: node.x, y: node.y };
    proof {
        assert(node.cell() == c);
    }
    let (dx, dy) = dir_step(k);
    let nx = c.x as i64 + dx;
    let ny = c.y as i64 + dy;
    if nx >= 0 && nx < s as i64 && ny >= 0 && ny < s as i64 {
        let ncell = Cell { x: nx as usize, y: ny as usize };
        proof {
            assert(nbr_exists(*grid, c, k as int));
            assert(ncell == nbr_cell(c, k as int));
            lemma_dir_step(*grid, c, k as int);
            lemma_flat_idx_range(si, ncell);
        }
        let ni = flat_index(ncell.x, ncell.y, s);
        if grid.is_walkable(ncell) {
            if !closed[ni] {
                proof {
                    assert(14 * (cset.len() as int) <= 14 * (si * si)) by (nonlinear_arith)
                        requires
                            cset.len() <= si * si,
                    {}
                    assert(si * si <= 46340 * 46340) by (nonlinear_arith)
                        requires
                            0 <= si <= 46340,
                    {}
                }
                let step = dir_step_cost(k);
                let g2 = node.g + step;
                let h2 = heuristic_cost(heu, ncell, dest);
                proof {
                    lemma_h_value_bounds(heu, ncell, dest, si);
                }
                let f2 = g2 + h2;
                if f2 < open[ni] {
                    let ghost open_old = open@;
                    let ghost parent_old = parent@;
                    let ghost fr_old = frontier@;
                    open[ni] = f2;
                    parent[ni] = Some(c);
                    frontier.push(Node { f: f2, g: g2, x: ncell.x, y: ncell.y });
                    proof {
                        lemma_push_reestablish(
                            *grid,
                            start,
                            dest,
                            heu,
                            node,
                            k as int,
                            ncell,
                            g2,
                            f2,
                            closed@,
                            open_old,
                            open@,
                            parent_old,
                            parent@,
                            fr_old,
                            frontier@,
                            rank,
                            gcl,
                            cset,
                        );
                    }
                } else {
                    proof {
                        assert(open_at(open@, si, ncell) <= f2);
                        assert forall|j: int|
                            #![trigger nbr_cell(c, j)]
                            0 <= j < k + 1 && nbr_exists(*grid, c, j) && grid.spec_walkable(
                                nbr_cell(c, j),
                            ) implies open_at(open@, si, nbr_cell(c, j)) < u64::MAX by {}
                    }
                }
            } else {
                proof {
                    assert(closed_at(closed@, si, ncell));
                    assert(open_at(open@, si, ncell) < u64::MAX);
                    assert forall|j: int|
                        #![trigger nbr_cell(c, j)]
                        0 <= j < k + 1 && nbr_exists(*grid, c, j) && grid.spec_walkable(
                            nbr_cell(c, j),
                        ) implies open_at(open@, si, nbr_cell(c, j)) < u64::MAX by {}
                }
            }
        } else {
            proof {
                assert(!grid.spec_walkable(ncell));
                assert forall|j: int|
                    #![trigger nbr_cell(c, j)]
                    0 <= j < k + 1 && nbr_exists(*grid, c, j) && grid.spec_walkable(
                        nbr_cell(c, j),
                    ) implies open_at(open@, si, nbr_cell(c, j)) < u64::MAX by {
                    if j == k as int {
                        assert(nbr_cell(c, j) == ncell);
                    }
                }
            }
        }
    } else {
        proof {
            assert(!nbr_exists(*grid, c, k as int));
            assert forall|j: int|
                #![trigger nbr_cell(c, j)]
                0 <= j < k + 1 && nbr_exists(*grid, c, j) && grid.spec_walkable(
                    nbr_cell(c, j),
                ) implies open_at(open@, si, nbr_cell(c, j)) < u64::MAX by {}
        }
    }
}

/// Dropping a stale record keeps every invariant: the record's cell is
/// already finalised, so nothing else referred to it.
proof fn lemma_stale_reestablish(
    g: Grid,
    start: Cell,
    dest: Cell,
    heu: Heuristic,
    node: Node,
    mi: int,
    of: Seq<Node>,
    fr: Seq<Node>,
    closed: Seq<bool>,
    open: Seq<u64>,
    parent: Seq<Option<Cell>>,
    gcl: Map<Cell, int>,
    clen: int,
)
    requires
        0 <= mi < of.len(),
        of[mi] == node,
        fr == of.remove(mi),
        closed_at(closed, g.size as int, node.cell()),
        discovered_reached(g, g.size as int, closed, open, of),
        frontier_ok(g, start, dest, heu, g.size as int, open, closed, parent, gcl, clen, of),
        start_pinned(g, g.size as int, closed, of, start),
    ensures
        discovered_reached(g, g.size as int, closed, open, fr),
        frontier_ok(g, start, dest, heu, g.size as int, open, closed, parent, gcl, clen, fr),
        start_pinned(g, g.size as int, closed, fr, start),
{
    let si = g.size as int;
    of.remove_ensures(mi);
    assert forall|c2: Cell|
        g.spec_in_bounds(c2) && #[trigger] open_at(open, si, c2) < u64::MAX && !closed_at(
            closed,
            si,
            c2,
        ) implies exists|i: int|
        0 <= i < fr.len() && (#[trigger] fr[i]).cell() == c2 && fr[i].f == open_at(
            open,
            si,
            c2,
        ) by {
        let j = choose|j: int|
            0 <= j < of.len() && (#[trigger] of[j]).cell() == c2 && of[j].f == open_at(
                open,
                si,
                c2,
            );
        assert(c2 != node.cell());
        assert(j != mi);
        if j < mi {
            assert(fr[j].cell() == c2 && fr[j].f == open_at(open, si, c2));
        } else {
            assert(fr[j - 1].cell() == c2 && fr[j - 1].f == open_at(open, si, c2));
        }
    }
    assert forall|i: int| 0 <= i < fr.len() implies entry_ok(
        g,
        start,
        dest,
        heu,
        si,
        open,
        closed,
        parent,
        gcl,
        clen,
        #[trigger] fr[i],
    ) by {
        if i < mi {
            assert(fr[i] == of[i]);
        } else {
            assert(fr[i] == of[i + 1]);
        }
    }
    if !closed_at(closed, si, start) {
        assert forall|i: int| 0 <= i < fr.len() implies (#[trigger] fr[i]).cell() == start by {
            if i < mi {
                assert(fr[i] == of[i]);
            } else {
                assert(fr[i] == of[i + 1]);
            }
        }
    }
}

/// Common requires of the close-step lemmas, bundled.
spec fn close_pre(
    g: Grid,
    start: Cell,
    dest: Cell,
    heu: Heuristic,
    node: Node,
    mi: int,
    of: Seq<Node>,
    fr: Seq<Node>,
    closed_old: Seq<bool>,
    closed_new: Seq<bool>,
    open: Seq<u64>,
    parent: Seq<Option<Cell>>,
    rank_old: Map<Cell, nat>,
    rank_new: Map<Cell, nat>,
    gcl_old: Map<Cell, int>,
    gcl_new: Map<Cell, int>,
    cset_old: Set<(int, int)>,
    cset_new: Set<(int, int)>,
) -> bool {
    let s = g.size as int;
    &&& g.wf()
    &&& g.spec_in_bounds(start)
    &&& g.spec_in_bounds(dest)
    &&& closed_old.len() == s * s
    &&& open.len() == s * s
    &&& parent.len() == s * s
    &&& cset_ok(g, s, cset_old, closed_old)
    &&& cset_old.len() <= s * s
    &&& rank_bounded(g, s, closed_old, rank_old, cset_old.len() as int)
    &&& parent_wf(g, start, s, parent, closed_old, rank_old, gcl_old)
    &&& closed_discovered(g, s, closed_old, open)
    &&& discovered_reached(g, s, closed_old, open, of)
    &&& frontier_ok(g, start, dest, heu, s, open, closed_old, parent, gcl_old, cset_old.len() as int, of)
    &&& closed_expanded(g, s, closed_old, open)
    &&& start_pinned(g, s, closed_old, of, start)
    &&& 0 <= mi < of.len()
    &&& of[mi] == node
    &&& (forall|j: int| 0 <= j < of.len() ==> node.f <= (#[trigger] of[j]).f)
    &&& fr.len() == of.len() - 1
    &&& (forall|j: int| 0 <= j < mi ==> (#[trigger] fr[j]) == of[j])
    &&& (forall|j: int| mi <= j < of.len() - 1 ==> (#[trigger] fr[j]) == of[j + 1])
    &&& !closed_at(closed_old, s, dest)
    &&& !closed_at(closed_old, s, node.cell())
    &&& closed_new == closed_old.update(flat_idx(s, node.cell()), true)
    &&& rank_new == rank_old.insert(node.cell(), cset_old.len())
    &&& gcl_new == gcl_old.insert(node.cell(), node.g as int)
    &&& cset_new == cset_old.insert(pr(node.cell()))
}

/// The closed table after the close step changed at the popped cell alone.
spec fn close_frame(g: Grid, c: Cell, closed_old: Seq<bool>, closed_new: Seq<bool>) -> bool {
    let s = g.size as int;
    forall|c2: Cell|
        g.spec_in_bounds(c2) && c2 != c ==> #[trigger] closed_at(closed_new, s, c2) == closed_at(
            closed_old,
            s,
            c2,
        ) && flat_idx(s, c2) != flat_idx(s, c)
}

/// Close step, part one: the popped record was live.
#[verifier::rlimit(100)]
proof fn lemma_close_live(
    g: Grid,
    start: Cell,
    dest: Cell,
    heu: Heuristic,
    node: Node,
    mi: int,
    of: Seq<Node>,
    fr: Seq<Node>,
    closed_old: Seq<bool>,
    closed_new: Seq<bool>,
    open: Seq<u64>,
    parent: Seq<Option<Cell>>,
    rank_old: Map<Cell, nat>,
    rank_new: Map<Cell, nat>,
    gcl_old: Map<Cell, int>,
    gcl_new: Map<Cell, int>,
    cset_old: Set<(int, int)>,
    cset_new: Set<(int, int)>,
)
    requires
        close_pre(
            g, start, dest, heu, node, mi, of, fr, closed_old, closed_new, open, parent,
            rank_old, rank_new, gcl_old, gcl_new, cset_old, cset_new,
        ),
    ensures
        node.f == open_at(open, g.size as int, node.cell()),
        live_ok(g, start, g.size as int, parent, closed_old, gcl_old, node),
{
    let si = g.size as int;
    let c = node.cell();
    assert(entry_ok(
        g,
        start,
        dest,
        heu,
        si,
        open,
        closed_old,
        parent,
        gcl_old,
        cset_old.len() as int,
        node,
    ));
    lemma_flat_idx_range(si, c);
    assert(open_at(open, si, c) <= node.f);
    if open_at(open, si, c) < node.f {
        let j = choose|j: int|
            0 <= j < of.len() && (#[trigger] of[j]).cell() == c && of[j].f == open_at(open, si, c);
        assert(node.f <= of[j].f);
        assert(false);
    }
}

/// Close step, part two: the closed table changed at the popped cell
/// alone, and the finalised set still mirrors it.
#[verifier::rlimit(100)]
proof fn lemma_close_cset(
    g: Grid,
    start: Cell,
    dest: Cell,
    heu: Heuristic,
    node: Node,
    mi: int,
    of: Seq<Node>,
    fr: Seq<Node>,
    closed_old: Seq<bool>,
    closed_new: Seq<bool>,
    open: Seq<u64>,
    parent: Seq<Option<Cell>>,
    rank_old: Map<Cell, nat>,
    rank_new: Map<Cell, nat>,
    gcl_old: Map<Cell, int>,
    gcl_new: Map<Cell, int>,
    cset_old: Set<(int, int)>,
    cset_new: Set<(int, int)>,
)
    requires
        close_pre(
            g, start, dest, heu, node, mi, of, fr, closed_old, closed_new, open, parent,
            rank_old, rank_new, gcl_old, gcl_new, cset_old, cset_new,
        ),
    ensures
        close_frame(g, node.cell(), closed_old, closed_new),
        cset_new.len() == cset_old.len() + 1,
        cset_new.len() <= g.size * g.size,
        cset_ok(g, g.size as int, cset_new, closed_new),
        closed_at(closed_new, g.size as int, node.cell()),
{
    let si = g.size as int;
    let c = node.cell();
    lemma_flat_idx_range(si, c);
    assert(!cset_old.contains(pr(c)));
    vstd::set::axiom_set_insert_len(cset_old, pr(c));
    vstd::set::axiom_set_insert_finite(cset_old, pr(c));
    assert forall|c2: Cell| g.spec_in_bounds(c2) && c2 != c implies #[trigger] closed_at(
        closed_new,
        si,
        c2,
    ) == closed_at(closed_old, si, c2) && flat_idx(si, c2) != flat_idx(si, c) by {
        lemma_flat_idx_range(si, c2);
        if flat_idx(si, c2) == flat_idx(si, c) {
            lemma_flat_idx_inj(si, c2, c);
        }
    }
    assert(closed_at(closed_new, si, c));
    assert forall|c2: Cell| g.spec_in_bounds(c2) implies (closed_at(closed_new, si, c2)
        <==> #[trigger] cset_new.contains(pr(c2))) by {
        if c2 != c {
            assert(pr(c2) != pr(c));
        }
    }
    lemma_closed_count_bound(si, cset_new);
}

/// Close step, part three: the start is finalised from the first pop
/// onward, and the popped cell's bookkeeping falls into place.
#[verifier::rlimit(100)]
proof fn lemma_close_extra(
    g: Grid,
    start: Cell,
    dest: Cell,
    heu: Heuristic,
    node: Node,
    mi: int,
    of: Seq<Node>,
    fr: Seq<Node>,
    closed_old: Seq<bool>,
    closed_new: Seq<bool>,
    open: Seq<u64>,
    parent: Seq<Option<Cell>>,
    rank_old: Map<Cell, nat>,
    rank_new: Map<Cell, nat>,
    gcl_old: Map<Cell, int>,
    gcl_new: Map<Cell, int>,
    cset_old: Set<(int, int)>,
    cset_new: Set<(int, int)>,
)
    requires
        close_pre(
            g, start, dest, heu, node, mi, of, fr, closed_old, closed_new, open, parent,
            rank_old, rank_new, gcl_old, gcl_new, cset_old, cset_new,
        ),
        close_frame(g, node.cell(), closed_old, closed_new),
        cset_new.len() == cset_old.len() + 1,
        cset_new.len() <= g.size * g.size,
        closed_at(closed_new, g.size as int, node.cell()),
    ensures
        closed_at(closed_new, g.size as int, start),
        gcl_new.contains_key(node.cell()),
        gcl_new[node.cell()] == node.g,
        rank_new.contains_key(node.cell()),
        rank_new[node.cell()] < g.size * g.size,
        node.g <= 14 * (cset_new.len() - 1),
        node.cell() != dest ==> !closed_at(closed_new, g.size as int, dest),
        node.cell() == dest ==> !closed_at(closed_old, g.size as int, dest),
{
    let si = g.size as int;
    let c = node.cell();
    assert(entry_ok(
        g,
        start,
        dest,
        heu,
        si,
        open,
        closed_old,
        parent,
        gcl_old,
        cset_old.len() as int,
        node,
    ));
    if !closed_at(closed_old, si, start) {
        assert(of[mi].cell() == start);
        assert(c == start);
    }
    assert(closed_at(closed_new, si, start));
    if c != dest {
        assert(closed_at(closed_new, si, dest) == closed_at(closed_old, si, dest));
    }
}

/// Close step: ranks, discovery and expansion marks carry over.
#[verifier::rlimit(100)]
proof fn lemma_close_marks(
    g: Grid,
    start: Cell,
    dest: Cell,
    heu: Heuristic,
    node: Node,
    mi: int,
    of: Seq<Node>,
    fr: Seq<Node>,
    closed_old: Seq<bool>,
    closed_new: Seq<bool>,
    open: Seq<u64>,
    parent: Seq<Option<Cell>>,
    rank_old: Map<Cell, nat>,
    rank_new: Map<Cell, nat>,
    gcl_old: Map<Cell, int>,
    gcl_new: Map<Cell, int>,
    cset_old: Set<(int, int)>,
    cset_new: Set<(int, int)>,
)
    requires
        close_pre(
            g, start, dest, heu, node, mi, of, fr, closed_old, closed_new, open, parent,
            rank_old, rank_new, gcl_old, gcl_new, cset_old, cset_new,
        ),
        node.f == open_at(open, g.size as int, node.cell()),
        close_frame(g, node.cell(), closed_old, closed_new),
        cset_new.len() == cset_old.len() + 1,
        closed_at(closed_new, g.size as int, node.cell()),
    ensures
        rank_bounded(g, g.size as int, closed_new, rank_new, cset_new.len() as int),
        closed_discovered(g, g.size as int, closed_new, open),
        closed_expanded_except(g, g.size as int, closed_new, open, node.cell()),
{
    let si = g.size as int;
    let c = node.cell();
    assert(entry_ok(
        g,
        start,
        dest,
        heu,
        si,
        open,
        closed_old,
        parent,
        gcl_old,
        cset_old.len() as int,
        node,
    ));
    // ranks stay below the number of finalised cells
    assert forall|c2: Cell|
        g.spec_in_bounds(c2) && #[trigger] closed_at(closed_new, si, c2) implies
        rank_new.contains_key(c2) && rank_new[c2] < cset_new.len() by {
        if c2 != c {
            assert(closed_at(closed_old, si, c2));
        }
    }
    // every finalised cell is still discovered
    assert forall|c2: Cell|
        g.spec_in_bounds(c2) && #[trigger] closed_at(closed_new, si, c2) implies open_at(
        open,
        si,
        c2,
    ) < u64::MAX by {
        if c2 != c {
            assert(closed_at(closed_old, si, c2));
        }
    }
    // steps out of previously finalised cells still reach discovered cells
    assert forall|c2: Cell, n2: Cell|
        #![trigger closed_at(closed_new, si, c2), step_ok(g, c2, n2)]
        g.spec_in_bounds(c2) && closed_at(closed_new, si, c2) && c2 != c && step_ok(
            g,
            c2,
            n2,
        ) implies open_at(open, si, n2) < u64::MAX by {
        assert(closed_at(closed_old, si, c2));
    }
}

/// Close step, part two: every finalised cell still chains to the start.
#[verifier::rlimit(100)]
proof fn lemma_close_parent(
    g: Grid,
    start: Cell,
    dest: Cell,
    heu: Heuristic,
    node: Node,
    mi: int,
    of: Seq<Node>,
    fr: Seq<Node>,
    closed_old: Seq<bool>,
    closed_new: Seq<bool>,
    open: Seq<u64>,
    parent: Seq<Option<Cell>>,
    rank_old: Map<Cell, nat>,
    rank_new: Map<Cell, nat>,
    gcl_old: Map<Cell, int>,
    gcl_new: Map<Cell, int>,
    cset_old: Set<(int, int)>,
    cset_new: Set<(int, int)>,
)
    requires
        close_pre(
            g, start, dest, heu, node, mi, of, fr, closed_old, closed_new, open, parent,
            rank_old, rank_new, gcl_old, gcl_new, cset_old, cset_new,
        ),
        node.f == open_at(open, g.size as int, node.cell()),
        live_ok(g, start, g.size as int, parent, closed_old, gcl_old, node),
        close_frame(g, node.cell(), closed_old, closed_new),
        cset_new.len() == cset_old.len() + 1,
        closed_at(closed_new, g.size as int, node.cell()),
    ensures
        parent_wf(g, start, g.size as int, parent, closed_new, rank_new, gcl_new),
{
    let si = g.size as int;
    let c = node.cell();
    assert forall|c2: Cell|
        g.spec_in_bounds(c2) && #[trigger] closed_at(closed_new, si, c2) implies closed_cell_wf(
        g,
        start,
        si,
        parent,
        closed_new,
        rank_new,
        gcl_new,
        c2,
    ) by {
        if c2 == c {
            if c != start {
                match parent_at(parent, si, c) {
                    Some(p) => {
                        assert(closed_at(closed_old, si, p));
                        assert(p != c);
                    },
                    None => {
                        assert(false);
                    },
                }
            }
        } else {
            assert(closed_at(closed_old, si, c2));
            assert(closed_cell_wf(g, start, si, parent, closed_old, rank_old, gcl_old, c2));
            if c2 != start {
                match parent_at(parent, si, c2) {
                    Some(p2) => {
                        assert(closed_at(closed_old, si, p2));
                        assert(p2 != c);
                    },
                    None => {
                        assert(false);
                    },
                }
            }
        }
    }
}

/// Close step: discovered unfinalised cells keep live records.
#[verifier::rlimit(100)]
proof fn lemma_close_reached(
    g: Grid,
    start: Cell,
    dest: Cell,
    heu: Heuristic,
    node: Node,
    mi: int,
    of: Seq<Node>,
    fr: Seq<Node>,
    closed_old: Seq<bool>,
    closed_new: Seq<bool>,
    open: Seq<u64>,
    parent: Seq<Option<Cell>>,
    rank_old: Map<Cell, nat>,
    rank_new: Map<Cell, nat>,
    gcl_old: Map<Cell, int>,
    gcl_new: Map<Cell, int>,
    cset_old: Set<(int, int)>,
    cset_new: Set<(int, int)>,
)
    requires
        close_pre(
            g, start, dest, heu, node, mi, of, fr, closed_old, closed_new, open, parent,
            rank_old, rank_new, gcl_old, gcl_new, cset_old, cset_new,
        ),
        close_frame(g, node.cell(), closed_old, closed_new),
        closed_at(closed_new, g.size as int, node.cell()),
    ensures
        discovered_reached(g, g.size as int, closed_new, open, fr),
{
    let si = g.size as int;
    let c = node.cell();
    assert forall|c2: Cell|
        g.spec_in_bounds(c2) && #[trigger] open_at(open, si, c2) < u64::MAX && !closed_at(
            closed_new,
            si,
            c2,
        ) implies exists|i: int|
        0 <= i < fr.len() && (#[trigger] fr[i]).cell() == c2 && fr[i].f == open_at(
            open,
            si,
            c2,
        ) by {
        assert(c2 != c);
        assert(!closed_at(closed_old, si, c2));
        let j = choose|j: int|
            0 <= j < of.len() && (#[trigger] of[j]).cell() == c2 && of[j].f == open_at(
                open,
                si,
                c2,
            );
        assert(j != mi);
        if j < mi {
            assert(fr[j].cell() == c2 && fr[j].f == open_at(open, si, c2));
        } else {
            assert(fr[j - 1].cell() == c2 && fr[j - 1].f == open_at(open, si, c2));
        }
    }
}

/// Close step: the remaining frontier records keep their guarantees.
#[verifier::rlimit(100)]
proof fn lemma_close_frontier(
    g: Grid,
    start: Cell,
    dest: Cell,
    heu: Heuristic,
    node: Node,
    mi: int,
    of: Seq<Node>,
    fr: Seq<Node>,
    closed_old: Seq<bool>,
    closed_new: Seq<bool>,
    open: Seq<u64>,
    parent: Seq<Option<Cell>>,
    rank_old: Map<Cell, nat>,
    rank_new: Map<Cell, nat>,
    gcl_old: Map<Cell, int>,
    gcl_new: Map<Cell, int>,
    cset_old: Set<(int, int)>,
    cset_new: Set<(int, int)>,
)
    requires
        close_pre(
            g, start, dest, heu, node, mi, of, fr, closed_old, closed_new, open, parent,
            rank_old, rank_new, gcl_old, gcl_new, cset_old, cset_new,
        ),
        close_frame(g, node.cell(), closed_old, closed_new),
        cset_new.len() == cset_old.len() + 1,
        closed_at(closed_new, g.size as int, node.cell()),
    ensures
        frontier_ok(
            g,
            start,
            dest,
            heu,
            g.size as int,
            open,
            closed_new,
            parent,
            gcl_new,
            cset_new.len() as int,
            fr,
        ),
{
    let si = g.size as int;
    let c = node.cell();
    let clen0 = cset_old.len();
    assert forall|i: int| 0 <= i < fr.len() implies entry_ok(
        g,
        start,
        dest,
        heu,
        si,
        open,
        closed_new,
        parent,
        gcl_new,
        cset_new.len() as int,
        #[trigger] fr[i],
    ) by {
        let e = if i < mi {
            of[i]
        } else {
            of[i + 1]
        };
        assert(fr[i] == e);
        assert(entry_ok(g, start, dest, heu, si, open, closed_old, parent, gcl_old, clen0 as int, e));
        let ce = e.cell();
        if !closed_at(closed_new, si, ce) && e.f == open_at(open, si, ce) {
            assert(ce != c);
            assert(!closed_at(closed_old, si, ce));
            assert(live_ok(g, start, si, parent, closed_old, gcl_old, e));
            if ce != start {
                match parent_at(parent, si, ce) {
                    Some(p2) => {
                        assert(closed_at(closed_old, si, p2));
                        assert(p2 != c);
                    },
                    None => {
                        assert(false);
                    },
                }
            }
        }
    }
}

/// Finalising the popped cell keeps every invariant: the popped record was
/// live, so the cell's recorded parent, rank and cost fall into place.
proof fn lemma_close_reestablish(
    g: Grid,
    start: Cell,
    dest: Cell,
    heu: Heuristic,
    node: Node,
    mi: int,
    of: Seq<Node>,
    fr: Seq<Node>,
    closed_old: Seq<bool>,
    closed_new: Seq<bool>,
    open: Seq<u64>,
    parent: Seq<Option<Cell>>,
    rank_old: Map<Cell, nat>,
    rank_new: Map<Cell, nat>,
    gcl_old: Map<Cell, int>,
    gcl_new: Map<Cell, int>,
    cset_old: Set<(int, int)>,
    cset_new: Set<(int, int)>,
)
    requires
        close_pre(
            g, start, dest, heu, node, mi, of, fr, closed_old, closed_new, open, parent,
            rank_old, rank_new, gcl_old, gcl_new, cset_old, cset_new,
        ),
    ensures
        node.f == open_at(open, g.size as int, node.cell()),
        cset_new.len() == cset_old.len() + 1,
        cset_new.len() <= g.size * g.size,
        cset_ok(g, g.size as int, cset_new, closed_new),
        rank_bounded(g, g.size as int, closed_new, rank_new, cset_new.len() as int),
        parent_wf(g, start, g.size as int, parent, closed_new, rank_new, gcl_new),
        closed_discovered(g, g.size as int, closed_new, open),
        discovered_reached(g, g.size as int, closed_new, open, fr),
        frontier_ok(
            g,
            start,
            dest,
            heu,
            g.size as int,
            open,
            closed_new,
            parent,
            gcl_new,
            cset_new.len() as int,
            fr,
        ),
        closed_expanded_except(g, g.size as int, closed_new, open, node.cell()),
        closed_at(closed_new, g.size as int, start),
        closed_at(closed_new, g.size as int, node.cell()),
        gcl_new.contains_key(node.cell()),
        gcl_new[node.cell()] == node.g,
        rank_new.contains_key(node.cell()),
        rank_new[node.cell()] < g.size * g.size,
        node.g <= 14 * (cset_new.len() - 1),
        node.cell() != dest ==> !closed_at(closed_new, g.size as int, dest),
        node.cell() == dest ==> !closed_at(closed_old, g.size as int, dest),
{
    lemma_close_live(
        g, start, dest, heu, node, mi, of, fr, closed_old, closed_new, open, parent, rank_old,
        rank_new, gcl_old, gcl_new, cset_old, cset_new,
    );
    lemma_close_cset(
        g, start, dest, heu, node, mi, of, fr, closed_old, closed_new, open, parent, rank_old,
        rank_new, gcl_old, gcl_new, cset_old, cset_new,
    );
    lemma_close_extra(
        g, start, dest, heu, node, mi, of, fr, closed_old, closed_new, open, parent, rank_old,
        rank_new, gcl_old, gcl_new, cset_old, cset_new,
    );
    lemma_close_marks(
        g, start, dest, heu, node, mi, of, fr, closed_old, closed_new, open, parent, rank_old,
        rank_new, gcl_old, gcl_new, cset_old, cset_new,
    );
    lemma_close_parent(
        g, start, dest, heu, node, mi, of, fr, closed_old, closed_new, open, parent, rank_old,
        rank_new, gcl_old, gcl_new, cset_old, cset_new,
    );
    lemma_close_reached(
        g, start, dest, heu, node, mi, of, fr, closed_old, closed_new, open, parent, rank_old,
        rank_new, gcl_old, gcl_new, cset_old, cset_new,
    );
    lemma_close_frontier(
        g, start, dest, heu, node, mi, of, fr, closed_old, closed_new, open, parent, rank_old,
        rank_new, gcl_old, gcl_new, cset_old, cset_new,
    );
}

/// After all eight directions are expanded, every legal step out of any
/// finalised cell reaches a discovered cell.
proof fn lemma_expand_done(
    g: Grid,
    start: Cell,
    dest: Cell,
    heu: Heuristic,
    node: Node,
    closed: Seq<bool>,
    open: Seq<u64>,
)
    requires
        g.wf(),
        g.spec_in_bounds(node.cell()),
        closed_expanded_except(g, g.size as int, closed, open, node.cell()),
        expanded_upto(g, g.size as int, open, node.cell(), 8),
    ensures
        closed_expanded(g, g.size as int, closed, open),
{
    let si = g.size as int;
    let c = node.cell();
    assert forall|c2: Cell, n2: Cell|
        #![trigger closed_at(closed, si, c2), step_ok(g, c2, n2)]
        g.spec_in_bounds(c2) && closed_at(closed, si, c2) && step_ok(g, c2, n2) implies open_at(
        open,
        si,
        n2,
    ) < u64::MAX by {
        if c2 == c {
            lemma_adjacent_dir(c, n2);
            let kk = choose|kk: int|
                0 <= kk < 8 && c.x + #[trigger] dir_dx(kk) == n2.x && c.y + dir_dy(kk) == n2.y;
            assert(nbr_exists(g, c, kk));
            assert(nbr_cell(c, kk) == n2);
            assert(g.spec_walkable(nbr_cell(c, kk)));
        }
    }
}

/// Everything the search loop maintains between iterations.
spec fn search_inv(
    g: Grid,
    start: Cell,
    dest: Cell,
    heu: Heuristic,
    closed: Seq<bool>,
    open: Seq<u64>,
    parent: Seq<Option<Cell>>,
    frontier: Seq<Node>,
    rank: Map<Cell, nat>,
    gcl: Map<Cell, int>,
    cset: Set<(int, int)>,
) -> bool {
    let s = g.size as int;
    &&& closed.len() == g.size * g.size
    &&& open.len() == g.size * g.size
    &&& parent.len() == g.size * g.size
    &&& cset_ok(g, s, cset, closed)
    &&& cset.len() <= g.size * g.size
    &&& rank_bounded(g, s, closed, rank, cset.len() as int)
    &&& parent_wf(g, start, s, parent, closed, rank, gcl)
    &&& closed_discovered(g, s, closed, open)
    &&& discovered_reached(g, s, closed, open, frontier)
    &&& frontier_ok(g, start, dest, heu, s, open, closed, parent, gcl, cset.len() as int, frontier)
    &&& closed_expanded(g, s, closed, open)
    &&& open_at(open, s, start) < u64::MAX
    &&& start_pinned(g, s, closed, frontier, start)
    &&& !closed_at(closed, s, dest)
}

/// Finalises the freshly popped cell, finishing at the destination or
/// expanding the cell's eight directions.
#[verifier::rlimit(100)]
fn finalize_and_expand(
    grid: &Grid,
    start: Cell,
    dest: Cell,
    heu: Heuristic,
    node: Node,
    Ghost(of): Ghost<Seq<Node>>,
    Ghost(mi): Ghost<int>,
    closed: &mut Vec<bool>,
    open: &mut Vec<u64>,
    parent: &mut Vec<Option<Cell>>,
    frontier: &mut Vec<Node>,
    Ghost(rank0): Ghost<Map<Cell, nat>>,
    Ghost(gcl0): Ghost<Map<Cell, int>>,
    Ghost(cset0): Ghost<Set<(int, int)>>,
) -> (r: (
    Option<(Vec<Cell>, u64)>,
    Ghost<Map<Cell, nat>>,
    Ghost<Map<Cell, int>>,
    Ghost<Set<(int, int)>>,
))
    requires
        grid.wf(),
        grid.spec_in_bounds(start),
        grid.spec_in_bounds(dest),
        search_inv(
            *grid,
            start,
            dest,
            heu,
            old(closed)@,
            old(open)@,
            old(parent)@,
            of,
            rank0,
            gcl0,
            cset0,
        ),
        0 <= mi < of.len(),
        of[mi] == node,
        forall|j: int| 0 <= j < of.len() ==> node.f <= (#[trigger] of[j]).f,
        old(frontier)@ == of.remove(mi),
        !closed_at(old(closed)@, grid.size as int, node.cell()),
    ensures
        r.0 is None ==> search_inv(
            *grid,
            start,
            dest,
            heu,
            final(closed)@,
            final(open)@,
            final(parent)@,
            final(frontier)@,
            r.1@,
            r.2@,
            r.3@,
        ),
        r.0 is None ==> r.3@.len() == cset0.len() + 1 && r.3@.len() <= grid.size * grid.size,
        r.0 matches Some(pc) ==> {
            &&& is_walk(*grid, start, dest, pc.0@)
            &&& reachable(*grid, start, dest)
            &&& walk_cost(pc.0@) == pc.1
            &&& pc.0@.len() > 0
            &&& (start == dest ==> pc.0@.len() == 1)
        },
{
    let ghost si = grid.size as int;
    let s = grid.size;
    let c = Cell { x: node.x, y: node.y };
    proof {
        assert(node.cell() == c);
        assert(entry_ok(
            *grid,
            start,
            dest,
            heu,
            si,
            open@,
            closed@,
            parent@,
            gcl0,
            cset0.len() as int,
            node,
        ));
        lemma_flat_idx_range(si, c);
        of.remove_ensures(mi);
    }
    let ci = flat_index(c.x, c.y, s);
    let ghost clen0: nat = cset0.len();
    let ghost closed_old = closed@;
    let ghost rank1 = rank0.insert(c, clen0);
    let ghost gcl1 = gcl0.insert(c, node.g as int);
    let ghost cset1 = cset0.insert(pr(c));
    closed[ci] = true;
    proof {
        lemma_close_reestablish(
            *grid,
            start,
            dest,
            heu,
            node,
            mi,
            of,
            frontier@,
            closed_old,
            closed@,
            open@,
            parent@,
            rank0,
            rank1,
            gcl0,
            gcl1,
            cset0,
            cset1,
        );
    }
    if c.x == dest.x && c.y == dest.y {
        proof {
            assert(c == dest);
        }
        let path = reconstruct_path(parent, closed, grid, start, dest, Ghost(rank1), Ghost(gcl1));
        proof {
            assert(is_walk(*grid, start, dest, path@));
            assert(reachable(*grid, start, dest));
            assert(gcl1[dest] == node.g);
        }
        return (Some((path, node.g)), Ghost(rank1), Ghost(gcl1), Ghost(cset1));
    }
    proof {
        assert(expand_inv(
            *grid,
            start,
            dest,
            heu,
            node,
            0,
            closed@,
            open@,
            parent@,
            frontier@,
            rank1,
            gcl1,
            cset1,
        ));
    }
    let mut k: usize = 0;
    while k < 8
        invariant
            s == grid.size,
            si == s as int,
            c == node.cell(),
            k <= 8,
            expand_inv(
                *grid,
                start,
                dest,
                heu,
                node,
                k as int,
                closed@,
                open@,
                parent@,
                frontier@,
                rank1,
                gcl1,
                cset1,
            ),
        decreases 8 - k,
    {
        expand_neighbor(
            grid,
            start,
            dest,
            heu,
            node,
            k,
            closed,
            open,
            parent,
            frontier,
            Ghost(rank1),
            Ghost(gcl1),
            Ghost(cset1),
        );
        k = k + 1;
    }
    proof {
        lemma_expand_done(*grid, start, dest, heu, node, closed@, open@);
        assert(start_pinned(*grid, si, closed@, frontier@, start));
    }
    (None, Ghost(rank1), Ghost(gcl1), Ghost(cset1))
}

/// One iteration of the search loop: pops the first minimal record and
/// either drops it, finishes at the destination, or finalises and expands
/// its cell. Returns the finished route and cost once the destination is
/// reached, together with the updated ghost bookkeeping.
#[verifier::rlimit(100)]
fn search_step(
    grid: &Grid,
    start: Cell,
    dest: Cell,
    heu: Heuristic,
    closed: &mut Vec<bool>,
    open: &mut Vec<u64>,
    parent: &mut Vec<Option<Cell>>,
    frontier: &mut Vec<Node>,
    Ghost(rank0): Ghost<Map<Cell, nat>>,
    Ghost(gcl0): Ghost<Map<Cell, int>>,
    Ghost(cset0): Ghost<Set<(int, int)>>,
) -> (r: (
    Option<(Vec<Cell>, u64)>,
    Ghost<Map<Cell, nat>>,
    Ghost<Map<Cell, int>>,
    Ghost<Set<(int, int)>>,
))
    requires
        grid.wf(),
        grid.spec_in_bounds(start),
        grid.spec_in_bounds(dest),
        old(frontier)@.len() > 0,
        search_inv(
            *grid,
            start,
            dest,
            heu,
            old(closed)@,
            old(open)@,
            old(parent)@,
            old(frontier)@,
            rank0,
            gcl0,
            cset0,
        ),
    ensures
        r.0 is None ==> search_inv(
            *grid,
            start,
            dest,
            heu,
            final(closed)@,
            final(open)@,
            final(parent)@,
            final(frontier)@,
            r.1@,
            r.2@,
            r.3@,
        ),
        r.0 is None ==> ((r.3@.len() == cset0.len() + 1 && r.3@.len() <= grid.size * grid.size)
            || (r.3@ == cset0 && final(frontier)@.len() < old(frontier)@.len())),
        r.0 matches Some(pc) ==> {
            &&& is_walk(*grid, start, dest, pc.0@)
            &&& reachable(*grid, start, dest)
            &&& walk_cost(pc.0@) == pc.1
            &&& pc.0@.len() > 0
            &&& (start == dest ==> pc.0@.len() == 1)
        },
{
    let ghost si = grid.size as int;
    let s = grid.size;
    let ghost of = frontier@;
    let mi = min_index(frontier);
    let node = frontier.remove(mi);
    let c = Cell { x: node.x, y: node.y };
    proof {
        assert(of[mi as int] == node);
        assert(entry_ok(
            *grid,
            start,
            dest,
            heu,
            si,
            open@,
            closed@,
            parent@,
            gcl0,
            cset0.len() as int,
            node,
        ));
        assert(node.cell() == c);
        lemma_flat_idx_range(si, c);
        of.remove_ensures(mi as int);
    }
    let ci = flat_index(c.x, c.y, s);
    if closed[ci] {
        proof {
            assert(closed_at(closed@, si, c));
            lemma_stale_reestablish(
                *grid,
                start,
                dest,
                heu,
                node,
                mi as int,
                of,
                frontier@,
                closed@,
                open@,
                parent@,
                gcl0,
                cset0.len() as int,
            );
        }
        (None, Ghost(rank0), Ghost(gcl0), Ghost(cset0))
    } else {
        finalize_and_expand(
            grid,
            start,
            dest,
            heu,
            node,
            Ghost(of),
            Ghost(mi as int),
            closed,
            open,
            parent,
            frontier,
            Ghost(rank0),
            Ghost(gcl0),
            Ghost(cset0),
        )
    }
}

/// Runs the search and returns the route together with the accumulated cost
/// the search finalised for the destination.
///
/// The route is empty exactly when the destination cannot be reached from
/// the start through walkable squares; a non-empty route is a legal walk
/// from start to destination whose per-step costs sum to the returned cost.
#[verifier::rlimit(100)]
pub fn find_path_with_cost(grid: &Grid, start: Cell, dest: Cell, heu: Heuristic) -> (r: (
    Vec<Cell>,
    u64,
))
    requires
        grid.wf(),
        grid.spec_in_bounds(start),
        grid.spec_in_bounds(dest),
    ensures
        r.0@.len() > 0 <==> reachable(*grid, start, dest),
        r.0@.len() > 0 ==> is_walk(*grid, start, dest, r.0@),
        r.0@.len() > 0 ==> walk_cost(r.0@) == r.1,
        start == dest ==> r.0@.len() == 1,
        r.0@.len() == 0 ==> r.1 == 0,
{
    let ghost si = grid.size as int;
    let s = grid.size;
    proof {
        assert(s * s <= 46340 * 46340) by (nonlinear_arith)
            requires
                0 <= s <= 46340,
        {}
    }
    let n_cells = s * s;
    let mut closed: Vec<bool> = filled(false, n_cells);
    let mut open: Vec<u64> = filled(u64::MAX, n_cells);
    let mut parent: Vec<Option<Cell>> = filled(None, n_cells);
    let mut frontier: Vec<Node> = Vec::new();
    let ghost mut rank: Map<Cell, nat> = Map::empty();
    let ghost mut gcl: Map<Cell, int> = Map::empty();
    let ghost mut cset: Set<(int, int)> = Set::empty();
    let h0 = heuristic_cost(heu, start, dest);
    proof {
        lemma_h_value_bounds(heu, start, dest, si);
        lemma_flat_idx_range(si, start);
        broadcast use vstd::set::axiom_set_empty_finite;
        broadcast use vstd::set::axiom_set_empty_len;

    }
    let sti = flat_index(start.x, start.y, s);
    open[sti] = h0;
    parent[sti] = Some(start);
    frontier.push(Node { f: h0, g: 0, x: start.x, y: start.y });
    proof {
        assert forall|c2: Cell| grid.spec_in_bounds(c2) implies !closed_at(closed@, si, c2) by {
            lemma_flat_idx_range(si, c2);
        }
        assert forall|c2: Cell|
            grid.spec_in_bounds(c2) && #[trigger] open_at(open@, si, c2) < u64::MAX implies c2
            == start by {
            lemma_flat_idx_range(si, c2);
            if c2 != start {
                lemma_flat_idx_inj(si, c2, start);
                assert(open_at(open@, si, c2) == u64::MAX);
            }
        }
        assert(open_at(open@, si, start) == h0);
        assert(frontier@[0].cell() == start);
        assert(frontier@[0].f == h0);
    }
    while frontier.len() > 0
        invariant
            grid.wf(),
            s == grid.size,
            si == s as int,
            grid.spec_in_bounds(start),
            grid.spec_in_bounds(dest),
            search_inv(
                *grid,
                start,
                dest,
                heu,
                closed@,
                open@,
                parent@,
                frontier@,
                rank,
                gcl,
                cset,
            ),
        decreases s * s - cset.len(), frontier@.len(),
    {
        let stepped = search_step(
            grid,
            start,
            dest,
            heu,
            &mut closed,
            &mut open,
            &mut parent,
            &mut frontier,
            Ghost(rank),
            Ghost(gcl),
            Ghost(cset),
        );
        proof {
            rank = stepped.1@;
            gcl = stepped.2@;
            cset = stepped.3@;
        }
        if let Some(pc) = stepped.0 {
            return pc;
        }
    }
    proof {
        // the frontier is exhausted: every discovered cell is finalised, so
        // the finalised region is closed under legal steps and the
        // destination was never reached.
        assert forall|c2: Cell|
            grid.spec_in_bounds(c2) && #[trigger] open_at(open@, si, c2) < u64::MAX implies
        closed_at(closed@, si, c2) by {
            if !closed_at(closed@, si, c2) {
                assert(exists|i: int|
                    0 <= i < frontier@.len() && (#[trigger] frontier@[i]).cell() == c2
                        && frontier@[i].f == open_at(open@, si, c2));
                assert(false);
            }
        }
        assert(closed_at(closed@, si, start));
        let cl = |c2: Cell| grid.spec_in_bounds(c2) && closed_at(closed@, si, c2);
        assert forall|a: Cell, b: Cell| #[trigger] cl(a) && #[trigger] step_ok(*grid, a, b) implies cl(
            b,
        ) by {
            assert(open_at(open@, si, b) < u64::MAX);
        }
        assert(cl(start));
        assert forall|w: Seq<Cell>| !is_walk(*grid, start, dest, w) by {
            if is_walk(*grid, start, dest, w) {
                lemma_walk_closed(*grid, start, dest, w, cl);
                assert(cl(dest));
                assert(false);
            }
        }
        assert(!reachable(*grid, start, dest));
        if start == dest {
            let w0 = seq![start];
            assert(w0[0] == start && w0[w0.len() - 1] == dest);
            assert(is_walk(*grid, start, dest, w0));
            assert(false);
        }
    }
    (Vec::new(), 0)
}

/// Runs the search and returns the route alone.
pub fn find_path(grid: &Grid, start: Cell, dest: Cell, heu: Heuristic) -> (r: Vec<Cell>)
    requires
        grid.wf(),
        grid.spec_in_bounds(start),
        grid.spec_in_bounds(dest),
    ensures
        r@.len() > 0 <==> reachable(*grid, start, dest),
        r@.len() > 0 ==> is_walk(*grid, start, dest, r@),
        start == dest ==> r@.len() == 1,
{
    let (path, _cost) = find_path_with_cost(grid, start, dest, heu);
    path
}

} // verus!
