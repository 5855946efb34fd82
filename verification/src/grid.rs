//! Cells and the walkability grid.

use vstd::prelude::*;

verus! {

/// Largest accepted grid side length; keeps every cost value computed by the
/// search comfortably inside `u64` (costs stay below `14 * size * size + 20 * size`).
pub const MAX_GRID_SIZE: usize = 46340;

/// An integer coordinate pair addressing one square of the grid,
/// `0 <= x, y < size`.
#[derive(Clone, Copy, PartialEq, Eq, Structural, Debug)]
pub struct Cell {
    pub x: usize,
    pub y: usize,
}

/// A square board of walkable and blocked squares: a `size` x `size` table,
/// `tiles[y][x]` true when the square can be stepped on.
pub struct Grid {
    pub size: usize,
    pub tiles: Vec<Vec<bool>>,
}

impl Grid {
    /// A well-formed grid: positive bounded side length and a full square table.
    pub open spec fn wf(self) -> bool {
        &&& 1 <= self.size <= MAX_GRID_SIZE
        &&& self.tiles@.len() == self.size
        &&& forall|y: int| 0 <= y < self.size ==> (#[trigger] self.tiles@[y])@.len() == self.size
    }

    pub open spec fn spec_in_bounds(&self, c: Cell) -> bool {
        c.x < self.size && c.y < self.size
    }

    /// Whether `c` is inside the board.
    #[verifier::when_used_as_spec(spec_in_bounds)]
    pub fn in_bounds(&self, c: Cell) -> (r: bool)
        ensures
            r == self.spec_in_bounds(c),
    {
        c.x < self.size && c.y < self.size
    }

    pub open spec fn spec_walkable(&self, c: Cell) -> bool {
        self.tiles@[c.y as int]@[c.x as int]
    }

    /// Whether the in-bounds square `c` can be stepped on.
    #[verifier::when_used_as_spec(spec_walkable)]
    pub fn is_walkable(&self, c: Cell) -> (r: bool)
        requires
            self.wf(),
            self.spec_in_bounds(c),
        ensures
            r == self.spec_walkable(c),
    {
        self.tiles[c.y][c.x]
    }

    /// Builds a grid after validating the declared size against the table:
    /// `None` exactly when the configuration is invalid.
    pub fn new(size: usize, tiles: Vec<Vec<bool>>) -> (r: Option<Grid>)
        ensures
            r is Some <==> (Grid { size, tiles }).wf(),
            r matches Some(g) ==> g == (Grid { size, tiles }),
    {
        if size < 1 || size > MAX_GRID_SIZE {
            return None;
        }
        if tiles.len() != size {
            return None;
        }
        let mut y: usize = 0;
        while y < size
            invariant
                y <= size,
                size == tiles@.len(),
                forall|i: int| 0 <= i < y ==> (#[trigger] tiles@[i])@.len() == size,
            decreases size - y,
        {
            if tiles[y].len() != size {
                return None;
            }
            y = y + 1;
        }
        Some(Grid { size, tiles })
    }
}

} // verus!
