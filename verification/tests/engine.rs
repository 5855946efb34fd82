use gridpath::grid::Cell;
use gridpath::grid::Grid;
use gridpath::heuristic::manhattan_distance;
use gridpath::heuristic::octile_distance;
use gridpath::heuristic::Heuristic;
use gridpath::search::find_path;
use gridpath::search::find_path_with_cost;

fn cell(x: usize, y: usize) -> Cell {
    Cell { x, y }
}

fn open_grid(size: usize) -> Grid {
    let tiles = vec![vec![true; size]; size];
    Grid::new(size, tiles).expect("a full square table is a valid grid")
}

/// Sums the 10/14 step costs along `path` and checks every step is one of
/// the eight legal offsets onto a walkable square.
fn check_path_and_cost(grid: &Grid, path: &[Cell]) -> u64 {
    let mut total: u64 = 0;
    for w in path.windows(2) {
        let (a, b) = (w[0], w[1]);
        let dx = (a.x as i64 - b.x as i64).abs();
        let dy = (a.y as i64 - b.y as i64).abs();
        assert!(dx <= 1 && dy <= 1 && (dx != 0 || dy != 0), "illegal step");
        assert!(b.x < grid.size && b.y < grid.size, "step leaves the board");
        assert!(grid.is_walkable(b), "step onto a blocked square");
        total += if dx == 1 && dy == 1 { 14 } else { 10 };
    }
    total
}

#[test]
fn grid_new_accepts_square_table() {
    let g = Grid::new(3, vec![vec![true; 3]; 3]);
    assert!(g.is_some());
    let g = g.unwrap();
    assert_eq!(g.size, 3);
    assert!(g.in_bounds(cell(2, 2)));
    assert!(!g.in_bounds(cell(3, 0)));
    assert!(g.is_walkable(cell(1, 1)));
}

#[test]
fn grid_new_rejects_zero_size() {
    assert!(Grid::new(0, Vec::new()).is_none());
}

#[test]
fn grid_new_rejects_wrong_row_count() {
    assert!(Grid::new(3, vec![vec![true; 3]; 2]).is_none());
}

#[test]
fn grid_new_rejects_ragged_row() {
    let tiles = vec![vec![true; 3], vec![true; 2], vec![true; 3]];
    assert!(Grid::new(3, tiles).is_none());
}

#[test]
fn grid_new_rejects_oversized_side() {
    assert!(Grid::new(46341, vec![vec![true; 1]; 1]).is_none());
}

#[test]
fn heuristic_values() {
    // |dx| = 2, |dy| = 2: scaled Manhattan 10 * 4, octile 10 * 2 + 4 * 2.
    assert_eq!(manhattan_distance(cell(0, 0), cell(2, 2)), 40);
    assert_eq!(octile_distance(cell(0, 0), cell(2, 2)), 28);
    // |dx| = 3, |dy| = 1.
    assert_eq!(manhattan_distance(cell(3, 0), cell(0, 1)), 40);
    assert_eq!(octile_distance(cell(3, 0), cell(0, 1)), 34);
    assert_eq!(manhattan_distance(cell(5, 5), cell(5, 5)), 0);
    assert_eq!(octile_distance(cell(5, 5), cell(5, 5)), 0);
}

#[test]
fn open_grid_diagonal_manhattan() {
    // 3x3 board without obstacles: the scaled-Manhattan engine takes the
    // pure diagonal here, cost 28 (this heuristic does not promise the
    // cheapest route in general, but it yields it on this board).
    let g = open_grid(3);
    let (path, cost) = find_path_with_cost(&g, cell(0, 0), cell(2, 2), Heuristic::ScaledManhattan);
    assert_eq!(path.first(), Some(&cell(0, 0)));
    assert_eq!(path.last(), Some(&cell(2, 2)));
    assert_eq!(check_path_and_cost(&g, &path), cost);
    assert_eq!(cost, 28);
    assert_eq!(path.len(), 3);
}

#[test]
fn open_grid_diagonal_octile() {
    // The octile estimate never overestimates, so the route is the minimal
    // 28 by two diagonal steps.
    let g = open_grid(3);
    let (path, cost) = find_path_with_cost(&g, cell(0, 0), cell(2, 2), Heuristic::Octile);
    assert_eq!(check_path_and_cost(&g, &path), cost);
    assert_eq!(cost, 28);
}

#[test]
fn repeated_searches_agree() {
    // Fixed grid and endpoints: repeated searches return the same route,
    // in particular routes of identical total cost.
    let mut tiles = vec![vec![true; 9]; 9];
    for x in 0..9 {
        if x != 7 {
            tiles[3][x] = false;
        }
    }
    let g = Grid::new(9, tiles).unwrap();
    let (p1, c1) = find_path_with_cost(&g, cell(0, 0), cell(8, 8), Heuristic::ScaledManhattan);
    let (p2, c2) = find_path_with_cost(&g, cell(0, 0), cell(8, 8), Heuristic::ScaledManhattan);
    assert_eq!(p1, p2);
    assert_eq!(c1, c2);
}

#[test]
fn wall_with_gap_routes_through_gap() {
    // 9x9 board, row 4 blocked except the single square (4, 4): the route
    // must cross that row, and a step changes y by at most one, so it must
    // pass through the gap.
    let mut tiles = vec![vec![true; 9]; 9];
    for x in 0..9 {
        if x != 4 {
            tiles[4][x] = false;
        }
    }
    let g = Grid::new(9, tiles).unwrap();
    let (path, cost) = find_path_with_cost(&g, cell(0, 0), cell(8, 8), Heuristic::ScaledManhattan);
    assert!(!path.is_empty());
    assert_eq!(path.first(), Some(&cell(0, 0)));
    assert_eq!(path.last(), Some(&cell(8, 8)));
    assert_eq!(check_path_and_cost(&g, &path), cost);
    assert!(path.contains(&cell(4, 4)));
}

#[test]
fn enclosed_destination_yields_empty_path() {
    // The destination square is walkable but ringed by blocked squares.
    let mut tiles = vec![vec![true; 5]; 5];
    for y in 1..=3 {
        for x in 1..=3 {
            if !(x == 2 && y == 2) {
                tiles[y][x] = false;
            }
        }
    }
    let g = Grid::new(5, tiles).unwrap();
    let (path, cost) = find_path_with_cost(&g, cell(0, 0), cell(2, 2), Heuristic::ScaledManhattan);
    assert!(path.is_empty());
    assert_eq!(cost, 0);
}

#[test]
fn unwalkable_destination_yields_empty_path() {
    let mut tiles = vec![vec![true; 4]; 4];
    tiles[3][3] = false;
    let g = Grid::new(4, tiles).unwrap();
    let path = find_path(&g, cell(0, 0), cell(3, 3), Heuristic::ScaledManhattan);
    assert!(path.is_empty());
}

#[test]
fn start_equals_destination() {
    let g = open_grid(4);
    let (path, cost) = find_path_with_cost(&g, cell(2, 1), cell(2, 1), Heuristic::ScaledManhattan);
    assert_eq!(path, vec![cell(2, 1)]);
    assert_eq!(cost, 0);
}

#[test]
fn unwalkable_start_can_still_route_out() {
    // The engine never tests the start square itself, matching the uniform
    // neighbour-only walkability check.
    let mut tiles = vec![vec![true; 3]; 3];
    tiles[0][0] = false;
    let g = Grid::new(3, tiles).unwrap();
    let path = find_path(&g, cell(0, 0), cell(2, 0), Heuristic::ScaledManhattan);
    assert_eq!(path.first(), Some(&cell(0, 0)));
    assert_eq!(path.last(), Some(&cell(2, 0)));
}

#[test]
fn straight_line_cost() {
    // Three axis-aligned steps cost exactly 30.
    let g = open_grid(4);
    let (path, cost) = find_path_with_cost(&g, cell(0, 0), cell(3, 0), Heuristic::ScaledManhattan);
    assert_eq!(cost, 30);
    assert_eq!(path.len(), 4);
    assert_eq!(check_path_and_cost(&g, &path), 30);
}
