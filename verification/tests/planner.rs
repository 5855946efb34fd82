use gridpath::grid::Cell;
use gridpath::grid::Grid;
use gridpath::heuristic::Heuristic;
use gridpath::planner::Planner;

fn cell(x: usize, y: usize) -> Cell {
    Cell { x, y }
}

fn open_grid(size: usize) -> Grid {
    Grid::new(size, vec![vec![true; size]; size]).unwrap()
}

#[test]
fn planner_computes_initial_route() {
    let p = Planner::new(open_grid(5), cell(0, 0), cell(4, 4), Heuristic::ScaledManhattan);
    let path = p.current_path();
    assert_eq!(path.first(), Some(&cell(0, 0)));
    assert_eq!(path.last(), Some(&cell(4, 4)));
    assert_eq!(p.current_cost(), 56);
}

#[test]
fn set_destination_replans() {
    // After the destination moves, the published route leads to the new
    // destination, never the stale one.
    let mut p = Planner::new(open_grid(6), cell(0, 0), cell(5, 5), Heuristic::ScaledManhattan);
    assert_eq!(p.current_path().last(), Some(&cell(5, 5)));
    p.set_destination(cell(0, 5));
    assert_eq!(p.current_path().first(), Some(&cell(0, 0)));
    assert_eq!(p.current_path().last(), Some(&cell(0, 5)));
    assert_eq!(p.current_cost(), 50);
}

#[test]
fn set_start_replans() {
    let mut p = Planner::new(open_grid(6), cell(0, 0), cell(5, 0), Heuristic::ScaledManhattan);
    p.set_start(cell(5, 5));
    assert_eq!(p.current_path().first(), Some(&cell(5, 5)));
    assert_eq!(p.current_path().last(), Some(&cell(5, 0)));
    assert_eq!(p.current_cost(), 50);
}

#[test]
fn set_grid_replans() {
    // A wall appears between start and destination: the route goes stale
    // only until the grid is committed, then reflects the wall.
    let mut p = Planner::new(open_grid(3), cell(0, 0), cell(2, 0), Heuristic::ScaledManhattan);
    assert_eq!(p.current_cost(), 20);
    let mut tiles = vec![vec![true; 3]; 3];
    tiles[0][1] = false;
    tiles[1][1] = false;
    p.set_grid(Grid::new(3, tiles).unwrap());
    let path = p.current_path().clone();
    assert_eq!(path.first(), Some(&cell(0, 0)));
    assert_eq!(path.last(), Some(&cell(2, 0)));
    assert!(!path.contains(&cell(1, 0)));
    assert!(!path.contains(&cell(1, 1)));
}

#[test]
fn planner_reports_no_route() {
    let mut tiles = vec![vec![true; 3]; 3];
    tiles[0][1] = false;
    tiles[1][1] = false;
    tiles[1][0] = false;
    let g = Grid::new(3, tiles).unwrap();
    let p = Planner::new(g, cell(0, 0), cell(2, 2), Heuristic::ScaledManhattan);
    assert!(p.current_path().is_empty());
    assert_eq!(p.current_cost(), 0);
}
