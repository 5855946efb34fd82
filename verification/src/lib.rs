//! Grid pathfinding engine: shortest-cost routes over a square grid of
//! walkable and blocked cells, with 8-directional movement, plus the
//! re-planning policy that keeps a published path in step with the latest
//! start, destination and grid.

pub mod grid;
pub mod heuristic;
pub mod planner;
pub mod search;
pub mod walk;
