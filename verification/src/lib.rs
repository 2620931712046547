//! A rectangular grid of typed cells with a start and an end marker, and
//! an A* search that finds a cheapest route between two cells.
//!
//! The grid ([`SearchableGrid`]) holds walls, empty cells and exactly one
//! start and one end cell. Walls are put and cleared, the markers are
//! moved, the grid is reset; an operation that would break the grid is
//! turned down with a [`GridError`] and changes nothing.
//!
//! The search ([`SearchableGrid::astar_shortest_path`]) walks the grid
//! from cell to neighbouring cell ([`get_neighbors`]), straight or, on an
//! eight-connected grid, diagonally. A diagonal step costs the square
//! root of two times what a straight step costs. Costs are numbers of
//! the form `whole + root·√2` ([`surd`]) and are compared exactly: the
//! root is never rounded. Distances and estimates are whole numbers of
//! thousandths of the side of a cell, and a straight step costs
//! [`STRAIGHT_COST`] of them.
//!
//! What the search does is laid down as a state machine in
//! [`search_model`]; what that machine finds is shown in [`search_laws`]
//! and [`optimality`]: a route wherever one exists, and a cheapest one
//! wherever the heuristic suits the grid.

pub mod astar;
pub mod cell;
pub mod coord_map;
pub mod frontier;
pub mod grid;
pub mod heuristic;
pub mod neighbors;
pub mod optimality;
pub mod route;
pub mod search_laws;
pub mod search_model;
pub mod surd;

pub use cell::{get_color, get_tile_color, CellColor, GridCellType};
pub use coord_map::{CoordMap, CoordSet};
pub use grid::{GridError, GridView, Neighborhood, SearchableGrid};
pub use heuristic::{cost_of_step, Heuristic, STRAIGHT_COST};
pub use neighbors::get_neighbors;
pub use surd::Score;
