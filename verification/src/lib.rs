//! Hamiltonian paths on rectangular grids: a budgeted backtracking search
//! with parity pre-checks, neighbour ranking and connectivity pruning, and
//! the conversion of a path into per-cell connection data.
//!
//! The search is stated against a mathematical model ([`model`]); its laws
//! are proved in [`laws`] and [`completeness`].

pub mod bitset;
pub mod completeness;
pub mod connectivity;
pub mod geometry;
pub mod laws;
pub mod model;
pub mod neighbors;
pub mod ranking;
pub mod road;
pub mod search;
pub mod stable_sort;

pub use bitset::VisitedBitset;
pub use connectivity::{first_unvisited, is_likely_articulation_point, is_remaining_connected};
pub use geometry::{
    cell_parity, get_cell_parity, has_different_parity, is_corner, is_edge, is_in_bounds,
    manhattan_distance, GridSize, Point,
};
pub use neighbors::{count_unvisited_neighbors, direction, get_unvisited_neighbors};
pub use ranking::{calculate_neighbor_priority, sort_by_warnsdorff};
pub use search::{
    backtrack, find_hamiltonian_path, find_hamiltonian_path_internal, is_valid_request,
    PathResult,
};
pub use road::{path_to_road_grid, path_to_road_grid_internal, CellData};
