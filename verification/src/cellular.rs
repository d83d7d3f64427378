//! Cellular noise: the distance to the nearest of the points that are scattered
//! over the lattice, one in each cell.

pub mod batch_2d;
pub mod grid_2d;
