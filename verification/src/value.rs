//! Value noise: values at the lattice vertices, blended.

pub mod grid_2d;
pub mod grid_3d;
