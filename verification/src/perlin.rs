//! Perlin noise: gradients at the lattice vertices, dotted with the distance
//! to them and blended.

pub mod dots;
pub mod grid_2d;
pub mod grid_3d;
