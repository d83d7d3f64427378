//! Simplex noise: gradients at the vertices of a skewed lattice, each of which
//! fades out with the distance.

pub mod batch_2d;
pub mod counts;
pub mod grid_2d;
