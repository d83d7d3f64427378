//! Grid noise on lattices: Perlin, value, simplex and cellular noise.
//!
//! The library holds everything of the generators that is not floating-point
//! arithmetic: how lattice vertices are hashed, how the samples of a grid fall
//! into lattice cells, which hashes each sample is blended from, in which
//! blocks the values go into the output, and how octaves are combined there.
//! The arithmetic on the samples is handed in as functions of the caller.
//!
//! - [`lanes`] holds the registers that the hashes are computed in, and
//!   [`hash`], [`tiling`], [`columns`] and [`lane_coords`] the hashes;
//! - [`cells`] and [`grid_data`] say how a grid lies on the lattice;
//! - [`combine`] folds values into the output; [`interpolation`] cuts rows into
//!   registers, [`blending`], [`bands`] and [`slabs`] say in which order they are
//!   filled, and [`registers`] what each of them goes through;
//! - [`perlin`], [`value`], [`cellular`] and [`simplex`] are the generators.

pub mod bands;
pub mod blending;
pub mod buffers;
pub mod cells;
pub mod cellular;
pub mod columns;
pub mod combine;
pub mod generators;
pub mod grid_data;
pub mod hash;
pub mod interpolation;
pub mod lane_coords;
pub mod lanes;
pub mod perlin;
pub mod registers;
pub mod simplex;
pub mod slabs;
pub mod tiling;
pub mod value;

pub use generators::{Cellular, Perlin, Simplex, Value};
