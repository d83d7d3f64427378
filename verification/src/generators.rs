//! The kinds of noise.

use vstd::prelude::*;

verus! {

/// Perlin noise: see [`crate::perlin`].
#[derive(Default, Copy, Clone, PartialEq, Debug)]
pub struct Perlin {}

/// Value noise: see [`crate::value`].
#[derive(Default, Copy, Clone, PartialEq, Debug)]
pub struct Value {}

/// Simplex noise: see [`crate::simplex`].
#[derive(Default, Copy, Clone, PartialEq, Debug)]
pub struct Simplex {}

/// Cellular noise: see [`crate::cellular`].
#[derive(Default, Copy, Clone, PartialEq, Debug)]
pub struct Cellular {}

} // verus!
