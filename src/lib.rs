//! Spatial queries on 2D grids: line rasterization, field of view and A* paths.
use vstd::prelude::*;

pub mod bresenham;
pub mod colors;
pub mod component;
pub mod components;
pub mod fov;
pub mod heap;
pub mod path;
pub mod utils;
pub mod vision;

verus! {

/// A cell of a grid, as `(x, y)`.
pub type Point = (i32, i32);

} // verus!
