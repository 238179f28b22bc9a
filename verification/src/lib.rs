//! Discrete Voronoi tessellation over a rectangular grid.
//!
//! Every grid cell is labeled with the identifier of its nearest seed point
//! (nearness measured by Euclidean distance, compared exactly through squared
//! distances). Two labeling engines are provided: a deterministic sequential
//! multi-source flood fill, and the round/step schedule plus per-seed queue
//! machinery of a jump-flood variant.

use vstd::prelude::*;

pub mod geometry;
pub mod grid;
pub mod jump_flood;
pub mod model;
pub mod parse;
pub mod seq_fill;
pub mod tile;

verus! {

use crate::geometry::Point;

/// Largest grid dimension the engines accept; keeps all squared distances
/// and flat grid indices inside `usize` on every target width.
pub const MAX_DIM: usize = 32768;

/// Everything one run of the program works with: the engine inputs (seed
/// list, grid dimensions), the rendering inputs (one color per seed), and
/// the driver's flags and output paths.
pub struct ApplicationState {
    pub seeds: Vec<Point>,
    pub space_size: Point,
    pub debug_enabled: bool,
    pub output_debug_directory: String,
    pub colors: Vec<[u8; 3]>,
    pub output_filename: String,
    pub image_only: bool,
}

} // verus!
