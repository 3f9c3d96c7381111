//! Spatial bookkeeping for a particle simulation: a uniform grid of cells
//! that records which particles lie where, and the ordered list of particle
//! pairs that the collision pass examines.
use vstd::prelude::*;

pub mod cell;
pub mod pairs;
pub mod scan;
pub mod grid;
pub mod solver;
pub mod schedule;
pub mod frame;

verus! {

/// Width of the screen in pixels.
pub const WIDTH: usize = 1600;

/// Height of the screen in pixels.
pub const HEIGHT: usize = 1000;

/// Columns of the collision grid: the screen width (1600) divided by the
/// particle radius (2.2), rounded down.
pub const CELLS_WIDTH: usize = 727;

/// Rows of the collision grid: the screen height (1000) divided by the
/// particle radius (2.2), rounded down.
pub const CELLS_HEIGHT: usize = 454;

/// Cells of the collision grid, `CELLS_WIDTH * CELLS_HEIGHT`.
pub const NUM_CELLS: usize = 330058;

/// Where an object lies for a grid: its id and the column and row of the
/// grid square that holds its centre.
#[derive(Clone, Copy, Debug, PartialEq, Eq, Structural)]
pub struct Placement {
    pub id: usize,
    pub cell_x: usize,
    pub cell_y: usize,
}

/// The constants agree with each other.
pub proof fn lemma_num_cells()
    ensures
        NUM_CELLS == CELLS_WIDTH * CELLS_HEIGHT,
{
}

} // verus!
