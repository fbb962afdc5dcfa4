#![verifier::loop_isolation(false)]

use vstd::prelude::*;

pub mod aldous_broder;
pub mod binary_tree;
pub mod cell;
pub mod distances;
pub mod grid;
pub mod hunt_and_kill;
pub mod pathfind;
pub mod reach;
pub mod recursive_backtracker;
pub mod rng;
pub mod side_winder;
pub mod wilsons;

pub use aldous_broder::AldousBroder;
pub use binary_tree::BinaryTree;
pub use cell::Coord;
pub use cell::GridCell;
pub use distances::Distances;
pub use grid::Grid;
pub use hunt_and_kill::HuntAndKill;
pub use recursive_backtracker::RecursiveBacktracker;
pub use rng::RandomSource;
pub use side_winder::SideWinder;
pub use wilsons::Wilsons;

verus! {

/// The failures this library can report: zero-sized grids, coordinate
/// lookups outside the grid extent, and distance queries for cells that
/// breadth-first search never reached.
#[derive(Debug, Clone, Copy, PartialEq, Eq, Structural)]
pub enum MazeError {
    InvalidDimensions,
    CellOutOfBounds,
    CoordNotReached,
}

} // verus!
