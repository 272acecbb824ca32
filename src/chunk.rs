//! Coordinates of a chunk of the instance grid.
use vstd::prelude::*;

verus! {

/// A chunk of the grid, addressed by its column and row.
#[derive(Clone, Copy, Debug, Hash, PartialEq, Eq, Structural)]
pub struct Chunk {
    pub x: i32,
    pub y: i32,
}

} // verus!
