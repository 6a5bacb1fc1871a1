use vstd::prelude::*;

verus! {

/// An integer position: a voxel, or a chunk in the grid of chunks.
#[derive(Clone, Copy, PartialEq, Eq, Hash, Debug, Structural)]
pub struct V3i {
    pub x: i32,
    pub y: i32,
    pub z: i32,
}

} // verus!
