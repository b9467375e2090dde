use vstd::prelude::*;

use crate::bounding_box::BoundingBox;

verus! {

/// A cell of one level: its key and its box.
pub struct LOD {
    pub x: i32,
    pub y: i32,
    pub z: i32,
    pub bounds: BoundingBox,
}

impl LOD {
    pub fn new(x: i32, y: i32, z: i32, bounds: BoundingBox) -> (l: LOD)
        ensures
            l.x == x && l.y == y && l.z == z && l.bounds == bounds,
    {
        LOD { x, y, z, bounds }
    }
}

} // verus!
