use vstd::prelude::*;

use crate::bounding_box::{box_of, BoundingBox};
use crate::point::Position;

verus! {

/// The componentwise minimum and maximum of the positions; with none, the
/// minimum is `i64::MAX` and the maximum `-i64::MAX` on every axis.
pub fn min_max(inputs: &[Position]) -> (r: (Position, Position))
    ensures
        inputs@.len() > 0 ==> r.0 == box_of(inputs@).min && r.1 == box_of(inputs@).max,
        inputs@.len() == 0 ==> r.0 == (Position { x: i64::MAX, y: i64::MAX, z: i64::MAX })
            && r.1.x == -i64::MAX && r.1.y == -i64::MAX && r.1.z == -i64::MAX,
{
    if inputs.len() == 0 {
        return (
            Position { x: i64::MAX, y: i64::MAX, z: i64::MAX },
            Position { x: -i64::MAX, y: -i64::MAX, z: -i64::MAX },
        );
    }
    let b = BoundingBox::from_positions(inputs);
    (b.min, b.max)
}

} // verus!
