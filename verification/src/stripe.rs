//! The decision rule of the stripe texture.

use vstd::prelude::*;

verus! {

/// Whether the first of a stripe texture's two children paints the point
/// whose (texture-local) x coordinate has the given floor.
///
/// Stripes alternate in unit steps along the x axis: the first child paints
/// the band `[0, 1)`, the second `[1, 2)`, the first again `[2, 3)`, and
/// symmetrically below zero the second paints `[-1, 0)`. The y and z
/// coordinates never enter the decision, which is why this function does not
/// take them: bands are constant in those directions by construction.
pub fn stripe_first(floor_x: i64) -> (first: bool)
    ensures
        first == (floor_x % 2 == 0),
{
    floor_x % 2 == 0
}

} // verus!
