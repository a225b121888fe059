//! Functions of two integer variables.
use vstd::prelude::*;

verus! {

/// Models the relationship `z = min(x, y)` as a function on the domains of `x` and `y`.
#[derive(Clone, Debug)]
pub struct Min<VX, VY> {
    pub x: VX,
    pub y: VY,
}

impl<VX, VY> Min<VX, VY> {
    /// The minimum of the two variables.
    pub fn new(x: VX, y: VY) -> (min: Self)
        ensures
            min.x == x,
            min.y == y,
    {
        Min { x, y }
    }
}

} // verus!
