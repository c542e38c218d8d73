//! Rays.

use crate::vector::{Point, Vec3};
use vstd::prelude::*;

verus! {

/// A half-line: it starts at `origin` and runs along `direction`, whose
/// length matters and is never normalised.
#[derive(Clone, Copy, Debug, PartialEq, Eq, Structural)]
pub struct Ray {
    pub origin: Point,
    pub direction: Point,
}

impl Ray {
    /// The origin lies inside the world, and so does the direction when it is
    /// laid off from the centre of the world.
    pub open spec fn wf(self) -> bool {
        self.origin.in_world() && self.direction.in_world()
    }

    /// The place reached at parameter `t / SCALE`: the origin plus so many
    /// directions, rounded down.
    pub open spec fn at(self, t: int) -> Vec3 {
        self.origin@.plus(self.direction@.scaled(t))
    }

    /// The ray from `origin` along `direction`.
    pub fn new(origin: Point, direction: Point) -> (ray: Ray)
        ensures
            ray == (Ray { origin, direction }),
    {
        Ray { origin, direction }
    }

    /// Tells whether the ray is well formed.
    pub fn check_wf(&self) -> (b: bool)
        ensures
            b == self.wf(),
    {
        self.origin.check_in_world() && self.direction.check_in_world()
    }
}

} // verus!
