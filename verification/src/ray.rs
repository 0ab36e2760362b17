//! Rays: a starting point and a direction.

use vstd::prelude::*;

use crate::fixed::Fixed;
use crate::vec::{Point3, Vec3};

verus! {

/// The half-line `origin + t * direction`. The direction need not have
/// length one.
#[derive(Clone, Copy, Debug, PartialEq, Eq, Structural)]
pub struct Ray {
    pub origin: Point3,
    pub direction: Vec3,
}

impl Ray {
    /// The point at parameter `t`.
    pub open spec fn at_spec(self, t: Fixed) -> Point3 {
        self.origin.add_spec(self.direction.scale_spec(t))
    }

    pub fn new(origin: Point3, direction: Vec3) -> (r: Ray)
        ensures
            r == (Ray { origin, direction }),
    {
        Ray { origin, direction }
    }

    pub fn origin(&self) -> (p: Point3)
        ensures
            p == self.origin,
    {
        self.origin
    }

    pub fn direction(&self) -> (d: Vec3)
        ensures
            d == self.direction,
    {
        self.direction
    }

    /// The point at parameter `t`, which may be negative.
    pub fn at(&self, t: Fixed) -> (p: Point3)
        ensures
            p == self.at_spec(t),
    {
        self.origin.add(self.direction.scale(t))
    }
}

} // verus!
