//! The camera: from viewport coordinates to rays.

use vstd::prelude::*;

use crate::fixed::Fixed;
use crate::ray::Ray;
use crate::vec::{Point3, Vec3};

verus! {

/// A camera at the origin that looks down the negative z axis.
#[derive(Clone, Copy, Debug, PartialEq, Eq, Structural)]
pub struct Camera {
    pub origin: Point3,
    pub lower_left_corner: Point3,
    pub horizontal: Vec3,
    pub vertical: Vec3,
}

impl Camera {
    /// The number two.
    pub open spec fn two() -> Fixed {
        Fixed { raw: 0x2_0000_0000 }
    }

    /// The camera with a viewport of the given height and of width
    /// `aspect_ratio * viewport_height`, at distance `focal_length`.
    pub open spec fn new_spec(aspect_ratio: Fixed, viewport_height: Fixed, focal_length: Fixed) -> Camera {
        let origin = Vec3::zero_spec();
        let horizontal = Vec3 {
            x: aspect_ratio.mul_spec(viewport_height),
            y: Fixed { raw: 0 },
            z: Fixed { raw: 0 },
        };
        let vertical = Vec3 { x: Fixed { raw: 0 }, y: viewport_height, z: Fixed { raw: 0 } };
        let depth = Vec3 { x: Fixed { raw: 0 }, y: Fixed { raw: 0 }, z: focal_length };
        Camera {
            origin,
            lower_left_corner: origin.sub_spec(horizontal.div_spec(Self::two())).sub_spec(
                vertical.div_spec(Self::two()),
            ).sub_spec(depth),
            horizontal,
            vertical,
        }
    }

    /// The ray from the origin through the point of the viewport at `u` of
    /// its width from the left and `v` of its height from the bottom.
    pub open spec fn get_ray_spec(self, u: Fixed, v: Fixed) -> Ray {
        Ray {
            origin: self.origin,
            direction: self.lower_left_corner.add_spec(self.horizontal.scale_spec(u)).add_spec(
                self.vertical.scale_spec(v),
            ).sub_spec(self.origin),
        }
    }

    pub fn new(aspect_ratio: Fixed, viewport_height: Fixed, focal_length: Fixed) -> (c: Camera)
        ensures
            c == Self::new_spec(aspect_ratio, viewport_height, focal_length),
    {
        let viewport_width = aspect_ratio.mul(viewport_height);
        let orig = Vec3::zero();
        let h = Vec3::new(viewport_width, Fixed::zero(), Fixed::zero());
        let v = Vec3::new(Fixed::zero(), viewport_height, Fixed::zero());
        let two = Fixed::from_int(2);
        let llc = orig.sub(h.div(two)).sub(v.div(two)).sub(
            Vec3::new(Fixed::zero(), Fixed::zero(), focal_length),
        );
        Camera { origin: orig, lower_left_corner: llc, horizontal: h, vertical: v }
    }

    pub fn get_ray(&self, u: Fixed, v: Fixed) -> (r: Ray)
        ensures
            r == self.get_ray_spec(u, v),
    {
        Ray::new(
            self.origin,
            self.lower_left_corner.add(self.horizontal.scale(u)).add(self.vertical.scale(v)).sub(
                self.origin,
            ),
        )
    }
}

} // verus!
