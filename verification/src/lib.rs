//! A Monte-Carlo ray tracer over fixed-point arithmetic.
//!
//! For each pixel, rays are cast from a [`camera::Camera`] into a
//! [`hit::World`] of primitives, followed through the scattering of
//! diffuse and metal [`material`]s, and averaged into a color by
//! [`render::compute_pixel_color`].
//!
//! Every quantity is a [`fixed::Fixed`]: a signed number with 32 fractional
//! bits whose operations round toward zero and saturate at the ends of the
//! range. Each function is described by a spec function over the raw
//! integers, so that what a call returns can be computed by hand, and the
//! laws of the geometry are proved with the error of the arithmetic spelled
//! out:
//!
//! - the unit vector of any vector other than zero has length one
//!   ([`vec::Vec3::lemma_normalized_length`]), a sum is no longer than its
//!   parts together ([`vec::Vec3::lemma_triangle`]);
//! - a mirror image has the opposite component along the normal
//!   ([`vec::Vec3::lemma_reflection_law`],
//!   [`vec::Vec3::lemma_reflection_law_unit`]) and the length of the vector
//!   ([`vec::Vec3::lemma_reflection_length`]);
//! - a ray aimed at the center of a sphere hits it at the distance less the
//!   radius ([`aim::lemma_aimed_ray_hits`]), and one that passes the center
//!   at more than the radius misses it
//!   ([`sphere::Sphere::lemma_passing_ray_misses`]);
//! - a scene is hit at its nearest object, in whatever order the objects
//!   were added ([`hit::lemma_nearest_is_nearest`],
//!   [`hit::lemma_nearest_order_free`]);
//! - a diffuse surface always scatters, along its normal plus a unit vector
//!   ([`material::lemma_lambertian_always_scatters`],
//!   [`material::Lambertian::lemma_direction`]); a mirror scatters what comes
//!   against the surface and absorbs what would go into it
//!   ([`material::lemma_mirror_scatters`], [`material::lemma_mirror`]);
//! - a path without bounces is black, and the sky is nowhere darker than one
//!   half ([`render::lemma_depth_zero_black`],
//!   [`render::lemma_background_is_sky`]).
//!
//! The bounds are in raw units of `2^-32`, about `2.3e-10`: what one rounded
//! operation loses. A result of several operations is off by several units,
//! and each law says by how many.
//!
//! Randomness comes from the thread-local generator of `rand`, through
//! [`random`]. A function that draws random numbers promises that its result
//! is what its spec function gives for some admissible draws; beside it
//! stands a function that takes the draws as arguments.

pub mod fixed;
pub mod random;
pub mod vec;
pub mod ray;
pub mod hit;
pub mod material;
pub mod sphere;
pub mod aim;
pub mod cube;
pub mod shape;
pub mod camera;
pub mod render;
