//! The primitives a scene can mix.

use vstd::prelude::*;

use crate::cube::Cube;
use crate::fixed::Fixed;
use crate::hit::{Hit, HitRecord};
use crate::ray::Ray;
use crate::sphere::Sphere;

verus! {

/// A sphere or a box, hit as the primitive it holds.
#[derive(Clone, Copy, Debug, PartialEq, Eq, Structural)]
pub enum Shape {
    Sphere(Sphere),
    Cube(Cube),
}

impl Hit for Shape {
    open spec fn hit_spec(&self, r: Ray, t_min: Fixed, t_max: Fixed) -> Option<HitRecord> {
        match *self {
            Shape::Sphere(s) => s.hit_spec(r, t_min, t_max),
            Shape::Cube(c) => c.hit_spec(r, t_min, t_max),
        }
    }

    fn hit(&self, r: &Ray, t_min: Fixed, t_max: Fixed) -> (res: Option<HitRecord>) {
        match self {
            Shape::Sphere(s) => s.hit(r, t_min, t_max),
            Shape::Cube(c) => c.hit(r, t_min, t_max),
        }
    }

    proof fn lemma_hit_within(&self, r: Ray, t_min: Fixed, t_max: Fixed) {
        match *self {
            Shape::Sphere(s) => s.lemma_hit_within(r, t_min, t_max),
            Shape::Cube(c) => c.lemma_hit_within(r, t_min, t_max),
        }
    }

    proof fn lemma_hit_narrowed(&self, r: Ray, t_min: Fixed, t_max: Fixed, t_cut: Fixed) {
        match *self {
            Shape::Sphere(s) => s.lemma_hit_narrowed(r, t_min, t_max, t_cut),
            Shape::Cube(c) => c.lemma_hit_narrowed(r, t_min, t_max, t_cut),
        }
    }
}

} // verus!
