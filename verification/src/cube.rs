//! Boxes bounded by two pairs of axis-aligned planes.
//!
//! A [`Cube`] is the set of points whose x lies between the x of `x_min` and
//! of `x_max` and whose y lies between the y of `y_min` and of `y_max`. A ray
//! is cut against each pair of planes in turn (the slab test): each pair
//! leaves the stretch of the ray between its two crossings, and the ray
//! meets the box where the stretches overlap.

use vstd::prelude::*;

use crate::fixed::Fixed;
use crate::hit::{Hit, HitRecord};
use crate::material::{Lambertian, Material};
use crate::ray::Ray;
use crate::vec::{Point3, Vec3};

verus! {

/// The raw value of each channel of the albedo that `Cube::new` gives a box:
/// one half.
pub const GRAY_RAW: i64 = 0x8000_0000;

#[derive(Clone, Copy, Debug, PartialEq, Eq, Structural)]
pub struct Cube {
    pub x_min: Point3,
    pub x_max: Point3,
    pub y_min: Point3,
    pub y_max: Point3,
    pub mat: Material,
}

/// Where a ray crosses a face: the ray parameter and the outward normal of
/// the face.
#[derive(Clone, Copy, Debug, PartialEq, Eq, Structural)]
pub struct Crossing {
    pub t: Fixed,
    pub normal: Vec3,
}

/// What a pair of planes, or the whole box, leaves of a ray.
#[derive(Clone, Copy, Debug, PartialEq, Eq, Structural)]
pub enum Span {
    /// Nothing: the ray stays outside.
    Miss,
    /// All of it: the ray runs along the planes, between them.
    Free,
    /// The stretch from the first crossing to the second.
    Bounded(Crossing, Crossing),
}

/// The unit vector along the x axis.
pub open spec fn unit_x() -> Vec3 {
    Vec3 { x: Fixed { raw: 0x1_0000_0000 }, y: Fixed { raw: 0 }, z: Fixed { raw: 0 } }
}

/// The unit vector along the y axis.
pub open spec fn unit_y() -> Vec3 {
    Vec3 { x: Fixed { raw: 0 }, y: Fixed { raw: 0x1_0000_0000 }, z: Fixed { raw: 0 } }
}

/// What the planes at `lo` and `hi` along one axis leave of a ray that starts
/// at `o` and moves by `d` along that axis; `unit` is the unit vector of the
/// axis. The ray enters through the face it moves toward, whose outward
/// normal points against it, and leaves through the other.
pub open spec fn axis_span_spec(lo: Fixed, hi: Fixed, o: Fixed, d: Fixed, unit: Vec3) -> Span {
    if d@ == 0 {
        if lo@ <= o@ <= hi@ {
            Span::Free
        } else {
            Span::Miss
        }
    } else {
        let t_lo = lo.sub_spec(o).div_spec(d);
        let t_hi = hi.sub_spec(o).div_spec(d);
        let along = if d@ > 0 {
            unit
        } else {
            unit.neg_spec()
        };
        Span::Bounded(
            Crossing { t: t_lo.min_spec(t_hi), normal: along.neg_spec() },
            Crossing { t: t_lo.max_spec(t_hi), normal: along },
        )
    }
}

/// What is left of a ray of which `a` and `b` each leave a part: from the
/// later entry to the earlier exit. Where both enter or both leave at the
/// same parameter, the crossing of `a` stands.
pub open spec fn overlap_spec(a: Span, b: Span) -> Span {
    match (a, b) {
        (Span::Miss, _) => Span::Miss,
        (_, Span::Miss) => Span::Miss,
        (Span::Free, _) => b,
        (_, Span::Free) => a,
        (Span::Bounded(enter_a, exit_a), Span::Bounded(enter_b, exit_b)) => {
            let enter = if enter_b.t@ > enter_a.t@ {
                enter_b
            } else {
                enter_a
            };
            let exit = if exit_b.t@ < exit_a.t@ {
                exit_b
            } else {
                exit_a
            };
            if enter.t@ <= exit.t@ {
                Span::Bounded(enter, exit)
            } else {
                Span::Miss
            }
        },
    }
}

/// A bounded span does not end before it begins.
pub open spec fn span_ordered(s: Span) -> bool {
    s matches Span::Bounded(enter, exit) ==> enter.t@ <= exit.t@
}

/// In a bounded span the ray meets the face of entry from outside and the
/// face of exit from inside.
pub open spec fn span_oriented(s: Span, r: Ray) -> bool {
    s matches Span::Bounded(enter, exit) ==> HitRecord::front_face_spec(r, enter.normal)
        && !HitRecord::front_face_spec(r, exit.normal)
}

fn axis_span(lo: Fixed, hi: Fixed, o: Fixed, d: Fixed, unit: Vec3) -> (s: Span)
    ensures
        s == axis_span_spec(lo, hi, o, d, unit),
{
    if d.raw == 0 {
        if lo.raw <= o.raw && o.raw <= hi.raw {
            Span::Free
        } else {
            Span::Miss
        }
    } else {
        let t_lo = lo.sub(o).div(d);
        let t_hi = hi.sub(o).div(d);
        let along = if d.raw > 0 {
            unit
        } else {
            unit.neg()
        };
        Span::Bounded(
            Crossing { t: t_lo.min(t_hi), normal: along.neg() },
            Crossing { t: t_lo.max(t_hi), normal: along },
        )
    }
}

fn overlap(a: Span, b: Span) -> (s: Span)
    ensures
        s == overlap_spec(a, b),
{
    match (a, b) {
        (Span::Miss, _) => Span::Miss,
        (_, Span::Miss) => Span::Miss,
        (Span::Free, _) => b,
        (_, Span::Free) => a,
        (Span::Bounded(enter_a, exit_a), Span::Bounded(enter_b, exit_b)) => {
            let enter = if enter_b.t.raw > enter_a.t.raw {
                enter_b
            } else {
                enter_a
            };
            let exit = if exit_b.t.raw < exit_a.t.raw {
                exit_b
            } else {
                exit_a
            };
            if enter.t.raw <= exit.t.raw {
                Span::Bounded(enter, exit)
            } else {
                Span::Miss
            }
        },
    }
}

impl Cube {
    /// The albedo that `new` gives a box.
    pub open spec fn gray() -> Material {
        Material::Lambertian(
            Lambertian {
                albedo: Vec3 {
                    x: Fixed { raw: GRAY_RAW },
                    y: Fixed { raw: GRAY_RAW },
                    z: Fixed { raw: GRAY_RAW },
                },
            },
        )
    }

    /// What the planes across the x axis leave of the ray.
    pub open spec fn x_span_spec(self, r: Ray) -> Span {
        axis_span_spec(self.x_min.x, self.x_max.x, r.origin.x, r.direction.x, unit_x())
    }

    /// What the planes across the y axis leave of the ray.
    pub open spec fn y_span_spec(self, r: Ray) -> Span {
        axis_span_spec(self.y_min.y, self.y_max.y, r.origin.y, r.direction.y, unit_y())
    }

    /// The stretch of the ray inside the box.
    pub open spec fn span_spec(self, r: Ray) -> Span {
        overlap_spec(self.x_span_spec(r), self.y_span_spec(r))
    }

    /// The crossing that counts as the hit: the entry if its parameter lies
    /// in `[t_min, t_max]`, else the exit if its parameter does.
    pub open spec fn crossing_spec(self, r: Ray, t_min: Fixed, t_max: Fixed) -> Option<Crossing> {
        match self.span_spec(r) {
            Span::Bounded(enter, exit) => if t_min@ <= enter.t@ <= t_max@ {
                Some(enter)
            } else if t_min@ <= exit.t@ <= t_max@ {
                Some(exit)
            } else {
                None
            },
            _ => None,
        }
    }

    /// The record of a hit at the crossing `c`.
    pub open spec fn record_spec(self, r: Ray, c: Crossing) -> HitRecord {
        HitRecord {
            t: c.t,
            p: r.at_spec(c.t),
            normal: HitRecord::face_normal_spec(r, c.normal),
            front_face: HitRecord::front_face_spec(r, c.normal),
            mat: self.mat,
        }
    }

    /// The stretch of the ray inside the box does not end before it begins,
    /// and the ray meets its first face from outside and its last from
    /// inside.
    pub proof fn lemma_span(self, r: Ray)
        ensures
            span_ordered(self.span_spec(r)),
            span_oriented(self.span_spec(r), r),
    {
        let d = r.direction;
        assert(d.x@ * 0x1_0000_0000 / 0x1_0000_0000 == d.x@);
        assert(d.y@ * 0x1_0000_0000 / 0x1_0000_0000 == d.y@);
        assert((-d.x@) * 0x1_0000_0000 / 0x1_0000_0000 == -d.x@);
        assert((-d.y@) * 0x1_0000_0000 / 0x1_0000_0000 == -d.y@);
        assert(d.x@ * 0 == 0 && d.y@ * 0 == 0 && d.z@ * 0 == 0);
        assert(d.x@ * -0x1_0000_0000 == -(d.x@ * 0x1_0000_0000));
        assert(d.y@ * -0x1_0000_0000 == -(d.y@ * 0x1_0000_0000));
        assert(d.dot_spec(unit_x())@ == d.x@);
        assert(d.dot_spec(unit_y())@ == d.y@);
        assert(d.x@ > 0 ==> d.dot_spec(unit_x().neg_spec())@ < 0);
        assert(d.x@ < 0 ==> d.dot_spec(unit_x().neg_spec())@ > 0);
        assert(d.y@ > 0 ==> d.dot_spec(unit_y().neg_spec())@ < 0);
        assert(d.y@ < 0 ==> d.dot_spec(unit_y().neg_spec())@ > 0);
        assert(unit_x().neg_spec().neg_spec() == unit_x());
        assert(unit_y().neg_spec().neg_spec() == unit_y());
        assert(span_oriented(self.x_span_spec(r), r));
        assert(span_oriented(self.y_span_spec(r), r));
    }

    /// The box between the given planes, of a diffuse gray.
    pub fn new(x_min: Point3, x_max: Point3, y_min: Point3, y_max: Point3) -> (c: Cube)
        ensures
            c == (Cube { x_min, x_max, y_min, y_max, mat: Self::gray() }),
    {
        let gray = Fixed::from_raw(GRAY_RAW);
        Cube {
            x_min,
            x_max,
            y_min,
            y_max,
            mat: Material::Lambertian(Lambertian::new(Vec3::new(gray, gray, gray))),
        }
    }

    /// The same box, of the material `mat`.
    pub fn with_material(self, mat: Material) -> (c: Cube)
        ensures
            c == (Cube { mat, ..self }),
    {
        Cube { x_min: self.x_min, x_max: self.x_max, y_min: self.y_min, y_max: self.y_max, mat }
    }

    /// The stretch of the ray inside the box.
    pub fn span(&self, r: &Ray) -> (s: Span)
        ensures
            s == self.span_spec(*r),
            span_ordered(s),
            span_oriented(s, *r),
    {
        proof {
            self.lemma_span(*r);
        }
        let o = r.origin();
        let d = r.direction();
        let one = Fixed::one();
        let zero = Fixed::zero();
        let across_x = axis_span(self.x_min.x, self.x_max.x, o.x, d.x, Vec3::new(one, zero, zero));
        let across_y = axis_span(self.y_min.y, self.y_max.y, o.y, d.y, Vec3::new(zero, one, zero));
        overlap(across_x, across_y)
    }
}

impl Hit for Cube {
    open spec fn hit_spec(&self, r: Ray, t_min: Fixed, t_max: Fixed) -> Option<HitRecord> {
        match self.crossing_spec(r, t_min, t_max) {
            Some(c) => Some(self.record_spec(r, c)),
            None => None,
        }
    }

    /// The hit is where the ray enters the box, if that lies in
    /// `[t_min, t_max]`, else where it leaves, if that does. A hit on entry
    /// is on a front face, with the normal pointing out of the box; a hit on
    /// exit is on a back face, with the normal pointing into it.
    fn hit(&self, r: &Ray, t_min: Fixed, t_max: Fixed) -> (res: Option<HitRecord>)
        ensures
            res matches Some(rec) ==> {
                &&& t_min@ <= rec.t@ <= t_max@
                &&& rec.p == r.at_spec(rec.t)
                &&& rec.mat == self.mat
                &&& self.span_spec(*r) matches Span::Bounded(enter, exit) && (if rec.front_face {
                    rec.t == enter.t && rec.normal == enter.normal
                } else {
                    rec.t == exit.t && rec.normal == exit.normal.neg_spec()
                })
            },
    {
        match self.span(r) {
            Span::Bounded(enter, exit) => {
                let crossing = if t_min.raw <= enter.t.raw && enter.t.raw <= t_max.raw {
                    enter
                } else if t_min.raw <= exit.t.raw && exit.t.raw <= t_max.raw {
                    exit
                } else {
                    return None;
                };
                let mut rec = HitRecord {
                    t: crossing.t,
                    p: r.at(crossing.t),
                    normal: Vec3::zero(),
                    front_face: false,
                    mat: self.mat,
                };
                rec.set_face_normal(r, crossing.normal);
                Some(rec)
            },
            _ => None,
        }
    }

    proof fn lemma_hit_within(&self, r: Ray, t_min: Fixed, t_max: Fixed) {
    }

    proof fn lemma_hit_narrowed(&self, r: Ray, t_min: Fixed, t_max: Fixed, t_cut: Fixed) {
        self.lemma_span(r);
    }
}

} // verus!
