//! Spheres.

use vstd::prelude::*;

use crate::fixed::{lemma_trunc_div_monotone, saturate, trunc_div, Fixed, ONE_RAW};
use crate::hit::{Hit, HitRecord};
use crate::material::Material;
use crate::ray::Ray;
use crate::vec::{Point3, Vec3};

verus! {

/// A sphere. One whose radius is not positive is never hit.
#[derive(Clone, Copy, Debug, PartialEq, Eq, Structural)]
pub struct Sphere {
    pub center: Point3,
    pub radius: Fixed,
    pub mat: Material,
}

impl Sphere {
    /// The vector from the center to the origin of the ray.
    pub open spec fn oc_spec(self, r: Ray) -> Vec3 {
        r.origin.sub_spec(self.center)
    }

    /// The leading coefficient of the quadratic `|O + t D - C|^2 = radius^2`
    /// in `t`: the squared length of the direction.
    pub open spec fn a_spec(r: Ray) -> Fixed {
        r.direction.length_squared_spec()
    }

    /// Half the linear coefficient of the quadratic.
    pub open spec fn half_b_spec(self, r: Ray) -> Fixed {
        self.oc_spec(r).dot_spec(r.direction)
    }

    /// The constant coefficient of the quadratic.
    pub open spec fn c_spec(self, r: Ray) -> Fixed {
        self.oc_spec(r).length_squared_spec().sub_spec(self.radius.mul_spec(self.radius))
    }

    /// A quarter of the discriminant of the quadratic. It is negative when
    /// the line of the ray passes the center at more than the radius.
    pub open spec fn discriminant_spec(self, r: Ray) -> Fixed {
        let h = self.half_b_spec(r);
        h.mul_spec(h).sub_spec(Self::a_spec(r).mul_spec(self.c_spec(r)))
    }

    /// The smaller root of the quadratic.
    pub open spec fn near_root_spec(self, r: Ray) -> Fixed {
        self.half_b_spec(r).neg_spec().sub_spec(self.discriminant_spec(r).sqrt_spec()).div_spec(
            Self::a_spec(r),
        )
    }

    /// The larger root of the quadratic.
    pub open spec fn far_root_spec(self, r: Ray) -> Fixed {
        self.half_b_spec(r).neg_spec().add_spec(self.discriminant_spec(r).sqrt_spec()).div_spec(
            Self::a_spec(r),
        )
    }

    /// The ray parameter of the hit: the smaller root if it lies in
    /// `[t_min, t_max]`, else the larger root if that does.
    pub open spec fn root_spec(self, r: Ray, t_min: Fixed, t_max: Fixed) -> Option<Fixed> {
        let near = self.near_root_spec(r);
        let far = self.far_root_spec(r);
        if t_min@ <= near@ <= t_max@ {
            Some(near)
        } else if t_min@ <= far@ <= t_max@ {
            Some(far)
        } else {
            None
        }
    }

    /// The outward normal at the point `p` of the surface: the unit vector
    /// from the center toward `p`.
    pub open spec fn outward_normal_spec(self, p: Point3) -> Vec3 {
        p.sub_spec(self.center).normalized_spec()
    }

    /// The record of a hit at ray parameter `t`.
    pub open spec fn record_spec(self, r: Ray, t: Fixed) -> HitRecord {
        let p = r.at_spec(t);
        let outward = self.outward_normal_spec(p);
        HitRecord {
            t,
            p,
            normal: HitRecord::face_normal_spec(r, outward),
            front_face: HitRecord::front_face_spec(r, outward),
            mat: self.mat,
        }
    }

    /// The ray can meet the sphere at all: the radius is positive, the
    /// direction has a length, and the quadratic has real roots.
    pub open spec fn meets_spec(self, r: Ray) -> bool {
        self.radius@ > 0 && Self::a_spec(r)@ != 0 && self.discriminant_spec(r)@ >= 0
    }

    /// The smaller root is not above the larger one.
    pub proof fn lemma_roots_ordered(self, r: Ray)
        requires
            self.meets_spec(r),
        ensures
            self.near_root_spec(r)@ <= self.far_root_spec(r)@,
    {
        let a = Self::a_spec(r);
        let h = self.half_b_spec(r).neg_spec();
        let s = self.discriminant_spec(r).sqrt_spec();
        let d = self.discriminant_spec(r);
        r.direction.lemma_length_squared_nonneg();
        d.lemma_sqrt_spec();
        let lo = h.sub_spec(s);
        let hi = h.add_spec(s);
        assert(lo@ <= hi@);
        assert(lo@ * ONE_RAW <= hi@ * ONE_RAW);
        lemma_trunc_div_monotone(lo@ * ONE_RAW, hi@ * ONE_RAW, a@);
    }

    /// The squared distance at which the line of the ray passes the center:
    /// `|oc|^2 - (oc . D)^2 / |D|^2`.
    pub open spec fn passing_distance_squared_spec(self, r: Ray) -> Fixed {
        let h = self.half_b_spec(r);
        self.oc_spec(r).length_squared_spec().sub_spec(h.mul_spec(h).div_spec(Self::a_spec(r)))
    }

    /// A ray that passes the center at more than the radius misses the
    /// sphere. With the error of the arithmetic: there is no hit, whatever
    /// the interval, where the squared passing distance is above the squared
    /// radius by a margin of one raw unit and one more over the squared
    /// length of the direction: two raw units for a direction of length one,
    /// more for a shorter one, less for a longer one. It holds for a
    /// direction of any length other than zero and an origin within `2^15`
    /// of the center along the ray.
    pub proof fn lemma_passing_ray_misses(self, r: Ray, t_min: Fixed, t_max: Fixed)
        requires
            Self::a_spec(r)@ > 0,
            -0x8000_0000_0000 <= self.half_b_spec(r)@ <= 0x8000_0000_0000,
            (self.passing_distance_squared_spec(r)@ - self.radius.mul_spec(self.radius)@ - 1)
                * Self::a_spec(r)@ >= ONE_RAW,
        ensures
            self.discriminant_spec(r)@ < 0,
            self.hit_spec(r, t_min, t_max) is None,
    {
        let s = ONE_RAW as int;
        let a = Self::a_spec(r)@;
        let hb = self.half_b_spec(r);
        let h = hb.mul_spec(hb)@;
        let far = self.oc_spec(r).length_squared_spec()@;
        let rr = self.radius.mul_spec(self.radius)@;
        let c = self.c_spec(r)@;
        let g = hb.mul_spec(hb).div_spec(Self::a_spec(r))@;
        self.oc_spec(r).lemma_length_squared_nonneg();
        Vec3::lemma_square_nonneg(self.radius);
        Vec3::lemma_square_nonneg(hb);
        let square = hb@ * hb@;
        assert(0 <= square <= 0x4000_0000_0000_0000_0000_0000) by (nonlinear_arith)
            requires
                square == hb@ * hb@,
                -0x8000_0000_0000 <= hb@ <= 0x8000_0000_0000,
        ;
        assert(0 <= h <= 0x4000_0000_0000_0000);
        // the quotient of the squared half coefficient by the leading one
        let n = h * s;
        let g0 = n / a;
        vstd::arithmetic::div_mod::lemma_fundamental_div_mod(n, a);
        vstd::arithmetic::div_mod::lemma_mod_bound(n, a);
        vstd::arithmetic::div_mod::lemma_div_pos_is_pos(n, a);
        assert(g == saturate(g0));
        assert(c == far - rr);
        let margin = self.passing_distance_squared_spec(r)@ - rr;
        assert(margin >= 2) by (nonlinear_arith)
            requires
                (margin - 1) * a >= s,
                a > 0,
                s > 0,
        ;
        assert(g == g0);
        assert(c == g0 + margin);
        // so the product of the leading and the constant coefficient is the larger
        let p = a * c;
        assert(p >= s * (h + 1)) by (nonlinear_arith)
            requires
                p == a * c,
                c == g0 + margin,
                n == a * g0 + n % a,
                0 <= n % a < a,
                n == h * s,
                (margin - 1) * a >= s,
        {
            assert(a * (g0 + margin) == a * g0 + a + (margin - 1) * a);
        }
        assert(trunc_div(p, s) >= h + 1);
        assert(Self::a_spec(r).mul_spec(self.c_spec(r))@ >= h + 1);
    }

    pub fn new(center: Point3, radius: Fixed, mat: Material) -> (s: Sphere)
        ensures
            s == (Sphere { center, radius, mat }),
    {
        Sphere { center, radius, mat }
    }
}

impl Hit for Sphere {
    open spec fn hit_spec(&self, r: Ray, t_min: Fixed, t_max: Fixed) -> Option<HitRecord> {
        if self.meets_spec(r) {
            match self.root_spec(r, t_min, t_max) {
                Some(t) => Some(self.record_spec(r, t)),
                None => None,
            }
        } else {
            None
        }
    }

    /// Solves the quadratic for the ray parameter. There is no hit where the
    /// discriminant is negative; otherwise the hit is at the smaller root if
    /// that lies in `[t_min, t_max]`, else at the larger one if that does.
    /// The normal of the hit is the unit vector from the center toward the
    /// point of the hit, or its opposite for a ray from inside.
    fn hit(&self, r: &Ray, t_min: Fixed, t_max: Fixed) -> (res: Option<HitRecord>)
        ensures
            self.discriminant_spec(*r)@ < 0 ==> res is None,
            res matches Some(rec) ==> {
                &&& t_min@ <= rec.t@ <= t_max@
                &&& rec.t == self.near_root_spec(*r) || rec.t == self.far_root_spec(*r)
                &&& rec.p == r.at_spec(rec.t)
                &&& rec.mat == self.mat
                &&& rec.front_face == (r.direction.dot_spec(self.outward_normal_spec(rec.p))@ < 0)
                &&& rec.front_face ==> rec.normal == self.outward_normal_spec(rec.p)
                &&& !rec.front_face ==> rec.normal == self.outward_normal_spec(rec.p).neg_spec()
                &&& rec.p.sub_spec(self.center) != Vec3::zero_spec() ==> rec.normal.is_unit()
            },
    {
        if self.radius.raw <= 0 {
            return None;
        }
        let oc = r.origin().sub(self.center);
        let a = r.direction().length_squared();
        if a.raw == 0 {
            return None;
        }
        let half_b = oc.dot(r.direction());
        let c = oc.length_squared().sub(self.radius.mul(self.radius));
        let discriminant = half_b.mul(half_b).sub(a.mul(c));
        if discriminant.raw < 0 {
            return None;
        }
        let sqrtd = discriminant.sqrt();
        let mut root = half_b.neg().sub(sqrtd).div(a);
        if root.raw < t_min.raw || t_max.raw < root.raw {
            root = half_b.neg().add(sqrtd).div(a);
            if root.raw < t_min.raw || t_max.raw < root.raw {
                return None;
            }
        }
        let mut rec = HitRecord {
            t: root,
            p: r.at(root),
            normal: Vec3::zero(),
            front_face: false,
            mat: self.mat,
        };
        let outward_normal = rec.p.sub(self.center).normalized();
        proof {
            if rec.p.sub_spec(self.center) != Vec3::zero_spec() {
                outward_normal.lemma_neg_is_unit();
            }
        }
        rec.set_face_normal(r, outward_normal);
        Some(rec)
    }

    proof fn lemma_hit_within(&self, r: Ray, t_min: Fixed, t_max: Fixed) {
    }

    proof fn lemma_hit_narrowed(&self, r: Ray, t_min: Fixed, t_max: Fixed, t_cut: Fixed) {
        if self.meets_spec(r) {
            self.lemma_roots_ordered(r);
        }
    }
}

} // verus!
