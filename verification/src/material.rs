//! Materials: what a surface does with the light that reaches it.

use vstd::prelude::*;

use crate::fixed::{Fixed, ONE_RAW};
use crate::hit::HitRecord;
use crate::ray::Ray;
use crate::vec::{lemma_below_by_squares, magnitude, Color, Vec3};

verus! {

/// The capability to scatter an incoming ray at a hit.
///
/// A material is a function of the incoming ray, the hit and one random point
/// of the unit ball: `scatter_spec`. `scatter` draws that point itself, so all
/// that is known of its result is that some point of the ball gives it.
pub trait Scatter {
    /// The attenuation and the outgoing ray when `sample` is the point drawn,
    /// or `None` when the light is absorbed.
    spec fn scatter_spec(&self, r_in: Ray, rec: HitRecord, sample: Vec3) -> Option<(Color, Ray)>;

    fn scatter(&self, r_in: &Ray, rec: &HitRecord) -> (res: Option<(Color, Ray)>)
        ensures
            exists|s: Vec3| #[trigger] s.in_unit_ball() && res == self.scatter_spec(*r_in, *rec, s),
    ;
}

/// A diffuse surface.
#[derive(Clone, Copy, Debug, PartialEq, Eq, Structural)]
pub struct Lambertian {
    pub albedo: Color,
}

/// A mirror, blurred by `fuzz`.
#[derive(Clone, Copy, Debug, PartialEq, Eq, Structural)]
pub struct Metal {
    pub albedo: Color,
    pub fuzz: Fixed,
}

/// The materials a surface can have.
#[derive(Clone, Copy, Debug, PartialEq, Eq, Structural)]
pub enum Material {
    Lambertian(Lambertian),
    Metal(Metal),
}

impl Lambertian {
    pub fn new(a: Color) -> (m: Lambertian)
        ensures
            m.albedo == a,
    {
        Lambertian { albedo: a }
    }

    /// The direction in which light leaves: the normal plus the unit vector
    /// toward `sample`, or the bare normal where the two cancel.
    pub open spec fn direction_spec(rec: HitRecord, sample: Vec3) -> Vec3 {
        let d = rec.normal.add_spec(sample.normalized_spec());
        if d.near_zero_spec() {
            rec.normal
        } else {
            d
        }
    }

    /// The direction in which light leaves a surface with a unit normal is
    /// the normal plus a unit vector, unless it is the bare normal: it is no
    /// longer than two, up to one raw unit, and its component along the
    /// normal is not below zero, up to six raw units.
    pub proof fn lemma_direction(rec: HitRecord, sample: Vec3)
        requires
            rec.normal.is_unit(),
        ensures
            ({
                let d = Self::direction_spec(rec, sample);
                let unit = sample.normalized_spec();
                &&& d == rec.normal || (d.sub_spec(rec.normal) == unit && unit.is_unit())
                &&& d.length_spec()@ <= 2 * ONE_RAW + 1
                &&& d.dot_spec(rec.normal)@ >= -6
            }),
    {
        let n = rec.normal;
        let unit = sample.normalized_spec();
        let sum = n.add_spec(unit);
        let d = Self::direction_spec(rec, sample);
        n.lemma_length_squared_nonneg();
        n.lemma_unit_square();
        if sample != Vec3::zero_spec() {
            sample.lemma_normalized_length();
        }
        assert(unit.within(ONE_RAW as int));
        assert(sum.x@ == n.x@ + unit.x@ && sum.y@ == n.y@ + unit.y@ && sum.z@ == n.z@ + unit.z@);
        assert(sum.sub_spec(n) == unit);
        if d != n {
            assert(d == sum);
            assert(sample != Vec3::zero_spec());
            n.lemma_triangle(unit);
            // the component along the normal
            let n2 = n.dot_exact(n);
            let u2 = unit.dot_exact(unit);
            let un = unit.dot_exact(n);
            unit.lemma_unit_square();
            unit.lemma_dot_exact_bound(n);
            let top: int = 0x1_0000_0002_0000_0001;
            let reach = n2 + 6 * 0x1_0000_0000;
            assert(un * un < reach * reach) by (nonlinear_arith)
                requires
                    un * un <= u2 * n2,
                    0 <= u2 < top,
                    0xffff_fff8_0000_0010 <= n2,
                    top == 0x1_0000_0002_0000_0001,
                    reach == n2 + 6 * 0x1_0000_0000,
            {
                assert(u2 * n2 <= top * n2);
                assert(n2 * (n2 - 0xffff_fff6_0000_0001) >= 0);
                assert(reach * reach == n2 * n2 + 12 * 0x1_0000_0000 * n2 + 36
                    * 0x1_0000_0000_0000_0000);
                assert(reach * reach > top * n2);
            }
            lemma_below_by_squares(un, reach);
            let exact = sum.dot_exact(n);
            assert(exact == n2 + un) by (nonlinear_arith)
                requires
                    exact == sum.x@ * n.x@ + sum.y@ * n.y@ + sum.z@ * n.z@,
                    sum.x@ == n.x@ + unit.x@ && sum.y@ == n.y@ + unit.y@ && sum.z@ == n.z@
                        + unit.z@,
                    n2 == n.x@ * n.x@ + n.y@ * n.y@ + n.z@ * n.z@,
                    un == unit.x@ * n.x@ + unit.y@ * n.y@ + unit.z@ * n.z@,
            ;
            sum.lemma_dot_error(n);
        }
    }

    /// Scatters with `sample` as the random point. At a surface with a unit
    /// normal the direction is the normal plus a unit vector, or the bare
    /// normal.
    pub fn scatter_with(&self, rec: &HitRecord, sample: Vec3) -> (res: (Color, Ray))
        ensures
            res.0 == self.albedo,
            res.1 == (Ray { origin: rec.p, direction: Self::direction_spec(*rec, sample) }),
            rec.normal.is_unit() ==> res.1.direction == rec.normal || (res.1.direction.sub_spec(
                rec.normal,
            ) == sample.normalized_spec() && sample.normalized_spec().is_unit()),
            rec.normal.is_unit() ==> res.1.direction.length_spec()@ <= 2 * ONE_RAW + 1
                && res.1.direction.dot_spec(rec.normal)@ >= -6,
    {
        proof {
            if rec.normal.is_unit() {
                Self::lemma_direction(*rec, sample);
            }
        }
        let mut scatter_dir = rec.normal.add(sample.normalized());
        if scatter_dir.near_zero() {
            scatter_dir = rec.normal;
        }
        (self.albedo, Ray::new(rec.p, scatter_dir))
    }
}

impl Scatter for Lambertian {
    open spec fn scatter_spec(&self, r_in: Ray, rec: HitRecord, sample: Vec3) -> Option<
        (Color, Ray),
    > {
        Some((self.albedo, Ray { origin: rec.p, direction: Self::direction_spec(rec, sample) }))
    }

    /// Never absorbs, and attenuates by exactly the albedo. At a surface with
    /// a unit normal the direction is the normal plus a unit vector, or the
    /// bare normal: it is no longer than two and does not point into the
    /// surface, up to the error of the arithmetic.
    fn scatter(&self, r_in: &Ray, rec: &HitRecord) -> (res: Option<(Color, Ray)>)
        ensures
            res matches Some(out) && out.0 == self.albedo && out.1.origin == rec.p,
            rec.normal.is_unit() ==> (res matches Some(out) && (out.1.direction == rec.normal
                || out.1.direction.sub_spec(rec.normal).is_unit()) && out.1.direction.length_spec()@
                <= 2 * ONE_RAW + 1 && out.1.direction.dot_spec(rec.normal)@ >= -6),
    {
        let sample = Vec3::random_in_unit_sphere();
        Some(self.scatter_with(rec, sample))
    }
}

impl Metal {
    pub fn new(a: Color, f: Fixed) -> (m: Metal)
        ensures
            m.albedo == a,
            m.fuzz == f,
    {
        Metal { albedo: a, fuzz: f }
    }

    /// The mirror image of the unit incoming direction at the surface.
    pub open spec fn reflected_spec(r_in: Ray, rec: HitRecord) -> Vec3 {
        r_in.direction.normalized_spec().reflect_spec(rec.normal)
    }

    /// The direction in which light would leave: the mirror direction plus
    /// `fuzz` times `sample`.
    pub open spec fn direction_spec(&self, r_in: Ray, rec: HitRecord, sample: Vec3) -> Vec3 {
        Self::reflected_spec(r_in, rec).add_spec(sample.scale_spec(self.fuzz))
    }

    /// Scatters with `sample` as the random point: the light leaves along
    /// `direction_spec` if that points away from the surface and is absorbed
    /// otherwise.
    ///
    /// A mirror without fuzz at a surface with a unit normal scatters what
    /// comes against the surface by at least 21 raw units, and what it
    /// scatters leaves along a direction of length one, up to 36 raw units,
    /// whatever the length of the incoming direction.
    pub fn scatter_with(&self, r_in: &Ray, rec: &HitRecord, sample: Vec3) -> (res: Option<
        (Color, Ray),
    >)
        ensures
            res == self.scatter_spec(*r_in, *rec, sample),
            self.fuzz@ == 0 && rec.normal.is_unit() && r_in.direction.normalized_spec().dot_spec(
                rec.normal,
            )@ <= -21 ==> res is Some,
            self.fuzz@ == 0 && rec.normal.is_unit() ==> (res matches Some(out) ==> ONE_RAW - 36
                <= out.1.direction.length_spec()@ <= ONE_RAW + 32),
    {
        proof {
            if self.fuzz@ == 0 && rec.normal.is_unit() {
                lemma_mirror_keeps_length(*self, *r_in, *rec, sample);
                if r_in.direction.normalized_spec().dot_spec(rec.normal)@ <= -21 {
                    lemma_mirror_scatters(*self, *r_in, *rec, sample);
                }
            }
        }
        let reflected = r_in.direction().normalized().reflect(rec.normal);
        let scattered = Ray::new(rec.p, reflected.add(sample.scale(self.fuzz)));
        if scattered.direction().dot(rec.normal).raw > 0 {
            Some((self.albedo, scattered))
        } else {
            None
        }
    }
}

impl Scatter for Metal {
    open spec fn scatter_spec(&self, r_in: Ray, rec: HitRecord, sample: Vec3) -> Option<
        (Color, Ray),
    > {
        let d = self.direction_spec(r_in, rec, sample);
        if d.dot_spec(rec.normal)@ > 0 {
            Some((self.albedo, Ray { origin: rec.p, direction: d }))
        } else {
            None
        }
    }

    fn scatter(&self, r_in: &Ray, rec: &HitRecord) -> (res: Option<(Color, Ray)>)
        ensures
            res matches Some(out) ==> out.0 == self.albedo && out.1.origin == rec.p
                && out.1.direction.dot_spec(rec.normal)@ > 0,
            self.fuzz@ == 0 && rec.normal.is_unit() && r_in.direction.normalized_spec().dot_spec(
                rec.normal,
            )@ <= -21 ==> res is Some,
            self.fuzz@ == 0 && rec.normal.is_unit() ==> (res matches Some(out) ==> ONE_RAW - 36
                <= out.1.direction.length_spec()@ <= ONE_RAW + 32),
    {
        let sample = Vec3::random_in_unit_sphere();
        self.scatter_with(r_in, rec, sample)
    }
}

impl Material {
    /// Scatters with `sample` as the random point, as the material it holds.
    pub fn scatter_with(&self, r_in: &Ray, rec: &HitRecord, sample: Vec3) -> (res: Option<
        (Color, Ray),
    >)
        ensures
            res == self.scatter_spec(*r_in, *rec, sample),
    {
        match self {
            Material::Lambertian(m) => Some(m.scatter_with(rec, sample)),
            Material::Metal(m) => m.scatter_with(r_in, rec, sample),
        }
    }
}

impl Scatter for Material {
    open spec fn scatter_spec(&self, r_in: Ray, rec: HitRecord, sample: Vec3) -> Option<
        (Color, Ray),
    > {
        match *self {
            Material::Lambertian(m) => m.scatter_spec(r_in, rec, sample),
            Material::Metal(m) => m.scatter_spec(r_in, rec, sample),
        }
    }

    fn scatter(&self, r_in: &Ray, rec: &HitRecord) -> (res: Option<(Color, Ray)>) {
        match self {
            Material::Lambertian(m) => m.scatter(r_in, rec),
            Material::Metal(m) => m.scatter(r_in, rec),
        }
    }
}

/// A diffuse surface never absorbs: whatever point is drawn, the light
/// leaves from the point of the hit, attenuated by exactly the albedo.
pub proof fn lemma_lambertian_always_scatters(m: Lambertian, r_in: Ray, rec: HitRecord, sample: Vec3)
    ensures
        m.scatter_spec(r_in, rec, sample) matches Some(out) && out.0 == m.albedo && out.1.origin
            == rec.p,
{
}

/// A mirror without fuzz does not depend on the point drawn. It absorbs the
/// light exactly when the mirror direction does not point away from the
/// surface; otherwise the light leaves from the point of the hit along the
/// mirror direction, attenuated by exactly the albedo.
pub proof fn lemma_mirror(m: Metal, r_in: Ray, rec: HitRecord, sample: Vec3)
    requires
        m.fuzz@ == 0,
    ensures
        m.direction_spec(r_in, rec, sample) == Metal::reflected_spec(r_in, rec),
        m.scatter_spec(r_in, rec, sample) is None <==> Metal::reflected_spec(r_in, rec).dot_spec(
            rec.normal,
        )@ <= 0,
        m.scatter_spec(r_in, rec, sample) matches Some(out) ==> out.0 == m.albedo && out.1 == (Ray {
            origin: rec.p,
            direction: Metal::reflected_spec(r_in, rec),
        }),
{
    assert(sample.x@ * 0 == 0 && sample.y@ * 0 == 0 && sample.z@ * 0 == 0);
    assert(sample.scale_spec(m.fuzz) == Vec3::zero_spec());
}

/// A metal with any fuzz scatters only away from the surface, and then
/// attenuates by exactly the albedo.
pub proof fn lemma_metal_scatters_outward(m: Metal, r_in: Ray, rec: HitRecord, sample: Vec3)
    ensures
        m.scatter_spec(r_in, rec, sample) matches Some(out) ==> out.0 == m.albedo && out.1.origin
            == rec.p && out.1.direction.dot_spec(rec.normal)@ > 0,
{
}

/// A mirror without fuzz scatters what comes against the surface. Where the
/// unit incoming direction has a component of at least 21 raw units (about
/// `5e-9`) against a unit normal, the light leaves from the point of the hit
/// along the mirror direction, attenuated by exactly the albedo, and the
/// component of the mirror direction along the normal is that of the
/// incoming direction with the sign changed, up to 20 raw units.
pub proof fn lemma_mirror_scatters(m: Metal, r_in: Ray, rec: HitRecord, sample: Vec3)
    requires
        m.fuzz@ == 0,
        rec.normal.is_unit(),
        r_in.direction.normalized_spec().dot_spec(rec.normal)@ <= -21,
    ensures
        m.scatter_spec(r_in, rec, sample) == Some(
            (m.albedo, Ray { origin: rec.p, direction: Metal::reflected_spec(r_in, rec) }),
        ),
        magnitude(
            Metal::reflected_spec(r_in, rec).dot_spec(rec.normal)@
                + r_in.direction.normalized_spec().dot_spec(rec.normal)@,
        ) <= 20,
{
    let s = ONE_RAW as int;
    let n = rec.normal;
    let u = r_in.direction.normalized_spec();
    let before = u.dot_spec(n)@;
    let after = u.reflect_spec(n).dot_spec(n)@;
    lemma_mirror(m, r_in, rec, sample);
    if r_in.direction == Vec3::zero_spec() {
        assert(0 * n.x@ == 0 && 0 * n.y@ == 0 && 0 * n.z@ == 0);
        assert(before == 0);
    }
    r_in.direction.lemma_normalized_length();
    n.lemma_unit_square();
    u.lemma_unit_square();
    u.lemma_dot_exact_bound(n);
    u.lemma_dot_error(n);
    u.lemma_reflection_law_unit(n);
    let x = u.dot_exact(n);
    let top: int = 0x1_0000_0002_0000_0001;
    assert(x * x < top * top) by (nonlinear_arith)
        requires
            x * x <= u.dot_exact(u) * n.dot_exact(n),
            0 <= u.dot_exact(u) < top,
            0 <= n.dot_exact(n) < top,
    {
        assert(u.dot_exact(u) * n.dot_exact(n) < top * top);
    }
    lemma_below_by_squares(x, top);
    assert(magnitude(before) <= s + 2);
    assert(s * magnitude(after + before) < 21 * s);
    assert(magnitude(after + before) < 21) by (nonlinear_arith)
        requires
            s * magnitude(after + before) < 21 * s,
            s > 0,
    ;
}

/// What a mirror without fuzz scatters at a surface with a unit normal
/// leaves along a direction of length one, up to 36 raw units (less than
/// `1e-8`), whatever the length of the incoming direction.
pub proof fn lemma_mirror_keeps_length(m: Metal, r_in: Ray, rec: HitRecord, sample: Vec3)
    requires
        m.fuzz@ == 0,
        rec.normal.is_unit(),
    ensures
        m.scatter_spec(r_in, rec, sample) matches Some(out) ==> ONE_RAW - 36
            <= out.1.direction.length_spec()@ <= ONE_RAW + 32,
{
    lemma_mirror(m, r_in, rec, sample);
    let n = rec.normal;
    let u = r_in.direction.normalized_spec();
    if r_in.direction == Vec3::zero_spec() {
        // the mirror image of no direction is no direction, which is absorbed
        assert(0 * n.x@ == 0 && 0 * n.y@ == 0 && 0 * n.z@ == 0);
        let d = u.dot_spec(n);
        assert(d@ == 0);
        assert(n.x@ * 0 == 0 && n.y@ * 0 == 0 && n.z@ * 0 == 0);
        assert(u.reflect_spec(n) == Vec3::zero_spec());
        assert(Vec3::zero_spec().dot_spec(n)@ == 0);
    } else {
        r_in.direction.lemma_normalized_length();
        u.lemma_reflection_length(n);
    }
}

} // verus!
