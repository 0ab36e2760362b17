use raytracer::fixed::{Fixed, ONE_RAW};
use raytracer::hit::{Hit, HitRecord};
use raytracer::material::{Lambertian, Material, Metal};
use raytracer::ray::Ray;
use raytracer::sphere::Sphere;
use raytracer::vec::Vec3;

fn fx(num: i64, den: i64) -> Fixed {
    Fixed::from_ratio(num, den)
}

fn v(x: i64, y: i64, z: i64) -> Vec3 {
    Vec3::new(Fixed::from_int(x as i32), Fixed::from_int(y as i32), Fixed::from_int(z as i32))
}

fn raw(x: i64, y: i64, z: i64) -> Vec3 {
    Vec3::new(Fixed::from_raw(x), Fixed::from_raw(y), Fixed::from_raw(z))
}

fn red() -> Material {
    Material::Lambertian(Lambertian::new(Vec3::new(fx(1, 1), fx(0, 1), fx(0, 1))))
}

fn t_min() -> Fixed {
    fx(1, 1000)
}

fn t_max() -> Fixed {
    Fixed::from_raw(i64::MAX)
}

fn unit_sphere() -> Sphere {
    Sphere::new(Vec3::zero(), fx(1, 1), red())
}

#[test]
fn new_keeps_its_arguments() {
    let metal = Material::Metal(Metal::new(v(1, 1, 1), fx(1, 5)));
    let s = Sphere::new(v(1, 2, 3), fx(7, 2), metal);
    assert_eq!(s.center, v(1, 2, 3));
    assert_eq!(s.radius, fx(7, 2));
    assert_eq!(s.mat, metal);
}

#[test]
fn ray_at_the_center_hits_at_distance_less_radius() {
    let r = Ray::new(v(0, 0, 5), v(0, 0, -1));
    let rec = unit_sphere().hit(&r, t_min(), t_max()).unwrap();
    assert_eq!(
        rec,
        HitRecord { t: fx(4, 1), p: v(0, 0, 1), normal: v(0, 0, 1), front_face: true, mat: red() }
    );
}

#[test]
fn ray_at_the_center_from_any_side() {
    let s = Sphere::new(v(1, -2, 3), fx(3, 2), red());
    for (dx, dy, dz) in [(1, 0, 0), (-1, 0, 0), (0, 1, 0), (0, -1, 0), (0, 0, 1), (0, 0, -1)] {
        let origin = v(1 - 10 * dx, -2 - 10 * dy, 3 - 10 * dz);
        let r = Ray::new(origin, v(dx, dy, dz));
        let rec = s.hit(&r, t_min(), t_max()).unwrap();
        assert_eq!(rec.t, fx(17, 2));
        assert!(rec.front_face);
        assert_eq!(rec.normal, v(-dx, -dy, -dz));
        assert_eq!(rec.p, s.center.add(rec.normal.scale(s.radius)));
        assert_eq!(rec.normal.length(), fx(1, 1));
    }
}

#[test]
fn oblique_ray_at_the_center_hits_within_tolerance() {
    // from (3, 4, 12), at distance 13 from the center, toward the center
    let origin = v(3, 4, 12);
    let r = Ray::new(origin, origin.neg().normalized());
    let rec = Sphere::new(Vec3::zero(), fx(2, 1), red()).hit(&r, t_min(), t_max()).unwrap();
    assert_eq!(rec.t.raw(), 47244640234);
    assert!((rec.t.raw() - 11 * ONE_RAW).abs() < 430);
    assert!(rec.front_face);
    assert_eq!(rec.normal, raw(991146299, 1321528402, 3964585195));
    let len = rec.normal.length().raw();
    assert!(ONE_RAW - 4 <= len && len <= ONE_RAW);
    // the normal is the unit vector from the center to the point of the hit
    assert_eq!(rec.normal, rec.p.normalized());
}

// the tolerance that is proved for a ray aimed at the center of a sphere of
// the given radius from an offset with no coordinate above `k`
fn aimed_tolerance(k: i128, radius: Fixed) -> Option<i128> {
    let error = 36 * k * k + 4 * k + 5;
    let rho = radius.raw() as i128;
    let one = ONE_RAW as i128;
    // the least `x` with `2 rho x >= error * 2^32 + x^2`, if there is one
    // below the radius
    let (mut lo, mut hi) = (0, rho.min(one / 2 - 1));
    if 2 * rho * hi < error * one + hi * hi {
        return None;
    }
    while lo < hi {
        let mid = (lo + hi) / 2;
        if 2 * rho * mid >= error * one + mid * mid {
            hi = mid;
        } else {
            lo = mid + 1;
        }
    }
    let tolerance = lo + 15 * k + 22;
    if rho >= 2 * tolerance + 18 * k {
        Some(tolerance)
    } else {
        None
    }
}

// whether the law applies; if it does, the hit is held against it
fn check_aimed(s: Sphere, origin: Vec3, k: i128) -> bool {
    let oc = origin.sub(s.center);
    for c in [oc.x(), oc.y(), oc.z()] {
        assert!((c.raw() as i128).abs() <= k * (ONE_RAW as i128));
    }
    let distance = oc.length().raw() as i128;
    let rho = s.radius.raw() as i128;
    let tolerance = match aimed_tolerance(k, s.radius) {
        Some(tolerance) if distance >= rho + tolerance => tolerance,
        _ => return false,
    };
    let r = Ray::new(origin, oc.neg().normalized());
    let rec = s.hit(&r, Fixed::zero(), t_max()).unwrap();
    let off = rec.t.raw() as i128 - (distance - rho);
    assert!(off.abs() <= tolerance, "{:?} {:?}: {} > {}", s.center, origin, off, tolerance);
    assert!(rec.front_face);
    assert_eq!(rec.p, r.at(rec.t));
    assert_eq!(rec.normal, rec.p.sub(s.center).normalized());
    let len = rec.normal.length().raw();
    assert!(ONE_RAW - 4 <= len && len <= ONE_RAW);
    true
}

#[test]
fn rays_at_the_center_hit_within_the_proved_bound() {
    let spheres = [
        Sphere::new(Vec3::zero(), fx(1, 1), red()),
        Sphere::new(v(1, -2, 3), fx(3, 2), red()),
        Sphere::new(Vec3::new(fx(-7, 2), fx(8, 1), fx(1, 3)), fx(5, 1), red()),
        Sphere::new(v(0, 0, -1), fx(1, 2), red()),
        Sphere::new(Vec3::new(fx(8, 10), fx(1, 10), fx(-8, 10)), fx(1, 5), red()),
        Sphere::new(v(2, 2, 2), fx(1, 1000), red()),
    ];
    let origins = [
        v(8, 8, 8),
        v(-8, 7, 0),
        v(3, 4, -8),
        Vec3::zero(),
        Vec3::new(fx(71, 10), fx(-13, 7), fx(8, 1)),
        Vec3::new(fx(-1, 3), fx(-8, 1), fx(-77, 10)),
        Vec3::new(fx(8, 1), fx(1, 1000), fx(-1, 1000)),
    ];
    let mut applied = 0;
    for s in spheres {
        for origin in origins {
            if check_aimed(s, origin, 16) {
                applied += 1;
            }
        }
    }
    assert!(applied >= 30);
    // so small a sphere is lost in the rounding at this distance
    assert_eq!(aimed_tolerance(16, fx(1, 1000)), None);
    assert!(check_aimed(Sphere::new(v(2, 2, 2), fx(1, 1000), red()), Vec3::new(fx(2, 1), fx(2, 1), fx(3, 1)), 1));
}

#[test]
fn rays_at_the_centers_of_the_scene_hit_within_the_proved_bound() {
    // the small sphere, seen from the camera: within 83 raw units
    let small = Sphere::new(v(0, 0, -1), fx(1, 2), red());
    assert_eq!(aimed_tolerance(1, small.radius), Some(83));
    assert!(check_aimed(small, Vec3::zero(), 1));
    // the ground, a sphere of radius 100 below the camera: within 3376 raw units
    let ground = Sphere::new(Vec3::new(fx(0, 1), fx(-1005, 10), fx(0, 1)), fx(100, 1), red());
    assert_eq!(aimed_tolerance(101, ground.radius), Some(3376));
    assert!(check_aimed(ground, Vec3::zero(), 101));
    assert!(check_aimed(ground, v(3, 1, -2), 102));
    // the metal spheres
    let left = Sphere::new(Vec3::new(fx(8, 10), fx(1, 10), fx(-8, 10)), fx(1, 5), red());
    assert!(check_aimed(left, Vec3::zero(), 1));
    // far away and large
    let far = Sphere::new(v(3000, -2000, 1000), fx(500, 1), red());
    assert!(check_aimed(far, v(-1000, 2000, 100), 4096));
}

#[test]
fn direction_need_not_be_a_unit_vector() {
    let r = Ray::new(v(0, 0, 5), v(0, 0, -2));
    let rec = unit_sphere().hit(&r, t_min(), t_max()).unwrap();
    assert_eq!(rec.t, fx(2, 1));
    assert_eq!(rec.p, v(0, 0, 1));
    assert_eq!(rec.normal, v(0, 0, 1));
}

#[test]
fn ray_that_passes_at_more_than_the_radius_misses() {
    let s = unit_sphere();
    assert_eq!(s.hit(&Ray::new(v(0, 2, 5), v(0, 0, -1)), t_min(), t_max()), None);
    assert_eq!(s.hit(&Ray::new(v(2, 0, 5), v(0, 0, -1)), t_min(), t_max()), None);
    assert_eq!(s.hit(&Ray::new(v(-5, 1, 1), v(1, 0, 0)), t_min(), t_max()), None);
    let just_outside = Ray::new(Vec3::new(fx(0, 1), fx(1001, 1000), fx(5, 1)), v(0, 0, -1));
    assert_eq!(s.hit(&just_outside, t_min(), t_max()), None);
    let just_inside = Ray::new(Vec3::new(fx(0, 1), fx(999, 1000), fx(5, 1)), v(0, 0, -1));
    assert!(s.hit(&just_inside, t_min(), t_max()).is_some());
}

#[test]
fn ray_that_passes_just_outside_misses_and_just_inside_hits() {
    // the squared passing distance against the squared radius, in raw units
    let s = Sphere::new(v(1, -2, 3), fx(3, 2), red());
    let direction = v(3, 4, 12).normalized();
    for (offset, hit) in [(1499, true), (1501, false), (1400, true), (1600, false), (0, true)] {
        // start beside the center, at `offset` thousandths across the direction
        let across = v(4, -3, 0).normalized().scale(fx(offset, 1000));
        let origin = s.center.add(across).sub(direction.scale(fx(10, 1)));
        let r = Ray::new(origin, direction);
        let oc = r.origin().sub(s.center);
        let h = oc.dot(r.direction());
        let a = r.direction().length_squared();
        let passing = oc.length_squared().sub(h.mul(h).div(a));
        let radius_squared = s.radius.mul(s.radius);
        let margin = (passing.raw() - radius_squared.raw() - 1) as i128;
        assert_eq!(margin * (a.raw() as i128) >= (ONE_RAW as i128), !hit);
        assert_eq!(s.hit(&r, t_min(), t_max()).is_some(), hit);
    }
}

#[test]
fn short_and_long_rays_that_pass_by_miss() {
    let s = Sphere::new(v(1, -2, 3), fx(3, 2), red());
    for (num, den) in [(1, 1000), (1, 16), (1, 3), (7, 1), (100, 1)] {
        let direction = v(3, 4, 12).normalized().scale(fx(num, den));
        let across = v(4, -3, 0).normalized().scale(fx(16, 10));
        let origin = s.center.add(across).sub(direction.scale(fx(3, 1)));
        let r = Ray::new(origin, direction);
        let oc = r.origin().sub(s.center);
        let h = oc.dot(r.direction());
        let a = r.direction().length_squared();
        let passing = oc.length_squared().sub(h.mul(h).div(a));
        let margin = (passing.raw() - s.radius.mul(s.radius).raw() - 1) as i128;
        assert!(margin * (a.raw() as i128) >= (ONE_RAW as i128));
        assert_eq!(s.hit(&r, t_min(), t_max()), None);
    }
}

#[test]
fn sphere_behind_the_ray_is_not_hit() {
    let r = Ray::new(v(0, 0, 5), v(0, 0, 1));
    assert_eq!(unit_sphere().hit(&r, t_min(), t_max()), None);
    // but it is when negative parameters are asked for
    let rec = unit_sphere().hit(&r, fx(-100, 1), t_max()).unwrap();
    assert_eq!(rec.t, fx(-6, 1));
}

#[test]
fn ray_from_inside_hits_the_back_face() {
    let r = Ray::new(Vec3::zero(), v(0, 0, -1));
    let rec = unit_sphere().hit(&r, t_min(), t_max()).unwrap();
    assert_eq!(
        rec,
        HitRecord { t: fx(1, 1), p: v(0, 0, -1), normal: v(0, 0, 1), front_face: false, mat: red() }
    );
}

#[test]
fn the_interval_is_closed_and_the_far_root_is_the_second_choice() {
    let s = unit_sphere();
    let r = Ray::new(v(0, 0, 5), v(0, 0, -1));
    // roots at 4 and 6
    assert_eq!(s.hit(&r, t_min(), fx(3, 1)), None);
    assert_eq!(s.hit(&r, fx(7, 1), t_max()), None);
    assert_eq!(s.hit(&r, fx(4, 1), fx(4, 1)).unwrap().t, fx(4, 1));
    assert_eq!(s.hit(&r, fx(6, 1), fx(6, 1)).unwrap().t, fx(6, 1));
    assert_eq!(s.hit(&r, fx(4, 1), fx(6, 1)).unwrap().t, fx(4, 1));
    let far = s.hit(&r, fx(9, 2), fx(10, 1)).unwrap();
    assert_eq!(far.t, fx(6, 1));
    assert!(!far.front_face);
    assert_eq!(far.normal, v(0, 0, 1));
    assert_eq!(s.hit(&r, fx(9, 2), fx(11, 2)), None);
    // an empty interval holds no hit
    assert_eq!(s.hit(&r, fx(6, 1), fx(4, 1)), None);
}

#[test]
fn sphere_without_a_positive_radius_is_never_hit() {
    let r = Ray::new(v(0, 0, 5), v(0, 0, -1));
    assert_eq!(Sphere::new(Vec3::zero(), fx(0, 1), red()).hit(&r, t_min(), t_max()), None);
    assert_eq!(Sphere::new(Vec3::zero(), fx(-1, 1), red()).hit(&r, t_min(), t_max()), None);
    assert_eq!(Sphere::new(v(0, 0, 5), fx(0, 1), red()).hit(&r, fx(-1, 1), t_max()), None);
}

#[test]
fn ray_without_a_direction_hits_nothing() {
    let s = unit_sphere();
    assert_eq!(s.hit(&Ray::new(v(0, 0, 5), Vec3::zero()), t_min(), t_max()), None);
    assert_eq!(s.hit(&Ray::new(Vec3::zero(), Vec3::zero()), t_min(), t_max()), None);
    // a direction whose squared length rounds to zero
    assert_eq!(s.hit(&Ray::new(Vec3::zero(), raw(3, 2, 1)), t_min(), t_max()), None);
}

#[test]
fn the_hit_carries_the_material_of_the_sphere() {
    let metal = Material::Metal(Metal::new(v(1, 1, 1), fx(1, 5)));
    let r = Ray::new(v(0, 0, 5), v(0, 0, -1));
    let rec = Sphere::new(Vec3::zero(), fx(1, 1), metal).hit(&r, t_min(), t_max()).unwrap();
    assert_eq!(rec.mat, metal);
}

#[test]
fn set_face_normal_turns_the_normal_against_the_ray() {
    let mut rec = HitRecord { t: fx(1, 1), p: v(1, 1, 1), normal: Vec3::zero(), front_face: false, mat: red() };
    let r = Ray::new(Vec3::zero(), v(1, 2, 0));
    rec.set_face_normal(&r, v(-1, 0, 0));
    assert!(rec.front_face);
    assert_eq!(rec.normal, v(-1, 0, 0));
    rec.set_face_normal(&r, v(0, 1, 0));
    assert!(!rec.front_face);
    assert_eq!(rec.normal, v(0, -1, 0));
    // a ray along the surface counts as coming from inside
    rec.set_face_normal(&r, v(0, 0, 1));
    assert!(!rec.front_face);
    assert_eq!(rec.normal, v(0, 0, -1));
    assert_eq!(rec.t, fx(1, 1));
    assert_eq!(rec.p, v(1, 1, 1));
    assert_eq!(rec.mat, red());
}
