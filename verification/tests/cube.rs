use raytracer::cube::{Crossing, Cube, Span, GRAY_RAW};
use raytracer::fixed::Fixed;
use raytracer::hit::{Hit, HitRecord};
use raytracer::material::{Lambertian, Material, Metal};
use raytracer::ray::Ray;
use raytracer::vec::Vec3;

fn fx(num: i64, den: i64) -> Fixed {
    Fixed::from_ratio(num, den)
}

fn v(x: i64, y: i64, z: i64) -> Vec3 {
    Vec3::new(Fixed::from_int(x as i32), Fixed::from_int(y as i32), Fixed::from_int(z as i32))
}

fn t_min() -> Fixed {
    fx(1, 1000)
}

fn t_max() -> Fixed {
    Fixed::from_raw(i64::MAX)
}

fn gray() -> Material {
    Material::Lambertian(Lambertian::new(Vec3::new(fx(1, 2), fx(1, 2), fx(1, 2))))
}

// x in [-1, 1], y in [-1, 1]
fn unit_box() -> Cube {
    Cube::new(v(-1, 0, 0), v(1, 0, 0), v(0, -1, 0), v(0, 1, 0))
}

fn crossing(t: Fixed, normal: Vec3) -> Crossing {
    Crossing { t, normal }
}

#[test]
fn new_keeps_the_planes_and_is_gray() {
    let c = Cube::new(v(1, 2, 3), v(4, 5, 6), v(7, 8, 9), v(10, 11, 12));
    assert_eq!(c.x_min, v(1, 2, 3));
    assert_eq!(c.x_max, v(4, 5, 6));
    assert_eq!(c.y_min, v(7, 8, 9));
    assert_eq!(c.y_max, v(10, 11, 12));
    assert_eq!(GRAY_RAW, 1 << 31);
    assert_eq!(c.mat, gray());
}

#[test]
fn with_material_changes_only_the_material() {
    let metal = Material::Metal(Metal::new(v(1, 1, 1), fx(1, 10)));
    let c = Cube::new(v(1, 2, 3), v(4, 5, 6), v(7, 8, 9), v(10, 11, 12));
    let m = c.with_material(metal);
    assert_eq!(m.mat, metal);
    assert_eq!((m.x_min, m.x_max, m.y_min, m.y_max), (c.x_min, c.x_max, c.y_min, c.y_max));
}

#[test]
fn span_along_an_axis() {
    let along_x = Ray::new(v(-5, 0, 0), v(1, 0, 0));
    assert_eq!(
        unit_box().span(&along_x),
        Span::Bounded(crossing(fx(4, 1), v(-1, 0, 0)), crossing(fx(6, 1), v(1, 0, 0)))
    );
    let against_x = Ray::new(Vec3::new(fx(5, 1), fx(1, 2), fx(9, 1)), v(-2, 0, 0));
    assert_eq!(
        unit_box().span(&against_x),
        Span::Bounded(crossing(fx(2, 1), v(1, 0, 0)), crossing(fx(3, 1), v(-1, 0, 0)))
    );
    let along_y = Ray::new(v(1, -3, 0), v(0, 1, 0));
    assert_eq!(
        unit_box().span(&along_y),
        Span::Bounded(crossing(fx(2, 1), v(0, -1, 0)), crossing(fx(4, 1), v(0, 1, 0)))
    );
}

#[test]
fn span_of_a_diagonal_ray_is_the_overlap() {
    // x in [-1, 1] for t in [2, 4], y in [-1, 1] for t in [1, 3]
    let r = Ray::new(v(-3, -2, 0), v(1, 1, 0));
    assert_eq!(
        unit_box().span(&r),
        Span::Bounded(crossing(fx(2, 1), v(-1, 0, 0)), crossing(fx(3, 1), v(0, 1, 0)))
    );
    // through a corner: both pairs of planes are crossed at once, and x stands
    let r = Ray::new(v(-2, -2, 0), v(1, 1, 0));
    assert_eq!(
        unit_box().span(&r),
        Span::Bounded(crossing(fx(1, 1), v(-1, 0, 0)), crossing(fx(3, 1), v(1, 0, 0)))
    );
}

#[test]
fn span_of_a_ray_that_passes_by() {
    assert_eq!(unit_box().span(&Ray::new(v(-5, 2, 0), v(1, 0, 0))), Span::Miss);
    assert_eq!(unit_box().span(&Ray::new(v(2, -5, 0), v(0, 1, 0))), Span::Miss);
    // x in [-1, 1] for t in [4, 6], y in [-1, 1] for t in [-1/3, 1/3]
    assert_eq!(unit_box().span(&Ray::new(v(-5, 0, 0), v(1, 3, 0))), Span::Miss);
    assert_eq!(unit_box().span(&Ray::new(v(5, 5, 5), v(0, 0, 1))), Span::Miss);
}

#[test]
fn span_of_a_ray_that_never_leaves() {
    assert_eq!(unit_box().span(&Ray::new(Vec3::zero(), v(0, 0, 1))), Span::Free);
    assert_eq!(unit_box().span(&Ray::new(v(1, -1, 7), v(0, 0, -3))), Span::Free);
    assert_eq!(unit_box().hit(&Ray::new(Vec3::zero(), v(0, 0, 1)), t_min(), t_max()), None);
}

#[test]
fn hit_from_outside_is_on_the_front_face() {
    let r = Ray::new(v(-5, 0, 2), v(1, 0, 0));
    assert_eq!(
        unit_box().hit(&r, t_min(), t_max()),
        Some(HitRecord { t: fx(4, 1), p: v(-1, 0, 2), normal: v(-1, 0, 0), front_face: true, mat: gray() })
    );
    let r = Ray::new(v(-3, -2, 0), v(1, 1, 0));
    let rec = unit_box().hit(&r, t_min(), t_max()).unwrap();
    assert_eq!((rec.t, rec.p, rec.normal, rec.front_face), (fx(2, 1), v(-1, 0, 0), v(-1, 0, 0), true));
}

#[test]
fn hit_from_inside_is_on_the_back_face() {
    let r = Ray::new(Vec3::zero(), v(0, 1, 0));
    assert_eq!(
        unit_box().hit(&r, t_min(), t_max()),
        Some(HitRecord { t: fx(1, 1), p: v(0, 1, 0), normal: v(0, -1, 0), front_face: false, mat: gray() })
    );
    let r = Ray::new(Vec3::zero(), v(-2, 1, 5));
    let rec = unit_box().hit(&r, t_min(), t_max()).unwrap();
    assert_eq!((rec.t, rec.normal, rec.front_face), (fx(1, 2), v(1, 0, 0), false));
    assert_eq!(rec.p, Vec3::new(fx(-1, 1), fx(1, 2), fx(5, 2)));
}

#[test]
fn hit_respects_the_interval() {
    let c = unit_box();
    let r = Ray::new(v(-5, 0, 0), v(1, 0, 0));
    // crossings at 4 and 6
    assert_eq!(c.hit(&r, t_min(), fx(3, 1)), None);
    assert_eq!(c.hit(&r, fx(7, 1), t_max()), None);
    assert_eq!(c.hit(&r, fx(9, 2), fx(11, 2)), None);
    assert_eq!(c.hit(&r, fx(4, 1), fx(4, 1)).unwrap().t, fx(4, 1));
    assert_eq!(c.hit(&r, fx(6, 1), fx(6, 1)).unwrap().t, fx(6, 1));
    let rec = c.hit(&r, fx(5, 1), t_max()).unwrap();
    assert_eq!((rec.t, rec.normal, rec.front_face), (fx(6, 1), v(-1, 0, 0), false));
    // behind the ray
    assert_eq!(c.hit(&Ray::new(v(-5, 0, 0), v(-1, 0, 0)), t_min(), t_max()), None);
    assert_eq!(c.hit(&Ray::new(v(-5, 0, 0), v(-1, 0, 0)), fx(-10, 1), t_max()).unwrap().t, fx(-6, 1));
}

#[test]
fn box_that_passes_by_is_not_hit() {
    assert_eq!(unit_box().hit(&Ray::new(v(-5, 2, 0), v(1, 0, 0)), t_min(), t_max()), None);
    assert_eq!(unit_box().hit(&Ray::new(v(-5, 0, 0), v(1, 3, 0)), t_min(), t_max()), None);
}

#[test]
fn only_one_component_of_each_corner_counts() {
    let a = Cube::new(v(-1, 7, 8), v(1, -9, 3), v(5, -1, 2), v(-4, 1, 6));
    let r = Ray::new(v(-3, -2, 0), v(1, 1, 0));
    assert_eq!(a.span(&r), unit_box().span(&r));
}
