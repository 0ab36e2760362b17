use raytracer::cube::Cube;
use raytracer::fixed::Fixed;
use raytracer::hit::{Hit, World};
use raytracer::material::{Lambertian, Material, Metal};
use raytracer::ray::Ray;
use raytracer::shape::Shape;
use raytracer::sphere::Sphere;
use raytracer::vec::Vec3;

fn fx(num: i64, den: i64) -> Fixed {
    Fixed::from_ratio(num, den)
}

fn v(x: i64, y: i64, z: i64) -> Vec3 {
    Vec3::new(Fixed::from_int(x as i32), Fixed::from_int(y as i32), Fixed::from_int(z as i32))
}

fn diffuse(r: i64, g: i64, b: i64) -> Material {
    Material::Lambertian(Lambertian::new(Vec3::new(fx(r, 10), fx(g, 10), fx(b, 10))))
}

fn t_min() -> Fixed {
    fx(1, 1000)
}

fn t_max() -> Fixed {
    Fixed::from_raw(i64::MAX)
}

fn near_sphere() -> Sphere {
    Sphere::new(v(0, 0, -1), fx(1, 2), diffuse(10, 6, 3))
}

fn far_sphere() -> Sphere {
    Sphere::new(Vec3::new(fx(0, 1), fx(0, 1), fx(-5, 4)), fx(1, 2), diffuse(4, 1, 1))
}

fn down_z() -> Ray {
    Ray::new(Vec3::zero(), v(0, 0, -1))
}

#[test]
fn empty_world_is_never_hit() {
    let world: World<Sphere> = World::new();
    assert_eq!(world.len(), 0);
    assert_eq!(world.hit(&down_z(), t_min(), t_max()), None);
}

#[test]
fn push_appends() {
    let mut world = World::new();
    world.push(near_sphere());
    world.push(far_sphere());
    assert_eq!(world.len(), 2);
    assert_eq!(world.objects[0], near_sphere());
    assert_eq!(world.objects[1], far_sphere());
}

#[test]
fn world_of_one_hits_as_its_object() {
    let mut world = World::new();
    world.push(near_sphere());
    assert_eq!(world.hit(&down_z(), t_min(), t_max()), near_sphere().hit(&down_z(), t_min(), t_max()));
    let miss = Ray::new(Vec3::zero(), v(0, 1, 0));
    assert_eq!(world.hit(&miss, t_min(), t_max()), None);
}

#[test]
fn nearer_of_two_overlapping_spheres_in_either_order() {
    let expected = near_sphere().hit(&down_z(), t_min(), t_max()).unwrap();
    assert_eq!(expected.t, fx(1, 2));
    assert_eq!(far_sphere().hit(&down_z(), t_min(), t_max()).unwrap().t, fx(3, 4));

    let mut near_first = World::new();
    near_first.push(near_sphere());
    near_first.push(far_sphere());
    let mut far_first = World::new();
    far_first.push(far_sphere());
    far_first.push(near_sphere());

    let a = near_first.hit(&down_z(), t_min(), t_max()).unwrap();
    let b = far_first.hit(&down_z(), t_min(), t_max()).unwrap();
    assert_eq!(a, expected);
    assert_eq!(b, expected);
    assert_eq!(a.mat, diffuse(10, 6, 3));
}

#[test]
fn nearest_of_many_in_every_rotation() {
    let spheres: Vec<Sphere> = (1..=6)
        .map(|k| Sphere::new(v(0, 0, -3 * k), fx(1, 1), diffuse(k, k, k)))
        .collect();
    for start in 0..spheres.len() {
        let mut world = World::new();
        for k in 0..spheres.len() {
            world.push(spheres[(start + k) % spheres.len()]);
        }
        let rec = world.hit(&down_z(), t_min(), t_max()).unwrap();
        assert_eq!(rec.t, fx(2, 1));
        assert_eq!(rec.mat, diffuse(1, 1, 1));
        // with the first sphere out of range the second is the nearest
        let rec = world.hit(&down_z(), fx(9, 2), t_max()).unwrap();
        assert_eq!(rec.t, fx(5, 1));
        assert_eq!(rec.mat, diffuse(2, 2, 2));
    }
}

#[test]
fn world_respects_the_interval() {
    let mut world = World::new();
    world.push(far_sphere());
    world.push(near_sphere());
    // hits at 1/2 (near), 3/4 (far), and the back faces at 3/2 and 7/4
    assert_eq!(world.hit(&down_z(), t_min(), fx(1, 4)), None);
    assert_eq!(world.hit(&down_z(), fx(6, 10), t_max()).unwrap().mat, diffuse(4, 1, 1));
    assert_eq!(world.hit(&down_z(), fx(6, 10), t_max()).unwrap().t, fx(3, 4));
    assert_eq!(world.hit(&down_z(), fx(8, 10), t_max()).unwrap().t, fx(3, 2));
    assert_eq!(world.hit(&down_z(), fx(2, 1), t_max()), None);
}

#[test]
fn later_object_wins_a_tie() {
    let twin_a = Sphere::new(v(0, 0, -1), fx(1, 2), diffuse(1, 0, 0));
    let twin_b = Sphere::new(v(0, 0, -1), fx(1, 2), diffuse(0, 1, 0));
    let mut world = World::new();
    world.push(twin_a);
    world.push(twin_b);
    let rec = world.hit(&down_z(), t_min(), t_max()).unwrap();
    assert_eq!(rec.t, fx(1, 2));
    assert_eq!(rec.mat, diffuse(0, 1, 0));
    let mut world = World::new();
    world.push(twin_b);
    world.push(twin_a);
    let rec = world.hit(&down_z(), t_min(), t_max()).unwrap();
    assert_eq!(rec.t, fx(1, 2));
    assert_eq!(rec.mat, diffuse(1, 0, 0));
}

#[test]
fn worlds_nest() {
    let mut inner = World::new();
    inner.push(far_sphere());
    let mut outer: World<World<Sphere>> = World::new();
    outer.push(inner);
    let mut other = World::new();
    other.push(near_sphere());
    outer.push(other);
    let rec = outer.hit(&down_z(), t_min(), t_max()).unwrap();
    assert_eq!(rec, near_sphere().hit(&down_z(), t_min(), t_max()).unwrap());
}

#[test]
fn shapes_mix_in_one_world() {
    let metal = Material::Metal(Metal::new(v(1, 1, 1), fx(0, 1)));
    let slab = Cube::new(v(-1, 0, 0), v(1, 0, 0), v(0, -1, 0), v(0, 1, 0)).with_material(metal);
    let ball = Sphere::new(v(3, 0, 0), fx(1, 1), diffuse(4, 1, 1));
    let r = Ray::new(v(-5, 0, 0), v(1, 0, 0));
    for order in [[Shape::Cube(slab), Shape::Sphere(ball)], [Shape::Sphere(ball), Shape::Cube(slab)]] {
        let mut world = World::new();
        for shape in order {
            world.push(shape);
        }
        let rec = world.hit(&r, t_min(), t_max()).unwrap();
        assert_eq!(rec.t, fx(4, 1));
        assert_eq!(rec.mat, metal);
        assert_eq!(Shape::Cube(slab).hit(&r, t_min(), t_max()), slab.hit(&r, t_min(), t_max()));
        assert_eq!(Shape::Sphere(ball).hit(&r, t_min(), t_max()), ball.hit(&r, t_min(), t_max()));
        // past the box the sphere is the nearest
        let rec = world.hit(&r, fx(13, 2), t_max()).unwrap();
        assert_eq!(rec.t, fx(7, 1));
        assert_eq!(rec.mat, diffuse(4, 1, 1));
    }
}
