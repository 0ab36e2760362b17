use raytracer::camera::Camera;
use raytracer::fixed::Fixed;
use raytracer::ray::Ray;
use raytracer::vec::Vec3;

fn fx(num: i64, den: i64) -> Fixed {
    Fixed::from_ratio(num, den)
}

fn v(x: i64, y: i64, z: i64) -> Vec3 {
    Vec3::new(Fixed::from_int(x as i32), Fixed::from_int(y as i32), Fixed::from_int(z as i32))
}

fn raw(x: i64, y: i64, z: i64) -> Vec3 {
    Vec3::new(Fixed::from_raw(x), Fixed::from_raw(y), Fixed::from_raw(z))
}

#[test]
fn camera_of_aspect_two() {
    let c = Camera::new(fx(2, 1), fx(2, 1), fx(1, 1));
    assert_eq!(c.origin, Vec3::zero());
    assert_eq!(c.horizontal, v(4, 0, 0));
    assert_eq!(c.vertical, v(0, 2, 0));
    assert_eq!(c.lower_left_corner, v(-2, -1, -1));
}

#[test]
fn camera_of_aspect_sixteen_to_nine() {
    let c = Camera::new(fx(16, 9), fx(2, 1), fx(1, 1));
    assert_eq!(c.origin, Vec3::zero());
    assert_eq!(c.horizontal, raw(15270994830, 0, 0));
    assert_eq!(c.vertical, v(0, 2, 0));
    assert_eq!(c.lower_left_corner, raw(-7635497415, -4294967296, -4294967296));
}

#[test]
fn focal_length_and_height_set_the_corner() {
    let c = Camera::new(fx(1, 1), fx(4, 1), fx(3, 1));
    assert_eq!(c.horizontal, v(4, 0, 0));
    assert_eq!(c.vertical, v(0, 4, 0));
    assert_eq!(c.lower_left_corner, v(-2, -2, -3));
}

#[test]
fn rays_span_the_viewport() {
    let c = Camera::new(fx(2, 1), fx(2, 1), fx(1, 1));
    assert_eq!(c.get_ray(fx(0, 1), fx(0, 1)), Ray::new(Vec3::zero(), v(-2, -1, -1)));
    assert_eq!(c.get_ray(fx(1, 1), fx(0, 1)), Ray::new(Vec3::zero(), v(2, -1, -1)));
    assert_eq!(c.get_ray(fx(0, 1), fx(1, 1)), Ray::new(Vec3::zero(), v(-2, 1, -1)));
    assert_eq!(c.get_ray(fx(1, 1), fx(1, 1)), Ray::new(Vec3::zero(), v(2, 1, -1)));
    assert_eq!(c.get_ray(fx(1, 2), fx(1, 2)), Ray::new(Vec3::zero(), v(0, 0, -1)));
    assert_eq!(
        c.get_ray(fx(1, 4), fx(3, 4)),
        Ray::new(Vec3::zero(), Vec3::new(fx(-1, 1), fx(1, 2), fx(-1, 1)))
    );
}

#[test]
fn rays_of_the_wide_camera() {
    let c = Camera::new(fx(16, 9), fx(2, 1), fx(1, 1));
    assert_eq!(c.get_ray(fx(0, 1), fx(0, 1)).direction(), raw(-7635497415, -4294967296, -4294967296));
    assert_eq!(c.get_ray(fx(1, 1), fx(1, 1)).direction(), raw(7635497415, 4294967296, -4294967296));
    assert_eq!(c.get_ray(fx(1, 2), fx(1, 2)).direction(), v(0, 0, -1));
}
