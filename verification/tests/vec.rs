use raytracer::fixed::{Fixed, ONE_RAW};
use raytracer::random::{random_between, random_unit};
use raytracer::ray::Ray;
use raytracer::vec::{Vec3, NEAR_ZERO_RAW};

fn fx(num: i64, den: i64) -> Fixed {
    Fixed::from_ratio(num, den)
}

fn v(x: i64, y: i64, z: i64) -> Vec3 {
    Vec3::new(Fixed::from_int(x as i32), Fixed::from_int(y as i32), Fixed::from_int(z as i32))
}

fn raw(x: i64, y: i64, z: i64) -> Vec3 {
    Vec3::new(Fixed::from_raw(x), Fixed::from_raw(y), Fixed::from_raw(z))
}

fn tenths(x: i64, y: i64, z: i64) -> Vec3 {
    Vec3::new(fx(x, 10), fx(y, 10), fx(z, 10))
}

// 1e-9, in raw units
const TOLERANCE: i64 = 4;

#[test]
fn components_and_zero() {
    let a = v(1, 2, 3);
    assert_eq!(a.x(), Fixed::from_int(1));
    assert_eq!(a.y(), Fixed::from_int(2));
    assert_eq!(a.z(), Fixed::from_int(3));
    assert_eq!(Vec3::zero(), v(0, 0, 0));
}

#[test]
fn arithmetic_is_component_wise() {
    let a = v(1, 2, 3);
    let b = v(4, -5, 6);
    assert_eq!(a.add(b), v(5, -3, 9));
    assert_eq!(a.sub(b), v(-3, 7, -3));
    assert_eq!(a.neg(), v(-1, -2, -3));
    assert_eq!(a.scale(fx(1, 2)), Vec3::new(fx(1, 2), fx(1, 1), fx(3, 2)));
    assert_eq!(a.div(fx(2, 1)), Vec3::new(fx(1, 2), fx(1, 1), fx(3, 2)));
    assert_eq!(a.mul(b), v(4, -10, 18));
}

#[test]
fn dot_and_cross() {
    assert_eq!(v(1, 2, 3).dot(v(4, -5, 6)), Fixed::from_int(12));
    assert_eq!(v(1, 0, 0).cross(v(0, 1, 0)), v(0, 0, 1));
    assert_eq!(v(0, 1, 0).cross(v(1, 0, 0)), v(0, 0, -1));
    assert_eq!(v(1, 2, 3).cross(v(4, 5, 6)), v(-3, 6, -3));
    assert_eq!(v(1, 2, 3).cross(v(1, 2, 3)), Vec3::zero());
}

#[test]
fn lengths() {
    assert_eq!(v(3, 4, 0).length_squared(), Fixed::from_int(25));
    assert_eq!(v(3, 4, 0).length(), Fixed::from_int(5));
    assert_eq!(v(3, 4, 12).length(), Fixed::from_int(13));
    assert_eq!(v(1, 2, 3).length().raw(), 16070296109);
    assert_eq!(Vec3::zero().length(), Fixed::zero());
}

#[test]
fn normalized_divides_by_the_length() {
    assert_eq!(v(3, 4, 0).normalized(), raw(2576980377, 3435973836, 0));
    assert_eq!(v(1, 2, 3).normalized(), raw(1147878293, 2295756587, 3443634880));
    assert_eq!(v(0, 0, -7).normalized(), v(0, 0, -1));
}

#[test]
fn normalized_has_length_one_within_tolerance() {
    let vectors = [
        v(3, 4, 0),
        v(1, 2, 3),
        v(-7, 1, 2),
        tenths(1, -7, 3),
        tenths(25, 25, -25),
        v(1000, -2000, 500),
        raw(ONE_RAW / 64, ONE_RAW / 32, -ONE_RAW / 16),
    ];
    for a in vectors {
        let len = a.normalized().length().raw();
        assert!((len - ONE_RAW).abs() <= TOLERANCE, "{:?}: {}", a, len - ONE_RAW);
    }
}

#[test]
fn normalized_leaves_the_zero_vector_alone() {
    assert_eq!(Vec3::zero().normalized(), Vec3::zero());
    assert_eq!(Vec3::zero().length(), Fixed::zero());
}

#[test]
fn normalized_of_a_short_vector_is_a_unit_vector() {
    // a vector of a few raw units has a direction like any other
    let speck = raw(3, -2, 1);
    assert_eq!(speck.length().raw(), 3);
    assert_eq!(speck.normalized(), raw(3443634880, -2295756587, 1147878293));
    assert_eq!(raw(0, 0, -1).normalized(), v(0, 0, -1));
    assert_eq!(raw(98304, 0, 0).normalized(), v(1, 0, 0));
    let mut k: i64 = 1;
    while k < (1 << 60) {
        for a in [raw(k, 0, 0), raw(k, -k, k), raw(1, k, -2), raw(-3 * k / 4, k / 3, k), raw(k, k + 1, 0)] {
            let len = a.normalized().length().raw();
            assert!(ONE_RAW - 4 <= len && len <= ONE_RAW, "{:?}: {}", a, len - ONE_RAW);
        }
        k = k * 3 + 1;
    }
}

#[test]
fn normalized_of_the_largest_vectors_is_a_unit_vector() {
    for a in [
        raw(i64::MAX, i64::MAX, i64::MAX),
        raw(i64::MIN, i64::MIN, i64::MIN),
        raw(i64::MIN, 0, 0),
        raw(i64::MAX, -1, i64::MIN),
        raw(1 << 61, 1, -(1 << 61)),
    ] {
        let len = a.normalized().length().raw();
        assert!(ONE_RAW - 4 <= len && len <= ONE_RAW, "{:?}: {}", a, len - ONE_RAW);
    }
    assert_eq!(raw(i64::MIN, 0, 0).normalized(), v(-1, 0, 0));
    assert_eq!(raw(i64::MAX, 0, 0).length().raw(), i64::MAX);
    // the length of the largest vectors saturates
    assert_eq!(raw(i64::MIN, 0, 0).length().raw(), i64::MAX);
    assert_eq!(raw(i64::MAX, i64::MAX, i64::MAX).length().raw(), i64::MAX);
}

#[test]
fn near_zero_looks_at_every_component() {
    assert!(Vec3::zero().near_zero());
    assert!(raw(NEAR_ZERO_RAW - 1, -(NEAR_ZERO_RAW - 1), 0).near_zero());
    assert!(!raw(NEAR_ZERO_RAW, 0, 0).near_zero());
    assert!(!raw(0, -NEAR_ZERO_RAW, 0).near_zero());
    assert!(!raw(0, 0, NEAR_ZERO_RAW).near_zero());
    assert!(!v(0, 0, 1).near_zero());
}

#[test]
fn reflect_mirrors_at_the_normal() {
    assert_eq!(v(1, -1, 0).reflect(v(0, 1, 0)), v(1, 1, 0));
    assert_eq!(v(0, 0, -1).reflect(v(0, 0, 1)), v(0, 0, 1));
    assert_eq!(v(1, 0, 0).reflect(v(0, 1, 0)), v(1, 0, 0));
    assert_eq!(v(2, -3, 5).reflect(v(0, 1, 0)), v(2, 3, 5));
}

#[test]
fn reflection_law_within_tolerance() {
    let normals = [v(0, 1, 0), v(3, 4, 0).normalized(), v(1, 2, 3).normalized(), tenths(1, -7, 3).normalized()];
    let incoming = [v(1, -1, 0), tenths(3, -9, 2), v(1, 2, 3), tenths(-5, 5, 25), v(0, 0, 0)];
    for n in normals {
        for a in incoming {
            let before = a.dot(n).raw();
            let after = a.reflect(n).dot(n).raw();
            // the tolerance is relative: it grows with the length of the vector
            let bound = TOLERANCE * (1 + a.length().raw() / ONE_RAW + 1);
            assert!((after + before).abs() <= bound, "{:?} at {:?}: {}", a, n, after + before);
        }
    }
}

#[test]
fn reflection_law_within_the_proved_bound() {
    // nine raw units, and twice the component along the normal times the
    // amount by which the squared length of the normal is off one
    let normals = [v(0, 1, 0), v(3, 4, 0).normalized(), v(1, 2, 3).normalized(), tenths(9, -2, 1), tenths(1, 1, 1)];
    let incoming = [v(1, -1, 0), tenths(3, -9, 2), v(1000, 2000, -3000), v(-16000000, 1, 16000000)];
    let one = ONE_RAW as i128;
    for n in normals {
        let exact = [n.x(), n.y(), n.z()].iter().map(|c| (c.raw() as i128) * (c.raw() as i128)).sum::<i128>();
        let off = (one * one - exact).abs();
        for a in incoming {
            let before = a.dot(n).raw() as i128;
            let after = a.reflect(n).dot(n).raw() as i128;
            assert!(one * one * (after + before).abs() <= 2 * before.abs() * off + 9 * one * one);
        }
    }
}

#[test]
fn normalized_of_a_vector_of_length_at_least_one_is_within_four_units() {
    let mut k: i64 = 1;
    while k < 16000 {
        for a in [v(k, 0, 0), v(k, -k, k), v(1, k, -2), v(-3 * k / 4, k / 3, k), tenths(8 * k, 8 * k, k)] {
            assert!(a.length().raw() >= ONE_RAW);
            let len = a.normalized().length().raw();
            assert!(ONE_RAW - 4 <= len && len <= ONE_RAW + 2, "{:?}: {}", a, len - ONE_RAW);
        }
        k = k * 3 + 1;
    }
}

#[test]
fn reflection_law_at_normals_of_squared_length_one_is_within_three_units() {
    // normals whose squared length is exactly one
    let normals = [v(0, 1, 0), v(-1, 0, 0), raw(2576980378, 3435973837, 0).sub(raw(1, 1, 0))];
    let incoming = [v(1, -1, 0), tenths(3, -9, 2), v(1000, 2000, -3000), raw(123456789, -987654321, 5)];
    for n in normals {
        let exact = [n.x(), n.y(), n.z()].iter().map(|c| (c.raw() as i128) * (c.raw() as i128)).sum::<i128>();
        if exact != (ONE_RAW as i128) * (ONE_RAW as i128) {
            continue;
        }
        for a in incoming {
            let before = a.dot(n).raw();
            let after = a.reflect(n).dot(n).raw();
            assert!((after + before).abs() <= 3);
        }
    }
}

#[test]
fn dot_product_is_rounded_once() {
    // three products of one third of a raw unit each make one raw unit
    let a = raw(ONE_RAW / 3 + 1, ONE_RAW / 3 + 1, ONE_RAW / 3 + 1);
    let b = raw(1, 1, 1);
    assert_eq!(a.dot(b).raw(), 1);
    assert_eq!(a.neg().dot(b).raw(), -1);
    assert_eq!(raw(ONE_RAW / 2, ONE_RAW / 2, 0).dot(raw(1, -1, 7)).raw(), 0);
    assert_eq!(raw(i64::MIN, i64::MIN, i64::MIN).dot(raw(i64::MIN, i64::MIN, i64::MIN)).raw(), i64::MAX);
    assert_eq!(raw(i64::MIN, i64::MIN, i64::MIN).dot(raw(i64::MAX, i64::MAX, i64::MAX)).raw(), i64::MIN);
    assert_eq!(raw(i64::MIN, i64::MAX, 0).dot(raw(i64::MAX, i64::MIN, 0)).raw(), i64::MIN);
    assert_eq!(raw(i64::MAX, i64::MAX, 3).dot(raw(i64::MAX, -i64::MAX, ONE_RAW)).raw(), 3);
    assert_eq!(v(1, 2, 3).dot(v(4, -5, 6)), Fixed::from_int(12));
}

#[test]
fn sum_is_no_longer_than_its_parts_together() {
    let vectors = [v(3, 4, 0), v(-1, 2, 3), tenths(1, -7, 3), raw(3, -2, 1), v(1000, -2000, 500), Vec3::zero()];
    for a in vectors {
        for b in vectors {
            assert!(a.add(b).length().raw() <= a.length().raw() + b.length().raw() + 1);
        }
    }
}

#[test]
fn mirror_image_of_a_unit_vector_is_a_unit_vector() {
    let units = [
        v(0, 1, 0),
        v(3, 4, 0).normalized(),
        v(1, 2, 3).normalized(),
        tenths(1, -7, 3).normalized(),
        raw(-5, 1, 1).normalized(),
    ];
    for n in units {
        for u in units {
            let len = u.reflect(n).length().raw();
            assert!(ONE_RAW - 36 <= len && len <= ONE_RAW + 32, "{:?} at {:?}: {}", u, n, len - ONE_RAW);
        }
    }
}

#[test]
fn ray_at_walks_along_the_direction() {
    let r = Ray::new(v(1, 2, 3), v(0, -2, 4));
    assert_eq!(r.origin(), v(1, 2, 3));
    assert_eq!(r.direction(), v(0, -2, 4));
    assert_eq!(r.at(Fixed::zero()), v(1, 2, 3));
    assert_eq!(r.at(fx(1, 1)), v(1, 0, 7));
    assert_eq!(r.at(fx(1, 2)), v(1, 1, 5));
    assert_eq!(r.at(fx(-3, 1)), v(1, 8, -9));
}

#[test]
fn random_numbers_stay_in_range_and_vary() {
    let lo = fx(-3, 1);
    let hi = fx(-2, 1);
    let mut distinct = 0;
    let first = random_between(lo, hi);
    for _ in 0..200 {
        let x = random_between(lo, hi);
        assert!(lo.raw() <= x.raw() && x.raw() < hi.raw());
        if x != first {
            distinct += 1;
        }
    }
    assert!(distinct > 0);
    let only = random_between(Fixed::from_raw(5), Fixed::from_raw(6));
    assert_eq!(only.raw(), 5);
}

#[test]
fn random_unit_stays_in_range_and_varies() {
    let first = random_unit();
    let mut distinct = 0;
    let mut upper_half = 0;
    for _ in 0..200 {
        let x = random_unit();
        assert!(0 <= x.raw() && x.raw() < ONE_RAW);
        if x != first {
            distinct += 1;
        }
        if x.raw() >= ONE_RAW / 2 {
            upper_half += 1;
        }
    }
    assert!(distinct > 0);
    assert!(upper_half > 0 && upper_half < 200);
}

#[test]
fn random_vector_components_stay_in_range() {
    let lo = fx(1, 1);
    let hi = fx(2, 1);
    for _ in 0..100 {
        let a = Vec3::random(lo, hi);
        for c in [a.x(), a.y(), a.z()] {
            assert!(lo.raw() <= c.raw() && c.raw() < hi.raw());
        }
    }
}

#[test]
fn random_in_unit_sphere_is_inside_and_varies() {
    let first = Vec3::random_in_unit_sphere();
    let mut distinct = 0;
    let mut negative_x = 0;
    for _ in 0..500 {
        let a = Vec3::random_in_unit_sphere();
        assert!(a.length().raw() < ONE_RAW);
        if a != first {
            distinct += 1;
        }
        if a.x().raw() < 0 {
            negative_x += 1;
        }
    }
    assert!(distinct > 0);
    assert!(negative_x > 100 && negative_x < 400);
}
