//! Three-component vectors, used for directions, points and colors.

use vstd::prelude::*;

use crate::fixed::{
    floor_sqrt, floor_sqrt_wide, is_floor_sqrt, lemma_floor_sqrt_exists, lemma_floor_sqrt_unique,
    join_products, lemma_trunc_div, saturate, saturate_wide, split_product, trunc_div,
    trunc_div_wide, Fixed, ONE_RAW,
};
use crate::random::random_between;

verus! {

/// A component counts as zero when its raw magnitude is below this bound
/// (about `1e-8`).
pub const NEAR_ZERO_RAW: i64 = 42;

/// How many candidates `random_in_unit_sphere` draws before it settles for
/// the center of the ball.
pub const SPHERE_TRIES: u32 = 256;

/// The magnitude of `x`.
pub open spec fn magnitude(x: int) -> int {
    if x >= 0 {
        x
    } else {
        -x
    }
}

/// The magnitude of a product is the product of the magnitudes.
pub proof fn lemma_magnitude_of_product(a: int, b: int)
    ensures
        magnitude(a * b) == magnitude(a) * magnitude(b),
{
    assert(magnitude(a * b) == magnitude(a) * magnitude(b)) by (nonlinear_arith);
}

/// One component of a mirror image, times the same component of the
/// normal: with `r = v - w` and `s * w = k * n - rho`,
/// `s * r * n = s * v * n - k * n^2 + rho * n`.
proof fn lemma_mirrored_component(s: int, k: int, v: int, n: int, w: int, r: int, rho: int)
    requires
        r == v - w,
        rho == k * n - s * w,
    ensures
        s * (r * n) == s * (v * n) - k * (n * n) + rho * n,
{
    assert(s * (r * n) == s * (v * n) - k * (n * n) + rho * n) by (nonlinear_arith)
        requires
            r == v - w,
            rho == k * n - s * w,
    ;
}

/// A number whose square is below that of `b >= 0` is below `b` in
/// magnitude.
pub proof fn lemma_below_by_squares(a: int, b: int)
    requires
        b >= 0,
        a * a < b * b,
    ensures
        -b < a < b,
{
    assert(-b < a < b) by (nonlinear_arith)
        requires
            b >= 0,
            a * a < b * b,
    ;
}

/// `n` is `v * 2^32 / l` rounded toward zero, for `l > 0`.
pub open spec fn is_quotient(v: int, l: int, n: int) -> bool {
    let e = v * ONE_RAW - l * n;
    &&& v >= 0 ==> n >= 0 && 0 <= e < l
    &&& v <= 0 ==> n <= 0 && -l < e <= 0
}

/// One component of a mirror image, squared: with `r = u - w` and
/// `s * w = k * n - rho`, `s^2 r^2` is the square of `s u - k n + rho`,
/// written out.
proof fn lemma_mirrored_square(s: int, k: int, u: int, n: int, w: int, r: int, rho: int)
    requires
        r == u - w,
        rho == k * n - s * w,
    ensures
        s * s * (r * r) == s * s * (u * u) + k * k * (n * n) + rho * rho - 2 * (s * (k * (u * n)))
            + 2 * (s * (u * rho)) - 2 * (k * (n * rho)),
{
    let a = s * u;
    let b = k * n;
    assert(s * r == a - b + rho) by (nonlinear_arith)
        requires
            r == u - w,
            rho == k * n - s * w,
            a == s * u,
            b == k * n,
    ;
    assert((a - b + rho) * (a - b + rho) == a * a + b * b + rho * rho - 2 * (a * b) + 2 * (a * rho)
        - 2 * (b * rho)) by (nonlinear_arith);
    assert((s * r) * (s * r) == s * s * (r * r)) by (nonlinear_arith);
    assert((s * u) * (s * u) == s * s * (u * u)) by (nonlinear_arith);
    assert((k * n) * (k * n) == k * k * (n * n)) by (nonlinear_arith);
    assert((s * u) * (k * n) == s * (k * (u * n))) by (nonlinear_arith);
    assert((s * u) * rho == s * (u * rho)) by (nonlinear_arith);
    assert((k * n) * rho == k * (n * rho)) by (nonlinear_arith);
}

/// A product of three numbers is bounded by the product of their bounds.
proof fn lemma_product_bound(a: int, b: int, c: int, x: int, y: int, z: int)
    requires
        -x <= a <= x,
        -y <= b <= y,
        -z <= c <= z,
    ensures
        -(x * (y * z)) <= a * (b * c) <= x * (y * z),
{
    assert(-(y * z) <= b * c <= y * z) by (nonlinear_arith)
        requires
            -y <= b <= y,
            -z <= c <= z,
    ;
    let bc = b * c;
    let yz = y * z;
    assert(-(x * yz) <= a * bc <= x * yz) by (nonlinear_arith)
        requires
            -x <= a <= x,
            -yz <= bc <= yz,
    ;
}

/// Twice the product of `a * x` and `b * y` is at most `a^2 y^2 + b^2 x^2`.
proof fn lemma_cross_term(a: int, b: int, x: int, y: int)
    ensures
        2 * ((a * x) * (b * y)) <= (a * a) * (y * y) + (b * b) * (x * x),
{
    let u = a * y;
    let v = b * x;
    assert(2 * (u * v) <= u * u + v * v) by (nonlinear_arith) {
        assert((u - v) * (u - v) >= 0);
    }
    assert((a * y) * (a * y) == (a * a) * (y * y)) by (nonlinear_arith);
    assert((b * x) * (b * x) == (b * b) * (x * x)) by (nonlinear_arith);
    assert((a * y) * (b * x) == (a * x) * (b * y)) by (nonlinear_arith);
}

/// The identity of Lagrange, as an inequality: the square of a dot product is
/// at most the product of the squared lengths.
proof fn lemma_lagrange(a: int, b: int, c: int, x: int, y: int, z: int)
    ensures
        (a * x + b * y + c * z) * (a * x + b * y + c * z) <= (a * a + b * b + c * c) * (x * x + y
            * y + z * z),
{
    lemma_cross_term(a, b, x, y);
    lemma_cross_term(a, c, x, z);
    lemma_cross_term(b, c, y, z);
    let p = a * x;
    let q = b * y;
    let r = c * z;
    assert((p + q + r) * (p + q + r) == p * p + q * q + r * r + 2 * (p * q) + 2 * (p * r) + 2 * (q
        * r)) by (nonlinear_arith);
    assert(p * p == (a * a) * (x * x) && q * q == (b * b) * (y * y) && r * r == (c * c) * (z * z))
        by (nonlinear_arith)
        requires
            p == a * x,
            q == b * y,
            r == c * z,
    ;
    let aa = a * a;
    let bb = b * b;
    let cc = c * c;
    let xx = x * x;
    let yy = y * y;
    let zz = z * z;
    assert((aa + bb + cc) * (xx + yy + zz) == aa * xx + aa * yy + aa * zz + bb * xx + bb * yy + bb
        * zz + cc * xx + cc * yy + cc * zz) by (nonlinear_arith);
}

/// The square of a lifted component is the square of the component times
/// the square of the lift.
proof fn lemma_lifted_square(x: int, f: int)
    ensures
        (x * f) * (x * f) == f * f * (x * x),
{
    assert((x * f) * (x * f) == f * f * (x * x)) by (nonlinear_arith);
}

/// The quotient of a number of at most `l` in magnitude by `l` is at most one
/// in magnitude.
proof fn lemma_quotient_within(v: int, l: int, n: int)
    requires
        l > 0,
        -l <= v <= l,
        v * 0x1_0000_0000 >= 0 ==> n >= 0 && 0 <= v * 0x1_0000_0000 - l * n < l,
        v * 0x1_0000_0000 <= 0 ==> n <= 0 && -l < v * 0x1_0000_0000 - l * n <= 0,
    ensures
        -0x1_0000_0000 <= n <= 0x1_0000_0000,
        is_quotient(v, l, n),
{
    assert(-0x1_0000_0000 <= n <= 0x1_0000_0000) by (nonlinear_arith)
        requires
            l > 0,
            -l <= v <= l,
            v >= 0 ==> n >= 0 && 0 <= v * 0x1_0000_0000 - l * n,
            v <= 0 ==> n <= 0 && v * 0x1_0000_0000 - l * n <= 0,
    {
        if n > 0x1_0000_0000 {
            assert(l * n >= l * 0x1_0000_0001);
        }
        if n < -0x1_0000_0000 {
            assert(l * n <= l * (-0x1_0000_0001));
        }
    }
}

/// One component `n` of a unit vector, found as `v / l` rounded toward zero
/// with remainder `e`: its square times `l^2` is at most the square of `v`
/// times `2^64`, and falls short of it by less than `2 * 2^32 * l * |v|`.
proof fn lemma_unit_component(l: int, v: int, n: int, e: int)
    requires
        l > 0,
        l * n == v * 0x1_0000_0000 - e,
        v >= 0 ==> n >= 0 && 0 <= e < l,
        v <= 0 ==> n <= 0 && -l < e <= 0,
    ensures
        l * l * (n * n) <= 0x1_0000_0000_0000_0000 * (v * v),
        l * l * (n * n) + 0x2_0000_0000 * (l * magnitude(v)) >= 0x1_0000_0000_0000_0000 * (v
            * v),
{
    let x = magnitude(v) * 0x1_0000_0000;
    let y = magnitude(l * n);
    let f = magnitude(e);
    assert((n >= 0 ==> l * n >= 0) && (n <= 0 ==> l * n <= 0)) by (nonlinear_arith)
        requires
            l > 0,
    ;
    assert(y == x - f && 0 <= f < l && 0 <= y);
    assert(y * y <= x * x && y * y + 2 * (x * l) >= x * x) by (nonlinear_arith)
        requires
            y == x - f,
            0 <= f < l,
            0 <= y,
            0 <= x,
    ;
    assert(y * y == l * l * (n * n)) by (nonlinear_arith)
        requires
            y == magnitude(l * n),
    ;
    assert(x * x == 0x1_0000_0000_0000_0000 * (v * v)) by (nonlinear_arith)
        requires
            x == magnitude(v) * 0x1_0000_0000,
    ;
    assert(2 * (x * l) == 0x2_0000_0000 * (l * magnitude(v))) by (nonlinear_arith)
        requires
            x == magnitude(v) * 0x1_0000_0000,
    ;
}

/// A vector is lifted by the power of two that brings its largest component,
/// of magnitude `m`, to at least `2^61`, so that its length can be taken
/// without loss; a vector that large already is left as it is.
pub open spec fn lift_spec(m: int) -> int
    decreases
        (if 0 < m < 0x2000_0000_0000_0000 {
            0x2000_0000_0000_0000 - m
        } else {
            0
        }),
{
    if m <= 0 || m >= 0x2000_0000_0000_0000 {
        1
    } else {
        2 * lift_spec(2 * m)
    }
}

/// The lift of a positive magnitude is at least one and brings the magnitude
/// to at least `2^61`, and to below `2^62` where it was below `2^61`.
pub proof fn lemma_lift(m: int)
    requires
        m > 0,
    ensures
        lift_spec(m) >= 1,
        lift_spec(m) * m >= 0x2000_0000_0000_0000,
        m < 0x2000_0000_0000_0000 ==> lift_spec(m) * m < 0x4000_0000_0000_0000,
        m >= 0x2000_0000_0000_0000 ==> lift_spec(m) == 1,
    decreases
        (if 0 < m < 0x2000_0000_0000_0000 {
            0x2000_0000_0000_0000 - m
        } else {
            0
        }),
{
    if m < 0x2000_0000_0000_0000 {
        lemma_lift(2 * m);
        let f = lift_spec(2 * m);
        assert((2 * f) * m == f * (2 * m)) by (nonlinear_arith);
    } else {
        assert(1 * m == m);
    }
}

/// A number that is not negative and whose square is at most `n` is at most
/// the square root of `n`.
pub proof fn lemma_root_dominates(n: int, a: int)
    requires
        0 <= a,
        a * a <= n,
    ensures
        a <= floor_sqrt(n),
{
    assert(0 <= a * a) by (nonlinear_arith);
    lemma_floor_sqrt_exists(n);
    let r = floor_sqrt(n);
    lemma_below_by_squares(a, r + 1);
}

/// The squared length `n2` of the unit vector found by dividing a vector of
/// squared length `w2` by its length `l`, at least `2^61`: it is below
/// `(1 + 2^-32)^2`, and not below `1 - 6 * 2^-32`. Here `a` is the sum of
/// the magnitudes of the components of the vector that was divided.
proof fn lemma_unit_length(l: int, w2: int, n2: int, a: int)
    requires
        l >= 0x2000_0000_0000_0000,
        l * l <= w2 < (l + 1) * (l + 1),
        l * l * n2 <= 0x1_0000_0000_0000_0000 * w2,
        l * l * n2 + 0x2_0000_0000 * (l * a) >= 0x1_0000_0000_0000_0000 * w2,
        0 <= a <= 3 * l,
    ensures
        0x1_0000_0000_0000_0000 - 6 * 0x1_0000_0000 <= n2 < 0x1_0000_0001 * 0x1_0000_0001,
{
    assert(n2 < 0x1_0000_0001 * 0x1_0000_0001) by (nonlinear_arith)
        requires
            l >= 0x2000_0000_0000_0000,
            l * l * n2 <= 0x1_0000_0000_0000_0000 * w2,
            w2 < (l + 1) * (l + 1),
    {
        let big = 0x1_0000_0001 * l;
        let small = 0x1_0000_0000 * (l + 1);
        assert(0 <= small <= big);
        assert(small * small <= big * big);
        assert(small * small == 0x1_0000_0000_0000_0000 * ((l + 1) * (l + 1)));
        assert(big * big == (0x1_0000_0001 * 0x1_0000_0001) * (l * l));
        assert(l * l * n2 < (0x1_0000_0001 * 0x1_0000_0001) * (l * l));
        assert(l * l > 0);
    }
    assert(n2 >= 0x1_0000_0000_0000_0000 - 6 * 0x1_0000_0000) by (nonlinear_arith)
        requires
            l >= 0x2000_0000_0000_0000,
            l * l <= w2,
            l * l * n2 + 0x2_0000_0000 * (l * a) >= 0x1_0000_0000_0000_0000 * w2,
            0 <= a <= 3 * l,
    {
        let c = 0x1_0000_0000_0000_0000 - 6 * 0x1_0000_0000;
        assert(l * a <= 3 * (l * l));
        assert(0x2_0000_0000 * (l * a) <= 6 * 0x1_0000_0000 * (l * l));
        assert(l * l * n2 >= c * (l * l));
        assert(l * l > 0);
    }
}

/// The magnitude of `x`, which may be `2^63`.
fn wide_magnitude(x: i64) -> (m: u128)
    ensures
        m == magnitude(x as int),
        m <= 0x8000_0000_0000_0000,
{
    if x >= 0 {
        x as u128
    } else {
        (0 - (x as i128)) as u128
    }
}

/// The square of a number of at most `2^63` in magnitude.
fn wide_square(a: i128) -> (r: u128)
    requires
        -0x8000_0000_0000_0000 <= a <= 0x8000_0000_0000_0000,
    ensures
        r == a * a,
        r <= 0x4000_0000_0000_0000_0000_0000_0000_0000,
{
    let u: u128 = if a >= 0 {
        a as u128
    } else {
        (0 - a) as u128
    };
    assert(u * u == a * a && u * u <= 0x4000_0000_0000_0000_0000_0000_0000_0000)
        by (nonlinear_arith)
        requires
            u == a || u == -a,
            0 <= u <= 0x8000_0000_0000_0000,
    ;
    u * u
}

#[derive(Clone, Copy, Debug, PartialEq, Eq, Structural)]
pub struct Vec3 {
    pub x: Fixed,
    pub y: Fixed,
    pub z: Fixed,
}

/// A position in space.
pub type Point3 = Vec3;

/// A linear RGB color, red in `x`, green in `y`, blue in `z`.
pub type Color = Vec3;

impl Vec3 {
    pub open spec fn zero_spec() -> Vec3 {
        Vec3 { x: Fixed { raw: 0 }, y: Fixed { raw: 0 }, z: Fixed { raw: 0 } }
    }

    /// Component-wise sum.
    pub open spec fn add_spec(self, o: Vec3) -> Vec3 {
        Vec3 { x: self.x.add_spec(o.x), y: self.y.add_spec(o.y), z: self.z.add_spec(o.z) }
    }

    /// Component-wise difference.
    pub open spec fn sub_spec(self, o: Vec3) -> Vec3 {
        Vec3 { x: self.x.sub_spec(o.x), y: self.y.sub_spec(o.y), z: self.z.sub_spec(o.z) }
    }

    /// Component-wise negation.
    pub open spec fn neg_spec(self) -> Vec3 {
        Vec3 { x: self.x.neg_spec(), y: self.y.neg_spec(), z: self.z.neg_spec() }
    }

    /// Each component times `k`.
    pub open spec fn scale_spec(self, k: Fixed) -> Vec3 {
        Vec3 { x: self.x.mul_spec(k), y: self.y.mul_spec(k), z: self.z.mul_spec(k) }
    }

    /// Each component divided by `k`.
    pub open spec fn div_spec(self, k: Fixed) -> Vec3
        recommends
            k@ != 0,
    {
        Vec3 { x: self.x.div_spec(k), y: self.y.div_spec(k), z: self.z.div_spec(k) }
    }

    /// Component-wise product.
    pub open spec fn mul_spec(self, o: Vec3) -> Vec3 {
        Vec3 { x: self.x.mul_spec(o.x), y: self.y.mul_spec(o.y), z: self.z.mul_spec(o.z) }
    }

    /// The dot product: the exact sum of the products of the components,
    /// rounded toward zero once, and saturated.
    pub open spec fn dot_spec(self, o: Vec3) -> Fixed {
        Fixed { raw: saturate(trunc_div(self.dot_exact(o), ONE_RAW as int)) as i64 }
    }

    pub open spec fn cross_spec(self, o: Vec3) -> Vec3 {
        Vec3 {
            x: self.y.mul_spec(o.z).sub_spec(self.z.mul_spec(o.y)),
            y: self.z.mul_spec(o.x).sub_spec(self.x.mul_spec(o.z)),
            z: self.x.mul_spec(o.y).sub_spec(self.y.mul_spec(o.x)),
        }
    }

    pub open spec fn length_squared_spec(self) -> Fixed {
        self.dot_spec(self)
    }

    /// The dot product of the raw components, without rounding: `2^64` times
    /// the dot product of the two vectors.
    pub open spec fn dot_exact(self, o: Vec3) -> int {
        self.x@ * o.x@ + self.y@ * o.y@ + self.z@ * o.z@
    }

    /// The length: the square root of the exact sum of the squares of the
    /// raw components, rounded down, and saturated.
    pub open spec fn length_spec(self) -> Fixed {
        Fixed { raw: saturate(floor_sqrt(self.dot_exact(self))) as i64 }
    }

    /// The largest magnitude among the raw components.
    pub open spec fn largest_spec(self) -> int {
        let a = magnitude(self.x@);
        let b = magnitude(self.y@);
        let c = magnitude(self.z@);
        if a >= b && a >= c {
            a
        } else if b >= c {
            b
        } else {
            c
        }
    }

    /// The vector times the power of two that brings its largest component
    /// to at least `2^61`.
    pub open spec fn lifted_spec(self) -> Vec3 {
        let f = lift_spec(self.largest_spec());
        Vec3 {
            x: Fixed { raw: (self.x@ * f) as i64 },
            y: Fixed { raw: (self.y@ * f) as i64 },
            z: Fixed { raw: (self.z@ * f) as i64 },
        }
    }

    /// The unit vector in the direction of `self`: each component of the
    /// lifted vector over the length of the lifted vector, rounded toward
    /// zero. The zero vector is left as it is.
    pub open spec fn normalized_spec(self) -> Vec3 {
        if self.largest_spec() == 0 {
            self
        } else {
            let w = self.lifted_spec();
            let l = floor_sqrt(w.dot_exact(w));
            Vec3 {
                x: Fixed { raw: trunc_div(w.x@ * ONE_RAW, l) as i64 },
                y: Fixed { raw: trunc_div(w.y@ * ONE_RAW, l) as i64 },
                z: Fixed { raw: trunc_div(w.z@ * ONE_RAW, l) as i64 },
            }
        }
    }

    /// The vector is a unit vector, as `normalized` gives one: no component
    /// is above one in magnitude, and the length is at most four raw units
    /// below one and not above one.
    pub open spec fn is_unit(self) -> bool {
        &&& -ONE_RAW <= self.x@ <= ONE_RAW
        &&& -ONE_RAW <= self.y@ <= ONE_RAW
        &&& -ONE_RAW <= self.z@ <= ONE_RAW
        &&& ONE_RAW - 4 <= self.length_spec()@ <= ONE_RAW
    }

    /// Every component is within `NEAR_ZERO_RAW` of zero.
    pub open spec fn near_zero_spec(self) -> bool {
        &&& -NEAR_ZERO_RAW < self.x@ < NEAR_ZERO_RAW
        &&& -NEAR_ZERO_RAW < self.y@ < NEAR_ZERO_RAW
        &&& -NEAR_ZERO_RAW < self.z@ < NEAR_ZERO_RAW
    }

    /// The mirror image of `self` at a surface with normal `n`:
    /// `self - 2 * dot(self, n) * n`.
    pub open spec fn reflect_spec(self, n: Vec3) -> Vec3 {
        let d = self.dot_spec(n);
        self.sub_spec(n.scale_spec(d.add_spec(d)))
    }

    /// The vector lies strictly inside the unit ball.
    pub open spec fn in_unit_ball(self) -> bool {
        self.length_spec()@ < ONE_RAW
    }

    /// A square is never negative.
    pub proof fn lemma_square_nonneg(a: Fixed)
        ensures
            a.mul_spec(a)@ >= 0,
    {
        let p = a@ * a@;
        assert(p >= 0) by (nonlinear_arith)
            requires
                p == a@ * a@,
        ;
        assert(trunc_div(p, ONE_RAW as int) >= 0);
    }

    /// The squared length is never negative.
    pub proof fn lemma_length_squared_nonneg(self)
        ensures
            self.length_squared_spec()@ >= 0,
    {
        assert(self.x@ * self.x@ >= 0 && self.y@ * self.y@ >= 0 && self.z@ * self.z@ >= 0)
            by (nonlinear_arith);
        lemma_trunc_div(self.dot_exact(self), ONE_RAW as int);
    }

    /// The zero vector has length zero, and so lies inside the unit ball.
    pub proof fn lemma_zero_length()
        ensures
            Self::zero_spec().length_squared_spec()@ == 0,
            Self::zero_spec().length_spec()@ == 0,
            Self::zero_spec().in_unit_ball(),
    {
        let z = Self::zero_spec();
        assert(z.dot_exact(z) == 0) by (nonlinear_arith)
            requires
                z.x@ == 0 && z.y@ == 0 && z.z@ == 0,
        ;
        assert(z.length_squared_spec()@ == 0);
        assert(is_floor_sqrt(0, 0)) by (nonlinear_arith);
        lemma_floor_sqrt_unique(0, 0);
    }

    /// Every component has magnitude at most `bound`, in raw units.
    pub open spec fn within(self, bound: int) -> bool {
        &&& -bound <= self.x@ <= bound
        &&& -bound <= self.y@ <= bound
        &&& -bound <= self.z@ <= bound
    }

    /// The dot product with a vector whose components are at most one in
    /// magnitude does not saturate, and is less than one raw unit away from
    /// the exact dot product.
    pub proof fn lemma_dot_small(self, n: Vec3, bound: int)
        requires
            self.within(bound),
            n.within(ONE_RAW as int),
            0 <= bound <= 0x1000_0000_0000_0000,
        ensures
            ({
                let d = self.dot_spec(n)@;
                let e = self.dot_exact(n) - ONE_RAW * d;
                &&& -3 * bound <= d <= 3 * bound
                &&& -ONE_RAW < e < ONE_RAW
            }),
    {
        let s: int = 0x1_0000_0000;
        let x = self.dot_exact(n);
        assert(-(3 * bound) * s <= x <= (3 * bound) * s) by (nonlinear_arith)
            requires
                x == self.x@ * n.x@ + self.y@ * n.y@ + self.z@ * n.z@,
                -bound <= self.x@ <= bound,
                -bound <= self.y@ <= bound,
                -bound <= self.z@ <= bound,
                -s <= n.x@ <= s,
                -s <= n.y@ <= s,
                -s <= n.z@ <= s,
                s > 0,
        {
            assert(-(bound * s) <= self.x@ * n.x@ <= bound * s);
            assert(-(bound * s) <= self.y@ * n.y@ <= bound * s);
            assert(-(bound * s) <= self.z@ * n.z@ <= bound * s);
        }
        lemma_trunc_div(x, s);
    }

    /// The dot product of two vectors with no component above `2^14` in
    /// magnitude does not saturate, and is less than one raw unit away from
    /// the exact dot product, toward zero; where no two components that meet
    /// have the same sign, it is not below the exact one.
    pub proof fn lemma_dot_error(self, o: Vec3)
        requires
            self.within(0x4000_0000_0000),
            o.within(0x4000_0000_0000),
        ensures
            ({
                let d = self.dot_spec(o)@;
                let e = self.dot_exact(o) - ONE_RAW * d;
                &&& -ONE_RAW < e < ONE_RAW
                &&& self.dot_exact(o) >= 0 ==> e >= 0 && d >= 0
                &&& self.dot_exact(o) <= 0 ==> e <= 0 && d <= 0
                &&& self.x@ * o.x@ <= 0 && self.y@ * o.y@ <= 0 && self.z@ * o.z@ <= 0 ==> e <= 0
            }),
    {
        let s: int = 0x1_0000_0000;
        let b: int = 0x4000_0000_0000;
        let x = self.dot_exact(o);
        assert(-(3 * (b * b)) <= x <= 3 * (b * b)) by (nonlinear_arith)
            requires
                x == self.x@ * o.x@ + self.y@ * o.y@ + self.z@ * o.z@,
                -b <= self.x@ <= b,
                -b <= self.y@ <= b,
                -b <= self.z@ <= b,
                -b <= o.x@ <= b,
                -b <= o.y@ <= b,
                -b <= o.z@ <= b,
                b >= 0,
        {
            assert(-(b * b) <= self.x@ * o.x@ <= b * b);
            assert(-(b * b) <= self.y@ * o.y@ <= b * b);
            assert(-(b * b) <= self.z@ * o.z@ <= b * b);
        }
        assert(b * b == 0x1000_0000_0000_0000_0000_0000) by (nonlinear_arith)
            requires
                b == 0x4000_0000_0000,
        ;
        lemma_trunc_div(x, s);
    }

    /// The inequality of Cauchy and Schwarz, for the exact dot product: its
    /// square is at most the product of the exact squared lengths.
    pub proof fn lemma_dot_exact_bound(self, o: Vec3)
        ensures
            self.dot_exact(o) * self.dot_exact(o) <= self.dot_exact(self) * o.dot_exact(o),
    {
        lemma_lagrange(self.x@, self.y@, self.z@, o.x@, o.y@, o.z@);
    }

    /// The triangle inequality, up to one raw unit: a sum of two vectors
    /// that does not saturate is no longer than the two together, plus one
    /// raw unit. It holds for vectors with no component above `2^29` in
    /// magnitude.
    pub proof fn lemma_triangle(self, o: Vec3)
        requires
            self.within(0x2000_0000_0000_0000),
            o.within(0x2000_0000_0000_0000),
        ensures
            self.add_spec(o).length_spec()@ <= self.length_spec()@ + o.length_spec()@ + 1,
    {
        let c = self.add_spec(o);
        assert(c.x@ == self.x@ + o.x@ && c.y@ == self.y@ + o.y@ && c.z@ == self.z@ + o.z@);
        self.lemma_length();
        o.lemma_length();
        c.lemma_length();
        let a2 = self.dot_exact(self);
        let b2 = o.dot_exact(o);
        let c2 = c.dot_exact(c);
        let ab = self.dot_exact(o);
        let la = floor_sqrt(a2);
        let lb = floor_sqrt(b2);
        let lc = floor_sqrt(c2);
        self.lemma_dot_exact_bound(o);
        assert(c2 == a2 + b2 + 2 * ab) by (nonlinear_arith)
            requires
                c.x@ == self.x@ + o.x@ && c.y@ == self.y@ + o.y@ && c.z@ == self.z@ + o.z@,
                c2 == c.x@ * c.x@ + c.y@ * c.y@ + c.z@ * c.z@,
                a2 == self.x@ * self.x@ + self.y@ * self.y@ + self.z@ * self.z@,
                b2 == o.x@ * o.x@ + o.y@ * o.y@ + o.z@ * o.z@,
                ab == self.x@ * o.x@ + self.y@ * o.y@ + self.z@ * o.z@,
        ;
        let top = (la + 1) * (lb + 1);
        assert(ab * ab < top * top) by (nonlinear_arith)
            requires
                ab * ab <= a2 * b2,
                0 <= a2 < (la + 1) * (la + 1),
                0 <= b2 < (lb + 1) * (lb + 1),
                top == (la + 1) * (lb + 1),
                la >= 0,
                lb >= 0,
        {
            assert(a2 * b2 < ((la + 1) * (la + 1)) * ((lb + 1) * (lb + 1)));
            assert(((la + 1) * (la + 1)) * ((lb + 1) * (lb + 1)) == top * top);
        }
        assert(top >= 0) by (nonlinear_arith)
            requires
                top == (la + 1) * (lb + 1),
                la >= 0,
                lb >= 0,
        ;
        lemma_below_by_squares(ab, top);
        assert(c2 < (la + lb + 2) * (la + lb + 2)) by (nonlinear_arith)
            requires
                c2 == a2 + b2 + 2 * ab,
                a2 < (la + 1) * (la + 1),
                b2 < (lb + 1) * (lb + 1),
                ab < (la + 1) * (lb + 1),
        ;
        assert(lc * lc < (la + lb + 2) * (la + lb + 2));
        lemma_below_by_squares(lc, la + lb + 2);
        self.lemma_length_in_range(0x2000_0000_0000_0000);
        o.lemma_length_in_range(0x2000_0000_0000_0000);
    }

    /// A mirror image keeps the length, up to the error of the arithmetic:
    /// the mirror image of a unit vector at a surface with a unit normal has
    /// a length within 36 raw units (less than `1e-8`) of one.
    pub proof fn lemma_reflection_length(self, n: Vec3)
        requires
            self.is_unit(),
            n.is_unit(),
        ensures
            ONE_RAW - 36 <= self.reflect_spec(n).length_spec()@ <= ONE_RAW + 32,
            self.reflect_spec(n).within(4 * ONE_RAW),
    {
        let s: int = 0x1_0000_0000;
        let d = self.dot_spec(n);
        let k = d.add_spec(d);
        let w = n.scale_spec(k);
        let r = self.sub_spec(w);
        self.lemma_unit_square();
        n.lemma_unit_square();
        self.lemma_dot_exact_bound(n);
        self.lemma_dot_error(n);
        let x = self.dot_exact(n);
        let u2 = self.dot_exact(self);
        let n2 = n.dot_exact(n);
        let top: int = 0x1_0000_0002_0000_0001;
        assert(x * x < top * top) by (nonlinear_arith)
            requires
                x * x <= u2 * n2,
                0 <= u2 < top,
                0 <= n2 < top,
        {
            assert(u2 * n2 < top * top);
        }
        lemma_below_by_squares(x, top);
        assert(-(s + 5) <= d@ <= s + 5);
        assert(k@ == 2 * d@);
        let tau = x - s * d@;
        // the components of the mirror image
        k.lemma_mul_small(n.x);
        k.lemma_mul_small(n.y);
        k.lemma_mul_small(n.z);
        assert(n.x@ * k@ == k@ * n.x@ && n.y@ * k@ == k@ * n.y@ && n.z@ * k@ == k@ * n.z@)
            by (nonlinear_arith);
        let rho_x = k@ * n.x@ - s * w.x@;
        let rho_y = k@ * n.y@ - s * w.y@;
        let rho_z = k@ * n.z@ - s * w.z@;
        assert(r.x@ == self.x@ - w.x@ && r.y@ == self.y@ - w.y@ && r.z@ == self.z@ - w.z@);
        lemma_mirrored_square(s, k@, self.x@, n.x@, w.x@, r.x@, rho_x);
        lemma_mirrored_square(s, k@, self.y@, n.y@, w.y@, r.y@, rho_y);
        lemma_mirrored_square(s, k@, self.z@, n.z@, w.z@, r.z@, rho_z);
        let r2 = r.dot_exact(r);
        let kk = k@ * k@;
        let ur = self.x@ * rho_x + self.y@ * rho_y + self.z@ * rho_z;
        let nr = n.x@ * rho_x + n.y@ * rho_y + n.z@ * rho_z;
        let rr = rho_x * rho_x + rho_y * rho_y + rho_z * rho_z;
        assert(s * s * r2 == s * s * (r.x@ * r.x@) + s * s * (r.y@ * r.y@) + s * s * (r.z@
            * r.z@)) by (nonlinear_arith)
            requires
                r2 == r.x@ * r.x@ + r.y@ * r.y@ + r.z@ * r.z@,
        ;
        assert(s * s * u2 == s * s * (self.x@ * self.x@) + s * s * (self.y@ * self.y@) + s * s * (
        self.z@ * self.z@)) by (nonlinear_arith)
            requires
                u2 == self.x@ * self.x@ + self.y@ * self.y@ + self.z@ * self.z@,
        ;
        assert(kk * n2 == kk * (n.x@ * n.x@) + kk * (n.y@ * n.y@) + kk * (n.z@ * n.z@))
            by (nonlinear_arith)
            requires
                n2 == n.x@ * n.x@ + n.y@ * n.y@ + n.z@ * n.z@,
        ;
        assert(s * (k@ * x) == s * (k@ * (self.x@ * n.x@)) + s * (k@ * (self.y@ * n.y@)) + s * (k@
            * (self.z@ * n.z@))) by (nonlinear_arith)
            requires
                x == self.x@ * n.x@ + self.y@ * n.y@ + self.z@ * n.z@,
        ;
        assert(s * ur == s * (self.x@ * rho_x) + s * (self.y@ * rho_y) + s * (self.z@ * rho_z))
            by (nonlinear_arith)
            requires
                ur == self.x@ * rho_x + self.y@ * rho_y + self.z@ * rho_z,
        ;
        assert(k@ * nr == k@ * (n.x@ * rho_x) + k@ * (n.y@ * rho_y) + k@ * (n.z@ * rho_z))
            by (nonlinear_arith)
            requires
                nr == n.x@ * rho_x + n.y@ * rho_y + n.z@ * rho_z,
        ;
        assert(s * s * r2 == s * s * u2 + kk * n2 + rr - 2 * (s * (k@ * x)) + 2 * (s * ur) - 2 * (k@
            * nr));
        // twice the exact dot product is `s * k` plus twice its rounding
        assert(2 * (s * (k@ * x)) == kk * (s * s) + 2 * (s * (k@ * tau))) by (nonlinear_arith)
            requires
                2 * x == s * k@ + 2 * tau,
                kk == k@ * k@,
        ;
        let turn = kk * (n2 - s * s);
        assert(turn == kk * n2 - kk * (s * s)) by (nonlinear_arith)
            requires
                turn == kk * (n2 - s * s),
        ;
        assert(s * s * r2 == s * s * u2 + turn + rr - 2 * (s * (k@ * tau)) + 2 * (s * ur) - 2 * (k@
            * nr));
        // each term is small beside `s^3`
        let kb = 2 * s + 10;
        lemma_product_bound(k@, k@, n2 - s * s, kb, kb, 8 * s);
        assert(k@ * (k@ * (n2 - s * s)) == turn) by (nonlinear_arith)
            requires
                turn == (k@ * k@) * (n2 - s * s),
        ;
        lemma_product_bound(s, k@, tau, s, kb, 3 * s);
        lemma_product_bound(1, self.x@, rho_x, 1, s, s);
        lemma_product_bound(1, self.y@, rho_y, 1, s, s);
        lemma_product_bound(1, self.z@, rho_z, 1, s, s);
        lemma_product_bound(1, n.x@, rho_x, 1, s, s);
        lemma_product_bound(1, n.y@, rho_y, 1, s, s);
        lemma_product_bound(1, n.z@, rho_z, 1, s, s);
        lemma_product_bound(1, rho_x, rho_x, 1, s, s);
        lemma_product_bound(1, rho_y, rho_y, 1, s, s);
        lemma_product_bound(1, rho_z, rho_z, 1, s, s);
        assert(-(3 * (s * s)) <= ur <= 3 * (s * s));
        assert(-(3 * (s * s)) <= nr <= 3 * (s * s));
        assert(-(3 * (s * s)) <= rr <= 3 * (s * s));
        lemma_product_bound(1, s, ur, 1, s, 3 * (s * s));
        lemma_product_bound(1, k@, nr, 1, kb, 3 * (s * s));
        let cube = s * (s * s);
        assert(kb * (kb * (8 * s)) <= 33 * cube && s * (kb * (3 * s)) <= 7 * cube && s * (3 * (s
            * s)) == 3 * cube && kb * (3 * (s * s)) <= 7 * cube && 3 * (s * s) <= cube)
            by (nonlinear_arith)
            requires
                s == 0x1_0000_0000,
                kb == 2 * s + 10,
                cube == s * (s * s),
        ;
        assert(-(63 * cube) <= s * s * r2 - s * s * u2 <= 63 * cube);
        assert(cube == s * s * s) by (nonlinear_arith)
            requires
                cube == s * (s * s),
        ;
        assert(u2 - 63 * s <= r2 <= u2 + 63 * s) by (nonlinear_arith)
            requires
                -(63 * (s * s * s)) <= s * s * r2 - s * s * u2 <= 63 * (s * s * s),
                s > 0,
        {
            assert(s * s * (r2 - u2) == s * s * r2 - s * s * u2);
            assert(63 * (s * s * s) == s * s * (63 * s));
            assert(s * s > 0);
        }
        // the length of the mirror image
        assert(-(3 * s) <= w.x@ <= 3 * s && -(3 * s) <= w.y@ <= 3 * s && -(3 * s) <= w.z@ <= 3 * s);
        r.lemma_length_in_range(4 * s);
        r.lemma_length();
        let l = floor_sqrt(r2);
        assert(l * l < (s + 33) * (s + 33) && (s - 36) * (s - 36) < (l + 1) * (l + 1))
            by (nonlinear_arith)
            requires
                l * l <= r2 < (l + 1) * (l + 1),
                0x1_0000_0000_0000_0000 - 71 * 0x1_0000_0000 <= r2 <= 0x1_0000_0000_0000_0000 + 65
                    * 0x1_0000_0000,
                s == 0x1_0000_0000,
        ;
        lemma_below_by_squares(l, s + 33);
        lemma_below_by_squares(s - 36, l + 1);
    }

    /// The sum of the magnitudes of the raw components.
    pub open spec fn taxicab_spec(self) -> int {
        magnitude(self.x@) + magnitude(self.y@) + magnitude(self.z@)
    }

    /// The sum of the magnitudes of the components of a unit vector is below
    /// seven quarters of one plus one raw unit.
    pub proof fn lemma_unit_taxicab(self)
        requires
            self.is_unit(),
        ensures
            4 * self.taxicab_spec() < 7 * (ONE_RAW + 1),
    {
        self.lemma_unit_square();
        let a = magnitude(self.x@);
        let b = magnitude(self.y@);
        let c = magnitude(self.z@);
        let t = a + b + c;
        let n2 = self.dot_exact(self);
        assert(a * a == self.x@ * self.x@ && b * b == self.y@ * self.y@ && c * c == self.z@
            * self.z@) by (nonlinear_arith)
            requires
                a == magnitude(self.x@),
                b == magnitude(self.y@),
                c == magnitude(self.z@),
        ;
        assert(t * t <= 3 * n2) by (nonlinear_arith)
            requires
                t == a + b + c,
                a * a + b * b + c * c == n2,
        {
            assert((a - b) * (a - b) >= 0);
            assert((b - c) * (b - c) >= 0);
            assert((a - c) * (a - c) >= 0);
        }
        let top: int = 0x7_0000_0007;
        assert((4 * t) * (4 * t) < top * top) by (nonlinear_arith)
            requires
                t * t <= 3 * n2,
                n2 < 0x1_0000_0002_0000_0001,
                top == 0x7_0000_0007,
        ;
        lemma_below_by_squares(4 * t, top);
    }

    /// The law of reflection, with the error of the arithmetic: the mirror
    /// image of `self` at a surface with normal `n` has the opposite
    /// component along `n`, up to two raw units, the sum of the magnitudes of
    /// the components of `n` in raw units of `2^-32`, and twice that
    /// component times the amount by which the squared length of `n` is off
    /// one. It holds for a normal with no component above one and a vector
    /// with no component above `2^24`, in magnitude.
    pub proof fn lemma_reflection_law(self, n: Vec3)
        requires
            self.within(0x100_0000_0000_0000),
            n.within(ONE_RAW as int),
        ensures
            ({
                let before = self.dot_spec(n)@;
                let after = self.reflect_spec(n).dot_spec(n)@;
                let off = magnitude(ONE_RAW * ONE_RAW - n.dot_exact(n));
                ONE_RAW * ONE_RAW * magnitude(after + before) <= 2 * (magnitude(before) * off) + 2
                    * (ONE_RAW * ONE_RAW) + ONE_RAW * n.taxicab_spec()
            }),
    {
        let s = ONE_RAW as int;
        let bound = 0x100_0000_0000_0000int;
        let d = self.dot_spec(n);
        let k = d.add_spec(d);
        let w = n.scale_spec(k);
        let r = self.sub_spec(w);
        let after = r.dot_spec(n);
        let n2 = n.dot_exact(n);
        self.lemma_dot_small(n, bound);
        assert(k@ == 2 * d@);
        k.lemma_mul_small(n.x);
        k.lemma_mul_small(n.y);
        k.lemma_mul_small(n.z);
        assert(n.x@ * k@ == k@ * n.x@ && n.y@ * k@ == k@ * n.y@ && n.z@ * k@ == k@ * n.z@)
            by (nonlinear_arith);
        let rho_x = k@ * n.x@ - s * w.x@;
        let rho_y = k@ * n.y@ - s * w.y@;
        let rho_z = k@ * n.z@ - s * w.z@;
        assert(r.x@ == self.x@ - w.x@ && r.y@ == self.y@ - w.y@ && r.z@ == self.z@ - w.z@);
        r.lemma_dot_small(n, 7 * bound);
        let tau = self.dot_exact(n) - s * d@;
        let sigma = r.dot_exact(n) - s * after@;
        // the exact dot product of the mirror image with the normal
        lemma_mirrored_component(s, k@, self.x@, n.x@, w.x@, r.x@, rho_x);
        lemma_mirrored_component(s, k@, self.y@, n.y@, w.y@, r.y@, rho_y);
        lemma_mirrored_component(s, k@, self.z@, n.z@, w.z@, r.z@, rho_z);
        assert(k@ * n2 == k@ * (n.x@ * n.x@) + k@ * (n.y@ * n.y@) + k@ * (n.z@ * n.z@))
            by (nonlinear_arith)
            requires
                n2 == n.x@ * n.x@ + n.y@ * n.y@ + n.z@ * n.z@,
        ;
        assert(s * r.dot_exact(n) == s * (r.x@ * n.x@) + s * (r.y@ * n.y@) + s * (r.z@ * n.z@))
            by (nonlinear_arith)
            requires
                r.dot_exact(n) == r.x@ * n.x@ + r.y@ * n.y@ + r.z@ * n.z@,
        ;
        assert(s * self.dot_exact(n) == s * (self.x@ * n.x@) + s * (self.y@ * n.y@) + s * (self.z@
            * n.z@)) by (nonlinear_arith)
            requires
                self.dot_exact(n) == self.x@ * n.x@ + self.y@ * n.y@ + self.z@ * n.z@,
        ;
        assert(s * r.dot_exact(n) == s * self.dot_exact(n) - k@ * n2 + (rho_x * n.x@ + rho_y * n.y@
            + rho_z * n.z@));
        let slack = rho_x * n.x@ + rho_y * n.y@ + rho_z * n.z@;
        let cab = n.taxicab_spec();
        assert(-(s * cab) <= slack <= s * cab) by (nonlinear_arith)
            requires
                slack == rho_x * n.x@ + rho_y * n.y@ + rho_z * n.z@,
                cab == magnitude(n.x@) + magnitude(n.y@) + magnitude(n.z@),
                -s < rho_x < s,
                -s < rho_y < s,
                -s < rho_z < s,
                s > 0,
        {
            assert(-(s * magnitude(n.x@)) <= rho_x * n.x@ <= s * magnitude(n.x@));
            assert(-(s * magnitude(n.y@)) <= rho_y * n.y@ <= s * magnitude(n.y@));
            assert(-(s * magnitude(n.z@)) <= rho_z * n.z@ <= s * magnitude(n.z@));
        }
        let turn = d@ * (s * s - n2);
        assert(s * s * (after@ + d@) == 2 * turn + s * (tau - sigma) + slack) by (nonlinear_arith)
            requires
                s * r.dot_exact(n) == s * self.dot_exact(n) - k@ * n2 + slack,
                k@ == 2 * d@,
                tau == self.dot_exact(n) - s * d@,
                sigma == r.dot_exact(n) - s * after@,
                turn == d@ * (s * s - n2),
        ;
        lemma_magnitude_of_product(d@, s * s - n2);
        assert(-2 * (s * s) <= s * (tau - sigma) <= 2 * (s * s)) by (nonlinear_arith)
            requires
                -s < tau < s,
                -s < sigma < s,
                s > 0,
        ;
        assert(s * s * magnitude(after@ + d@) == magnitude(s * s * (after@ + d@)))
            by (nonlinear_arith)
            requires
                s > 0,
        ;
    }

    /// The law of reflection at a unit normal: the component of the mirror
    /// image along the normal is the opposite of the one of the vector, up
    /// to four raw units and sixteen raw units for each unit of that
    /// component; and up to three raw units (less than `1e-9`) where the
    /// squared length of the normal is exactly one.
    pub proof fn lemma_reflection_law_unit(self, n: Vec3)
        requires
            self.within(0x100_0000_0000_0000),
            n.is_unit(),
        ensures
            ({
                let before = self.dot_spec(n)@;
                let after = self.reflect_spec(n).dot_spec(n)@;
                &&& ONE_RAW * magnitude(after + before) < 16 * magnitude(before) + 4 * ONE_RAW
                &&& n.dot_exact(n) == ONE_RAW * ONE_RAW ==> magnitude(after + before) <= 3
            }),
    {
        let s: int = 0x1_0000_0000;
        let before = self.dot_spec(n)@;
        let after = self.reflect_spec(n).dot_spec(n)@;
        let off = magnitude(s * s - n.dot_exact(n));
        let cab = n.taxicab_spec();
        self.lemma_reflection_law(n);
        n.lemma_unit_square();
        n.lemma_unit_taxicab();
        assert(s * s == 0x1_0000_0000_0000_0000) by (nonlinear_arith)
            requires
                s == 0x1_0000_0000,
        ;
        assert(off <= 8 * s);
        let m = magnitude(before);
        assert(m * off <= m * (8 * s)) by (nonlinear_arith)
            requires
                0 <= m,
                0 <= off <= 8 * s,
        ;
        assert(m * (8 * s) == s * (8 * m)) by (nonlinear_arith);
        let gap = magnitude(after + before);
        assert(s * cab < 2 * (s * s)) by (nonlinear_arith)
            requires
                4 * cab < 7 * (s + 1),
                s == 0x1_0000_0000,
        ;
        assert(s * (s * gap) < s * (16 * m + 4 * s)) by (nonlinear_arith)
            requires
                s * s * gap <= 2 * (s * (8 * m)) + 2 * (s * s) + s * cab,
                s * cab < 2 * (s * s),
        ;
        assert(s * gap < 16 * m + 4 * s) by (nonlinear_arith)
            requires
                s * (s * gap) < s * (16 * m + 4 * s),
                s > 0,
        ;
        if n.dot_exact(n) == s * s {
            assert(off == 0);
            assert(m * off == 0) by (nonlinear_arith)
                requires
                    off == 0,
            ;
            assert(gap < 4) by (nonlinear_arith)
                requires
                    s * s * gap <= 2 * (s * s) + s * cab,
                    4 * cab < 7 * (s + 1),
                    s == 0x1_0000_0000,
                    gap >= 0,
            {
                assert(4 * (s * cab) < 7 * (s * (s + 1)));
                assert(4 * (s * s * gap) < 16 * (s * s));
            }
        }
    }

    /// The squared length of a vector with no component above `2^14` in
    /// magnitude does not saturate, and is less than one raw unit below the
    /// exact squared length.
    pub proof fn lemma_length_squared_error(self)
        requires
            self.within(0x4000_0000_0000),
        ensures
            ({
                let q = self.length_squared_spec()@;
                &&& 0 <= q <= 0x3000_0000_0000_0000
                &&& ONE_RAW * q <= self.dot_exact(self) < ONE_RAW * q + ONE_RAW
            }),
    {
        self.lemma_dot_error(self);
        assert(self.x@ * self.x@ >= 0 && self.y@ * self.y@ >= 0 && self.z@ * self.z@ >= 0)
            by (nonlinear_arith);
        let b: int = 0x4000_0000_0000;
        assert(self.x@ * self.x@ <= b * b && self.y@ * self.y@ <= b * b && self.z@ * self.z@ <= b
            * b && b * b == 0x1000_0000_0000_0000_0000_0000) by (nonlinear_arith)
            requires
                -b <= self.x@ <= b,
                -b <= self.y@ <= b,
                -b <= self.z@ <= b,
                b == 0x4000_0000_0000,
        ;
    }

    /// The exact sum of the squares of the raw components is at most
    /// `3 * 2^126`, and its root, rounded down, is the length unless that
    /// saturates.
    pub proof fn lemma_length(self)
        ensures
            0 <= self.dot_exact(self) <= 3 * 0x4000_0000_0000_0000_0000_0000_0000_0000,
            is_floor_sqrt(self.dot_exact(self), floor_sqrt(self.dot_exact(self))),
            self.length_spec()@ == saturate(floor_sqrt(self.dot_exact(self))),
            self.length_spec()@ >= 0,
            self.length_spec()@ == 0 <==> self == Self::zero_spec(),
    {
        let v2 = self.dot_exact(self);
        assert(0 <= self.x@ * self.x@ <= 0x4000_0000_0000_0000_0000_0000_0000_0000 && 0 <= self.y@
            * self.y@ <= 0x4000_0000_0000_0000_0000_0000_0000_0000 && 0 <= self.z@ * self.z@
            <= 0x4000_0000_0000_0000_0000_0000_0000_0000) by (nonlinear_arith)
            requires
                -0x8000_0000_0000_0000 <= self.x@ <= 0x8000_0000_0000_0000,
                -0x8000_0000_0000_0000 <= self.y@ <= 0x8000_0000_0000_0000,
                -0x8000_0000_0000_0000 <= self.z@ <= 0x8000_0000_0000_0000,
        ;
        lemma_floor_sqrt_exists(v2);
        let l = floor_sqrt(v2);
        if self == Self::zero_spec() {
            assert(v2 == 0) by (nonlinear_arith)
                requires
                    v2 == self.x@ * self.x@ + self.y@ * self.y@ + self.z@ * self.z@,
                    self.x@ == 0 && self.y@ == 0 && self.z@ == 0,
            ;
            assert(is_floor_sqrt(0, 0)) by (nonlinear_arith);
            lemma_floor_sqrt_unique(0, 0);
        } else {
            assert(v2 >= 1) by (nonlinear_arith)
                requires
                    v2 == self.x@ * self.x@ + self.y@ * self.y@ + self.z@ * self.z@,
                    self.x@ != 0 || self.y@ != 0 || self.z@ != 0,
            ;
            assert(l >= 1) by (nonlinear_arith)
                requires
                    l >= 0,
                    v2 < (l + 1) * (l + 1),
                    v2 >= 1,
            ;
        }
    }

    /// The length of a vector with no component above `bound`, itself at
    /// most `2^61` raw units, is at most twice `bound` and does not saturate.
    pub proof fn lemma_length_in_range(self, bound: int)
        requires
            self.within(bound),
            0 <= bound <= 0x2000_0000_0000_0000,
        ensures
            self.length_spec()@ == floor_sqrt(self.dot_exact(self)),
            self.length_spec()@ <= 2 * bound,
    {
        self.lemma_length();
        let v2 = self.dot_exact(self);
        let l = floor_sqrt(v2);
        assert(v2 <= 3 * (bound * bound)) by (nonlinear_arith)
            requires
                v2 == self.x@ * self.x@ + self.y@ * self.y@ + self.z@ * self.z@,
                -bound <= self.x@ <= bound,
                -bound <= self.y@ <= bound,
                -bound <= self.z@ <= bound,
        ;
        assert(l <= 2 * bound) by (nonlinear_arith)
            requires
                l >= 0,
                bound >= 0,
                l * l <= v2,
                v2 <= 3 * (bound * bound),
        {
            if l > 2 * bound {
                assert(l * l >= (2 * bound + 1) * (2 * bound + 1));
            }
        }
    }

    /// The opposite of a unit vector is a unit vector.
    pub proof fn lemma_neg_is_unit(self)
        requires
            self.is_unit(),
        ensures
            self.neg_spec().is_unit(),
    {
        let n = self.neg_spec();
        assert(n.x@ == -self.x@ && n.y@ == -self.y@ && n.z@ == -self.z@);
        assert(n.dot_exact(n) == self.dot_exact(self)) by (nonlinear_arith)
            requires
                n.x@ == -self.x@ && n.y@ == -self.y@ && n.z@ == -self.z@,
                n.dot_exact(n) == n.x@ * n.x@ + n.y@ * n.y@ + n.z@ * n.z@,
                self.dot_exact(self) == self.x@ * self.x@ + self.y@ * self.y@ + self.z@ * self.z@,
        ;
    }

    /// The exact squared length of a unit vector is one, up to `8 * 2^-32`
    /// below and `2 * 2^-32` above.
    pub proof fn lemma_unit_square(self)
        requires
            self.is_unit(),
        ensures
            (ONE_RAW - 4) * (ONE_RAW - 4) <= self.dot_exact(self) < (ONE_RAW + 1) * (ONE_RAW + 1),
            0x1_0000_0000_0000_0000 - 8 * ONE_RAW <= self.dot_exact(self) <= 0x1_0000_0000_0000_0000
                + 2 * ONE_RAW,
    {
        self.lemma_length_in_range(ONE_RAW as int);
        self.lemma_length();
        let n2 = self.dot_exact(self);
        let l = floor_sqrt(n2);
        assert((0x1_0000_0000 - 4) * (0x1_0000_0000 - 4) <= l * l && (l + 1) * (l + 1) <= (
        0x1_0000_0000 + 1) * (0x1_0000_0000 + 1)) by (nonlinear_arith)
            requires
                0x1_0000_0000 - 4 <= l <= 0x1_0000_0000,
        ;
    }

    /// What normalizing a vector other than zero works with: the lifted
    /// vector `w` has the components of the vector times the lift, the
    /// largest of them between `2^61` and `2^63` in magnitude; its length `l`
    /// is at least `2^61` and at least each of its components; each
    /// component of the unit vector is the rounded quotient of the one of
    /// `w` by `l` and at most one in magnitude; and the exact squared length
    /// of the unit vector is below `(1 + 2^-32)^2` and not below
    /// `1 - 6 * 2^-32`.
    pub proof fn lemma_normalized_parts(self)
        requires
            self != Self::zero_spec(),
        ensures
            ({
                let f = lift_spec(self.largest_spec());
                let w = self.lifted_spec();
                let l = floor_sqrt(w.dot_exact(w));
                let n = self.normalized_spec();
                &&& f >= 1
                &&& w.x@ == self.x@ * f && w.y@ == self.y@ * f && w.z@ == self.z@ * f
                &&& l >= 0x2000_0000_0000_0000
                &&& w.within(l)
                &&& l * l <= w.dot_exact(w) < (l + 1) * (l + 1)
                &&& w.dot_exact(w) == f * f * self.dot_exact(self)
                &&& n.x@ == trunc_div(w.x@ * ONE_RAW, l)
                &&& n.y@ == trunc_div(w.y@ * ONE_RAW, l)
                &&& n.z@ == trunc_div(w.z@ * ONE_RAW, l)
                &&& is_quotient(w.x@, l, n.x@)
                &&& is_quotient(w.y@, l, n.y@)
                &&& is_quotient(w.z@, l, n.z@)
                &&& n.within(ONE_RAW as int)
                &&& 0x1_0000_0000_0000_0000 - 6 * 0x1_0000_0000 <= n.dot_exact(n) < 0x1_0000_0001
                    * 0x1_0000_0001
            }),
    {
        let s = ONE_RAW as int;
        let m = self.largest_spec();
        let f = lift_spec(m);
        lemma_lift(m);
        let w = self.lifted_spec();
        // the lifted components fit
        assert(-(f * m) <= self.x@ * f <= f * m && -(f * m) <= self.y@ * f <= f * m && -(f * m)
            <= self.z@ * f <= f * m) by (nonlinear_arith)
            requires
                f >= 1,
                -m <= self.x@ <= m,
                -m <= self.y@ <= m,
                -m <= self.z@ <= m,
        ;
        if m >= 0x2000_0000_0000_0000 {
            assert(self.x@ * 1 == self.x@ && self.y@ * 1 == self.y@ && self.z@ * 1 == self.z@);
        }
        assert(w.x@ == self.x@ * f && w.y@ == self.y@ * f && w.z@ == self.z@ * f);
        assert(magnitude(w.x@) == f * m || magnitude(w.y@) == f * m || magnitude(w.z@) == f * m)
            by (nonlinear_arith)
            requires
                w.x@ == self.x@ * f && w.y@ == self.y@ * f && w.z@ == self.z@ * f,
                self.x@ == m || self.x@ == -m || self.y@ == m || self.y@ == -m || self.z@ == m
                    || self.z@ == -m,
                f >= 1,
                m >= 0,
        ;
        let big = f * m;
        let w2 = w.dot_exact(w);
        lemma_lifted_square(self.x@, f);
        lemma_lifted_square(self.y@, f);
        lemma_lifted_square(self.z@, f);
        assert(f * f * self.dot_exact(self) == f * f * (self.x@ * self.x@) + f * f * (self.y@
            * self.y@) + f * f * (self.z@ * self.z@)) by (nonlinear_arith)
            requires
                self.dot_exact(self) == self.x@ * self.x@ + self.y@ * self.y@ + self.z@ * self.z@,
        ;
        assert(w2 == f * f * self.dot_exact(self));
        // the length of the lifted vector dominates its components
        w.lemma_length();
        let l = floor_sqrt(w2);
        assert(w.x@ * w.x@ >= 0 && w.y@ * w.y@ >= 0 && w.z@ * w.z@ >= 0) by (nonlinear_arith);
        assert(magnitude(w.x@) * magnitude(w.x@) == w.x@ * w.x@ && magnitude(w.y@) * magnitude(
            w.y@,
        ) == w.y@ * w.y@ && magnitude(w.z@) * magnitude(w.z@) == w.z@ * w.z@)
            by (nonlinear_arith);
        lemma_root_dominates(w2, magnitude(w.x@));
        lemma_root_dominates(w2, magnitude(w.y@));
        lemma_root_dominates(w2, magnitude(w.z@));
        assert(l >= big);
        // the components of the unit vector
        let n = self.normalized_spec();
        lemma_trunc_div(w.x@ * s, l);
        lemma_trunc_div(w.y@ * s, l);
        lemma_trunc_div(w.z@ * s, l);
        let qx = trunc_div(w.x@ * s, l);
        let qy = trunc_div(w.y@ * s, l);
        let qz = trunc_div(w.z@ * s, l);
        lemma_quotient_within(w.x@, l, qx);
        lemma_quotient_within(w.y@, l, qy);
        lemma_quotient_within(w.z@, l, qz);
        assert(n.x@ == qx && n.y@ == qy && n.z@ == qz);
        let n2 = n.dot_exact(n);
        lemma_unit_component(l, w.x@, n.x@, w.x@ * s - l * n.x@);
        lemma_unit_component(l, w.y@, n.y@, w.y@ * s - l * n.y@);
        lemma_unit_component(l, w.z@, n.z@, w.z@ * s - l * n.z@);
        let a = magnitude(w.x@) + magnitude(w.y@) + magnitude(w.z@);
        assert(l * l * n2 == l * l * (n.x@ * n.x@) + l * l * (n.y@ * n.y@) + l * l * (n.z@ * n.z@))
            by (nonlinear_arith)
            requires
                n2 == n.x@ * n.x@ + n.y@ * n.y@ + n.z@ * n.z@,
        ;
        assert(l * a == l * magnitude(w.x@) + l * magnitude(w.y@) + l * magnitude(w.z@))
            by (nonlinear_arith)
            requires
                a == magnitude(w.x@) + magnitude(w.y@) + magnitude(w.z@),
        ;
        assert(l * l * n2 <= 0x1_0000_0000_0000_0000 * w2);
        assert(l * l * n2 + 0x2_0000_0000 * (l * a) >= 0x1_0000_0000_0000_0000 * w2);
        lemma_unit_length(l, w2, n2, a);
    }

    /// A normalized vector has length one, up to the error of the
    /// arithmetic: the length of the unit vector of any vector other than
    /// zero is at most four raw units (less than `1e-9`) below one, and not
    /// above one.
    pub proof fn lemma_normalized_length(self)
        requires
            self != Self::zero_spec(),
        ensures
            ONE_RAW - 4 <= self.normalized_spec().length_spec()@ <= ONE_RAW,
            self.normalized_spec().within(ONE_RAW as int),
            self.normalized_spec().is_unit(),
    {
        let n = self.normalized_spec();
        self.lemma_normalized_parts();
        n.lemma_length();
        let n2 = n.dot_exact(n);
        let l1 = floor_sqrt(n2);
        assert(l1 * l1 < 0x1_0000_0001 * 0x1_0000_0001);
        lemma_below_by_squares(l1, 0x1_0000_0001);
        assert((0x1_0000_0000 - 4) * (0x1_0000_0000 - 4) < (l1 + 1) * (l1 + 1));
        lemma_below_by_squares(0x1_0000_0000 - 4, l1 + 1);
    }

    pub fn new(x: Fixed, y: Fixed, z: Fixed) -> (r: Vec3)
        ensures
            r == (Vec3 { x, y, z }),
    {
        Vec3 { x, y, z }
    }

    pub fn zero() -> (r: Vec3)
        ensures
            r == Self::zero_spec(),
    {
        Vec3 { x: Fixed::zero(), y: Fixed::zero(), z: Fixed::zero() }
    }

    pub fn x(self) -> (r: Fixed)
        ensures
            r == self.x,
    {
        self.x
    }

    pub fn y(self) -> (r: Fixed)
        ensures
            r == self.y,
    {
        self.y
    }

    pub fn z(self) -> (r: Fixed)
        ensures
            r == self.z,
    {
        self.z
    }

    pub fn add(self, o: Vec3) -> (r: Vec3)
        ensures
            r == self.add_spec(o),
    {
        Vec3 { x: self.x.add(o.x), y: self.y.add(o.y), z: self.z.add(o.z) }
    }

    pub fn sub(self, o: Vec3) -> (r: Vec3)
        ensures
            r == self.sub_spec(o),
    {
        Vec3 { x: self.x.sub(o.x), y: self.y.sub(o.y), z: self.z.sub(o.z) }
    }

    pub fn neg(self) -> (r: Vec3)
        ensures
            r == self.neg_spec(),
    {
        Vec3 { x: self.x.neg(), y: self.y.neg(), z: self.z.neg() }
    }

    /// The vector times the number `k`.
    pub fn scale(self, k: Fixed) -> (r: Vec3)
        ensures
            r == self.scale_spec(k),
    {
        Vec3 { x: self.x.mul(k), y: self.y.mul(k), z: self.z.mul(k) }
    }

    /// The vector divided by the number `k`, which must not be zero.
    pub fn div(self, k: Fixed) -> (r: Vec3)
        requires
            k@ != 0,
        ensures
            r == self.div_spec(k),
    {
        Vec3 { x: self.x.div(k), y: self.y.div(k), z: self.z.div(k) }
    }

    /// Component-wise product, as used to attenuate one color by another.
    pub fn mul(self, o: Vec3) -> (r: Vec3)
        ensures
            r == self.mul_spec(o),
    {
        Vec3 { x: self.x.mul(o.x), y: self.y.mul(o.y), z: self.z.mul(o.z) }
    }

    /// The dot product, rounded once: the products are summed exactly.
    pub fn dot(self, o: Vec3) -> (r: Fixed)
        ensures
            r == self.dot_spec(o),
    {
        let px = split_product(self.x.raw, o.x.raw);
        let py = split_product(self.y.raw, o.y.raw);
        let pz = split_product(self.z.raw, o.z.raw);
        let whole: i128 = px.0 + py.0 + pz.0;
        let rest: i128 = px.1 + py.1 + pz.1;
        Fixed { raw: saturate_wide(join_products(whole, rest)) }
    }

    pub fn cross(self, o: Vec3) -> (r: Vec3)
        ensures
            r == self.cross_spec(o),
    {
        Vec3 {
            x: self.y.mul(o.z).sub(self.z.mul(o.y)),
            y: self.z.mul(o.x).sub(self.x.mul(o.z)),
            z: self.x.mul(o.y).sub(self.y.mul(o.x)),
        }
    }

    pub fn length_squared(self) -> (r: Fixed)
        ensures
            r == self.length_squared_spec(),
            r@ >= 0,
    {
        proof {
            self.lemma_length_squared_nonneg();
        }
        self.dot(self)
    }

    /// The exact sum of the squares of the raw components.
    fn square_sum(self) -> (n: u128)
        ensures
            n == self.dot_exact(self),
    {
        wide_square(self.x.raw as i128) + wide_square(self.y.raw as i128) + wide_square(
            self.z.raw as i128,
        )
    }

    /// The length, rounded down; it is zero for the zero vector alone.
    pub fn length(self) -> (r: Fixed)
        ensures
            r == self.length_spec(),
            r@ >= 0,
            r@ == 0 <==> self == Self::zero_spec(),
    {
        proof {
            self.lemma_length();
        }
        let n = self.square_sum();
        let root = floor_sqrt_wide(n);
        proof {
            lemma_floor_sqrt_unique(n as int, root as int);
        }
        if root > 0x7fff_ffff_ffff_ffff {
            Fixed { raw: i64::MAX }
        } else {
            Fixed { raw: root as i64 }
        }
    }

    /// The unit vector in the direction of `self`: its length is within four
    /// raw units (less than `1e-9`) of one, whatever the length of `self`.
    /// The zero vector has no direction and is returned unchanged.
    pub fn normalized(self) -> (r: Vec3)
        ensures
            r == self.normalized_spec(),
            self != Self::zero_spec() ==> ONE_RAW - 4 <= r.length_spec()@ <= ONE_RAW,
            self != Self::zero_spec() ==> r.is_unit(),
            self == Self::zero_spec() ==> r == self,
    {
        let mx = wide_magnitude(self.x.raw);
        let my = wide_magnitude(self.y.raw);
        let mz = wide_magnitude(self.z.raw);
        let m = if mx >= my && mx >= mz {
            mx
        } else if my >= mz {
            my
        } else {
            mz
        };
        if m == 0 {
            return self;
        }
        proof {
            self.lemma_normalized_parts();
            self.lemma_normalized_length();
        }
        let mut f: i128 = 1;
        let mut lifted: u128 = m;
        while lifted < 0x2000_0000_0000_0000
            invariant
                0 < lifted <= 0x8000_0000_0000_0000,
                1 <= f,
                lifted == m * f,
                lift_spec(m as int) == f * lift_spec(lifted as int),
            decreases 0x4000_0000_0000_0000 - lifted,
        {
            proof {
                let g = lift_spec(2 * lifted as int);
                assert(f * (2 * g) == (2 * f) * g) by (nonlinear_arith);
                assert(m * (2 * f) == 2 * (m * f)) by (nonlinear_arith);
                assert(f <= lifted) by (nonlinear_arith)
                    requires
                        lifted == m * f,
                        m >= 1,
                        f >= 1,
                ;
            }
            lifted = lifted * 2;
            f = f * 2;
        }
        proof {
            assert(f * 1 == f) by (nonlinear_arith);
            assert(-lifted <= self.x@ * f <= lifted && -lifted <= self.y@ * f <= lifted && -lifted
                <= self.z@ * f <= lifted) by (nonlinear_arith)
                requires
                    f >= 1,
                    lifted == m * f,
                    -m <= self.x@ <= m,
                    -m <= self.y@ <= m,
                    -m <= self.z@ <= m,
            ;
        }
        let wx: i128 = (self.x.raw as i128) * f;
        let wy: i128 = (self.y.raw as i128) * f;
        let wz: i128 = (self.z.raw as i128) * f;
        let w2: u128 = wide_square(wx) + wide_square(wy) + wide_square(wz);
        let root = floor_sqrt_wide(w2);
        proof {
            lemma_floor_sqrt_unique(w2 as int, root as int);
        }
        let l: i128 = root as i128;
        let nx = trunc_div_wide(wx * 0x1_0000_0000, l);
        let ny = trunc_div_wide(wy * 0x1_0000_0000, l);
        let nz = trunc_div_wide(wz * 0x1_0000_0000, l);
        Vec3 { x: Fixed { raw: nx as i64 }, y: Fixed { raw: ny as i64 }, z: Fixed { raw: nz as i64 } }
    }

    pub fn near_zero(self) -> (r: bool)
        ensures
            r == self.near_zero_spec(),
    {
        -NEAR_ZERO_RAW < self.x.raw && self.x.raw < NEAR_ZERO_RAW && -NEAR_ZERO_RAW < self.y.raw
            && self.y.raw < NEAR_ZERO_RAW && -NEAR_ZERO_RAW < self.z.raw && self.z.raw
            < NEAR_ZERO_RAW
    }

    pub fn reflect(self, n: Vec3) -> (r: Vec3)
        ensures
            r == self.reflect_spec(n),
    {
        let d = self.dot(n);
        self.sub(n.scale(d.add(d)))
    }

    /// A random vector with each component in `[lo, hi)`.
    pub fn random(lo: Fixed, hi: Fixed) -> (r: Vec3)
        requires
            lo@ < hi@,
        ensures
            lo@ <= r.x@ < hi@,
            lo@ <= r.y@ < hi@,
            lo@ <= r.z@ < hi@,
    {
        let x = random_between(lo, hi);
        let y = random_between(lo, hi);
        let z = random_between(lo, hi);
        Vec3 { x, y, z }
    }

    /// A random point strictly inside the unit ball, found by drawing points
    /// of the cube `[-1, 1)^3` until one has length below one. After
    /// `SPHERE_TRIES` draws without such a point, which happens with
    /// probability below `2^-256`, the center of the ball is returned.
    pub fn random_in_unit_sphere() -> (r: Vec3)
        ensures
            r.in_unit_ball(),
    {
        let mut tries: u32 = 0;
        while tries < SPHERE_TRIES
            invariant
                tries <= SPHERE_TRIES,
            decreases SPHERE_TRIES - tries,
        {
            let v = Vec3::random(Fixed { raw: -ONE_RAW }, Fixed { raw: ONE_RAW });
            if v.length().raw < ONE_RAW {
                return v;
            }
            tries = tries + 1;
        }
        proof {
            Self::lemma_zero_length();
        }
        Vec3::zero()
    }
}

} // verus!
