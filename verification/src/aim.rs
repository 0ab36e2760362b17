//! Rays aimed at the center of a sphere.
//!
//! A ray that starts outside a sphere and points straight at its center
//! meets it at the distance of its origin from the center, less the radius.
//! The arithmetic rounds at every step, so the parameter of the hit is only
//! close to that difference; the laws here say how close.

use vstd::prelude::*;

use crate::fixed::{Fixed, ONE_RAW};
use crate::hit::{Hit, HitRecord};
use crate::ray::Ray;
use crate::sphere::Sphere;
use crate::fixed::floor_sqrt;
use crate::vec::{
    is_quotient, lemma_below_by_squares, lemma_root_dominates, lift_spec, magnitude, Vec3,
};

verus! {

/// The unit vector from a point at `oc` from the center toward the center.
pub open spec fn aimed_direction(oc: Vec3) -> Vec3 {
    oc.neg_spec().normalized_spec()
}

/// One component `d` of the direction toward the center, times the same
/// component `o` of the offset from the center: the product is not positive,
/// and `l` times it is `-2^32 * o^2`, up to `l * |o|` above.
proof fn lemma_aimed_component(l: int, o: int, d: int)
    requires
        l > 0,
        is_quotient(-o, l, d),
    ensures
        o * d <= 0,
        -0x1_0000_0000 * (o * o) <= l * (o * d) <= -0x1_0000_0000 * (o * o) + l * magnitude(o),
{
    let e = (-o) * 0x1_0000_0000 - l * d;
    assert(o * d <= 0) by (nonlinear_arith)
        requires
            o >= 0 ==> d <= 0,
            o <= 0 ==> d >= 0,
    ;
    assert(l * (o * d) == -0x1_0000_0000 * (o * o) - o * e) by (nonlinear_arith)
        requires
            e == (-o) * 0x1_0000_0000 - l * d,
    ;
    assert(0 <= -(o * e) <= l * magnitude(o)) by (nonlinear_arith)
        requires
            l > 0,
            o <= 0 ==> 0 <= e < l,
            o >= 0 ==> -l < e <= 0,
    ;
}

/// The component `d` of a direction points against the offset `o`, and is
/// no larger than `o / l` in magnitude.
pub open spec fn points_back(o: int, l: int, d: int) -> bool {
    &&& o >= 0 ==> d <= 0 && l * d >= -(o * ONE_RAW)
    &&& o <= 0 ==> d >= 0 && l * d <= -(o * ONE_RAW)
}

/// A component of the direction toward the center points back along the
/// offset: `d` is the quotient of the lifted component `w = -(o * f)` by the
/// lifted length `lw`, which is at least `f * l`.
proof fn lemma_points_back(f: int, l: int, lw: int, o: int, w: int, d: int)
    requires
        f >= 1,
        l >= 0,
        f * l <= lw,
        w == -(o * f),
        is_quotient(w, lw, d),
    ensures
        points_back(o, l, d),
        o * d <= 0,
{
    assert((o >= 0 ==> w <= 0) && (o <= 0 ==> w >= 0)) by (nonlinear_arith)
        requires
            w == -(o * f),
            f >= 1,
    ;
    assert(w * 0x1_0000_0000 == -(f * (o * 0x1_0000_0000))) by (nonlinear_arith)
        requires
            w == -(o * f),
    ;
    assert((d <= 0 ==> f * (l * d) >= lw * d) && (d >= 0 ==> f * (l * d) <= lw * d))
        by (nonlinear_arith)
        requires
            f * l <= lw,
    ;
    assert((o >= 0 ==> l * d >= -(o * 0x1_0000_0000)) && (o <= 0 ==> l * d <= -(o
        * 0x1_0000_0000))) by (nonlinear_arith)
        requires
            f >= 1,
            o >= 0 ==> d <= 0 && f * (l * d) >= -(f * (o * 0x1_0000_0000)),
            o <= 0 ==> d >= 0 && f * (l * d) <= -(f * (o * 0x1_0000_0000)),
    ;
    assert(o * d <= 0) by (nonlinear_arith)
        requires
            o >= 0 ==> d <= 0,
            o <= 0 ==> d >= 0,
    ;
}

/// The exact component `x` of the offset along the direction toward the
/// center is `-2^32 * l`, `l` being the distance, up to less than
/// `3 * 2^32` below and the sum `a` of the magnitudes of the offset above.
proof fn lemma_aimed_dot(f: int, l: int, lw: int, v2: int, x: int, a: int)
    requires
        f >= 1,
        l >= 1,
        lw >= 1,
        f * l <= lw,
        l * l <= v2 < (l + 1) * (l + 1),
        lw * lw <= f * f * v2,
        -0x1_0000_0000 * (f * f * v2) <= lw * (f * x) <= -0x1_0000_0000 * (f * f * v2) + lw * (f
            * a),
    ensures
        -0x1_0000_0000 * (l + 3) < x <= -0x1_0000_0000 * l + a,
{
    // the two lengths multiply to at most the lifted square
    assert(lw * l <= f * v2) by (nonlinear_arith)
        requires
            f >= 1,
            l >= 1,
            lw >= 1,
            l * l <= v2,
            lw * lw <= f * f * v2,
    {
        if lw * l > f * v2 {
            assert((lw * l) * (lw * l) > (f * v2) * (f * v2));
            assert((lw * l) * (lw * l) == (lw * lw) * (l * l));
            assert((lw * lw) * (l * l) <= (f * f * v2) * (l * l));
            assert((f * f * v2) * (l * l) <= (f * f * v2) * v2);
            assert((f * f * v2) * v2 == (f * v2) * (f * v2));
        }
    }
    assert(x <= -0x1_0000_0000 * l + a) by (nonlinear_arith)
        requires
            f >= 1,
            lw >= 1,
            lw * l <= f * v2,
            lw * (f * x) <= -0x1_0000_0000 * (f * f * v2) + lw * (f * a),
    {
        assert(-0x1_0000_0000 * (f * f * v2) == -0x1_0000_0000 * f * (f * v2));
        assert(0x1_0000_0000 * f * (f * v2) >= 0x1_0000_0000 * f * (lw * l));
        assert(lw * (f * x) <= (lw * f) * (-0x1_0000_0000 * l + a));
        assert(lw * (f * x) == (lw * f) * x);
        assert(lw * f >= 1);
    }
    assert(x > -0x1_0000_0000 * (l + 3)) by (nonlinear_arith)
        requires
            f >= 1,
            l >= 1,
            f * l <= lw,
            v2 < (l + 1) * (l + 1),
            -0x1_0000_0000 * (f * f * v2) <= lw * (f * x),
    {
        if x <= -0x1_0000_0000 * (l + 3) {
            assert(f * x <= f * (-0x1_0000_0000 * (l + 3)));
            assert(lw * (f * x) <= (f * l) * (f * x));
            assert((f * l) * (f * x) <= (f * l) * (f * (-0x1_0000_0000 * (l + 3))));
            assert((f * l) * (f * (-0x1_0000_0000 * (l + 3))) == -0x1_0000_0000 * (f * f * (l * (l
                + 3))));
            assert(l * (l + 3) >= (l + 1) * (l + 1));
            assert(f * f * (l * (l + 3)) >= f * f * ((l + 1) * (l + 1)));
            assert(f * f * ((l + 1) * (l + 1)) > f * f * v2);
        }
    }
}

/// The direction from a point toward the center, for a point other than the
/// center with no coordinate above `k` in magnitude: no component of it is
/// above one in magnitude, each points back along the offset of the point
/// from the center, its squared length is one up to six raw units below and
/// two above, and the offset has the component `-l` along it, `l` being the
/// distance, up to 2 raw units below and `3 * k` above.
pub proof fn lemma_aimed(oc: Vec3, k: int)
    requires
        1 <= k <= 0x1000,
        oc.within(k * ONE_RAW),
        oc != Vec3::zero_spec(),
    ensures
        ({
            let l = oc.length_spec()@;
            let d = aimed_direction(oc);
            &&& 1 <= l <= 2 * k * ONE_RAW
            &&& l * l <= oc.dot_exact(oc) < (l + 1) * (l + 1)
            &&& ONE_RAW - 6 <= d.length_squared_spec()@ <= ONE_RAW + 2
            &&& -l - 2 <= oc.dot_spec(d)@ <= -l + 3 * k
            &&& d.within(ONE_RAW as int)
            &&& points_back(oc.x@, l, d.x@)
            &&& points_back(oc.y@, l, d.y@)
            &&& points_back(oc.z@, l, d.z@)
        }),
{
    let s = ONE_RAW as int;
    let v = oc.neg_spec();
    let d = aimed_direction(oc);
    assert(v.x@ == -oc.x@ && v.y@ == -oc.y@ && v.z@ == -oc.z@);
    let v2 = oc.dot_exact(oc);
    assert(v.dot_exact(v) == v2) by (nonlinear_arith)
        requires
            v.x@ == -oc.x@ && v.y@ == -oc.y@ && v.z@ == -oc.z@,
            v.dot_exact(v) == v.x@ * v.x@ + v.y@ * v.y@ + v.z@ * v.z@,
            v2 == oc.x@ * oc.x@ + oc.y@ * oc.y@ + oc.z@ * oc.z@,
    ;
    oc.lemma_length();
    oc.lemma_length_in_range(k * s);
    let l = oc.length_spec()@;
    // the lifted vector and its length
    assert(v != Vec3::zero_spec());
    v.lemma_normalized_parts();
    let f = lift_spec(v.largest_spec());
    let w = v.lifted_spec();
    let lw = floor_sqrt(w.dot_exact(w));
    assert((f * l) * (f * l) <= f * f * v2) by (nonlinear_arith)
        requires
            l * l <= v2,
            f >= 1,
    {
        assert((f * l) * (f * l) == f * f * (l * l));
    }
    assert(f * l >= 0) by (nonlinear_arith)
        requires
            f >= 1,
            l >= 0,
    ;
    lemma_root_dominates(w.dot_exact(w), f * l);
    assert(w.x@ == -(oc.x@ * f) && w.y@ == -(oc.y@ * f) && w.z@ == -(oc.z@ * f))
        by (nonlinear_arith)
        requires
            w.x@ == v.x@ * f && w.y@ == v.y@ * f && w.z@ == v.z@ * f,
            v.x@ == -oc.x@ && v.y@ == -oc.y@ && v.z@ == -oc.z@,
    ;
    lemma_points_back(f, l, lw, oc.x@, w.x@, d.x@);
    lemma_points_back(f, l, lw, oc.y@, w.y@, d.y@);
    lemma_points_back(f, l, lw, oc.z@, w.z@, d.z@);
    // the squared length of the direction
    d.lemma_length_squared_error();
    // the component of the offset along the direction
    lemma_aimed_component(lw, oc.x@ * f, d.x@);
    lemma_aimed_component(lw, oc.y@ * f, d.y@);
    lemma_aimed_component(lw, oc.z@ * f, d.z@);
    oc.lemma_dot_error(d);
    let x = oc.dot_exact(d);
    let a = magnitude(oc.x@) + magnitude(oc.y@) + magnitude(oc.z@);
    lemma_lifted_term(f, lw, oc.x@, d.x@);
    lemma_lifted_term(f, lw, oc.y@, d.y@);
    lemma_lifted_term(f, lw, oc.z@, d.z@);
    assert(lw * (f * x) == lw * (f * (oc.x@ * d.x@)) + lw * (f * (oc.y@ * d.y@)) + lw * (f * (oc.z@
        * d.z@))) by (nonlinear_arith)
        requires
            x == oc.x@ * d.x@ + oc.y@ * d.y@ + oc.z@ * d.z@,
    ;
    assert(lw * (f * a) == lw * (f * magnitude(oc.x@)) + lw * (f * magnitude(oc.y@)) + lw * (f
        * magnitude(oc.z@))) by (nonlinear_arith)
        requires
            a == magnitude(oc.x@) + magnitude(oc.y@) + magnitude(oc.z@),
    ;
    assert(f * f * v2 == f * f * (oc.x@ * oc.x@) + f * f * (oc.y@ * oc.y@) + f * f * (oc.z@
        * oc.z@)) by (nonlinear_arith)
        requires
            v2 == oc.x@ * oc.x@ + oc.y@ * oc.y@ + oc.z@ * oc.z@,
    ;
    assert(-s * (f * f * v2) <= lw * (f * x) <= -s * (f * f * v2) + lw * (f * a));
    lemma_aimed_dot(f, l, lw, v2, x, a);
    assert(a <= 3 * (k * s));
}

/// One term of the lifted dot product: with the offset `o` lifted by `f`,
/// the bounds that `lemma_aimed_component` gives read in `o` itself.
proof fn lemma_lifted_term(f: int, lw: int, o: int, d: int)
    requires
        f >= 1,
        -0x1_0000_0000 * ((o * f) * (o * f)) <= lw * ((o * f) * d) <= -0x1_0000_0000 * ((o * f) * (o
            * f)) + lw * magnitude(o * f),
    ensures
        -0x1_0000_0000 * (f * f * (o * o)) <= lw * (f * (o * d)) <= -0x1_0000_0000 * (f * f * (o
            * o)) + lw * (f * magnitude(o)),
{
    assert((o * f) * (o * f) == f * f * (o * o)) by (nonlinear_arith);
    assert((o * f) * d == f * (o * d)) by (nonlinear_arith);
    assert(magnitude(o * f) == f * magnitude(o)) by (nonlinear_arith)
        requires
            f >= 1,
    ;
}

/// The error of the discriminant for a ray aimed at the center, where no
/// coordinate of the offset is above `k`, plus one: `36 k^2 + 4 k + 5` raw
/// units.
pub open spec fn aimed_error(k: int) -> int {
    36 * (k * k) + 4 * k + 5
}

/// The discriminant for a ray aimed at the center is the squared radius
/// `rr`, up to less than `aimed_error(k)` raw units. Here `h` is the square
/// of the half coefficient `hb`, `q` the squared distance `l`, `a` the
/// leading coefficient and `m` its product with the constant one.
proof fn lemma_aimed_discriminant(k: int, l: int, hb: int, h: int, q: int, rr: int, a: int, m: int)
    requires
        1 <= k <= 0x1000,
        0 <= l <= 2 * k * 0x1_0000_0000,
        -l - 2 <= hb <= -l + 3 * k,
        0x1_0000_0000 * h <= hb * hb < 0x1_0000_0000 * h + 0x1_0000_0000,
        l * l - 0x1_0000_0000 < q * 0x1_0000_0000 < (l + 1) * (l + 1),
        0 <= rr <= q,
        0x1_0000_0000 - 6 <= a <= 0x1_0000_0000 + 2,
        -0x1_0000_0000 < a * (q - rr) - 0x1_0000_0000 * m < 0x1_0000_0000,
    ensures
        rr - aimed_error(k) < h - m < rr + aimed_error(k),
{
    let s: int = 0x1_0000_0000;
    let c = q - rr;
    let alpha = a - s;
    let kk = k * k;
    assert(0 <= kk <= 0x100_0000 && k * l <= 2 * kk * s) by (nonlinear_arith)
        requires
            1 <= k <= 0x1000,
            0 <= l <= 2 * k * s,
            kk == k * k,
            s > 0,
    {
        assert(k * l <= k * (2 * k * s));
        assert(k * (2 * k * s) == 2 * (k * k) * s);
    }
    // the square of the half coefficient against the squared distance
    assert(hb * hb <= l * l + 4 * l + 4 + 9 * kk && hb * hb >= l * l - 6 * (k * l) - 9 * kk)
        by (nonlinear_arith)
        requires
            -l - 2 <= hb <= -l + 3 * k,
            l >= 0,
            k >= 1,
            kk == k * k,
    {
        let g = hb + l;
        assert(-2 <= g <= 3 * k);
        assert(hb * hb == l * l - 2 * (l * g) + g * g);
        assert(g * g <= 4 + 9 * (k * k));
        assert(-(4 * l) <= 2 * (l * g) <= 6 * (k * l));
    }
    assert((l + 1) * (l + 1) == l * l + 2 * l + 1) by (nonlinear_arith);
    assert(-(12 * kk + 4 * k + 2) <= h - q <= 8 * k + 2);
    // the product of the leading and the constant coefficient
    assert(q <= 4 * kk * s + 4 * k) by (nonlinear_arith)
        requires
            q * s < (l + 1) * (l + 1),
            0 <= l <= 2 * k * s,
            kk == k * k,
            k >= 1,
            s == 0x1_0000_0000,
    {
        let top = 2 * k * s + 1;
        assert((l + 1) * (l + 1) <= top * top);
        assert(top * top == 4 * (k * k) * (s * s) + 4 * k * s + 1);
        assert(4 * (k * k) * (s * s) == (4 * (k * k) * s) * s);
        assert(q * s < (4 * (k * k) * s + 4 * k + 1) * s);
    }
    assert(a * c == s * c + alpha * c && -6 * c <= alpha * c <= 2 * c) by (nonlinear_arith)
        requires
            alpha == a - s,
            -6 <= alpha <= 2,
            c >= 0,
    ;
    assert(-(24 * kk + 2) <= m - c <= 24 * kk + 2);
    assert(kk >= k) by (nonlinear_arith)
        requires
            kk == k * k,
            k >= 1,
    ;
    assert(aimed_error(k) == 36 * kk + 4 * k + 5);
    assert(h - m == (h - q) - (m - c) + rr);
}

/// The square root `sd` of the discriminant for a ray aimed at the center
/// of a sphere of radius `rho`: it is the radius, up to `x`, where twice the
/// radius times `x` is at least the error `err` of the discriminant,
/// in units of `2^-64`, plus the square of `x`.
proof fn lemma_aimed_root(err: int, x: int, rho: int, rr: int, disc: int, sd: int)
    requires
        rho > 0,
        0 <= x,
        0 <= err,
        2 * (rho * x) >= err * 0x1_0000_0000 + x * x,
        0x1_0000_0000 * rr <= rho * rho < 0x1_0000_0000 * rr + 0x1_0000_0000,
        rr - err < disc < rr + err,
        0 <= sd,
        sd * sd <= disc * 0x1_0000_0000 < (sd + 1) * (sd + 1),
    ensures
        rho - x <= sd <= rho + x,
        disc > 0,
{
    assert(rho * rho >= err * 0x1_0000_0000) by (nonlinear_arith)
        requires
            2 * (rho * x) >= err * 0x1_0000_0000 + x * x,
    {
        assert((rho - x) * (rho - x) >= 0);
        assert((rho - x) * (rho - x) == rho * rho - 2 * (rho * x) + x * x);
    }
    assert(sd * sd <= (rho + x) * (rho + x)) by (nonlinear_arith)
        requires
            sd * sd <= disc * 0x1_0000_0000,
            disc < rr + err,
            0x1_0000_0000 * rr <= rho * rho,
            2 * (rho * x) >= err * 0x1_0000_0000 + x * x,
    {
        assert((rho + x) * (rho + x) == rho * rho + 2 * (rho * x) + x * x);
    }
    assert(sd <= rho + x) by (nonlinear_arith)
        requires
            sd * sd <= (rho + x) * (rho + x),
            0 <= sd,
            0 <= rho + x,
    {
        if sd > rho + x {
            assert(sd * sd >= (rho + x + 1) * (rho + x + 1));
        }
    }
    if rho - x > 0 {
        assert((rho - x) * (rho - x) < (sd + 1) * (sd + 1)) by (nonlinear_arith)
            requires
                disc * 0x1_0000_0000 < (sd + 1) * (sd + 1),
                rr - err < disc,
                rho * rho < 0x1_0000_0000 * rr + 0x1_0000_0000,
                2 * (rho * x) >= err * 0x1_0000_0000 + x * x,
        {
            assert((rho - x) * (rho - x) == rho * rho - 2 * (rho * x) + x * x);
        }
        lemma_below_by_squares(rho - x, sd + 1);
    }
}

/// The quotient `root` of a number `num`, at most `2 k + 2`, by a leading
/// coefficient `a` within six raw units of one: it is `num`, up to
/// `12 k + 20` raw units.
proof fn lemma_aimed_quotient(k: int, num: int, a: int, root: int)
    requires
        1 <= k <= 0x1000,
        0 <= num <= (2 * k + 2) * 0x1_0000_0000,
        0x1_0000_0000 - 6 <= a <= 0x1_0000_0000 + 2,
        0 <= num * 0x1_0000_0000 - a * root < a,
    ensures
        num - (12 * k + 20) <= root <= num + (12 * k + 20),
{
    let s: int = 0x1_0000_0000;
    let alpha = a - s;
    assert(a * root == s * root + alpha * root) by (nonlinear_arith)
        requires
            alpha == a - s,
    ;
    assert(0 <= root <= (2 * k + 3) * s) by (nonlinear_arith)
        requires
            1 <= k <= 0x1000,
            0 <= num <= (2 * k + 2) * s,
            s - 6 <= a <= s + 2,
            0 <= num * s - a * root < a,
            s == 0x1_0000_0000,
    {
        if root < 0 {
            assert(a * root <= -a);
        }
        if root > (2 * k + 3) * s {
            assert(a * root >= a * ((2 * k + 3) * s + 1));
            assert(a * ((2 * k + 3) * s + 1) >= (s - 6) * ((2 * k + 3) * s + 1));
            assert((s - 6) * ((2 * k + 3) * s + 1) > (2 * k + 2) * s * s);
            assert(num * s <= (2 * k + 2) * s * s);
        }
    }
    assert(-6 * root <= alpha * root <= 2 * root) by (nonlinear_arith)
        requires
            -6 <= alpha <= 2,
            root >= 0,
    ;
}

/// The tolerance of the hit of a ray aimed at the center: `x` for the root
/// of the discriminant and `15 k + 22` for the rest.
pub open spec fn aimed_tolerance(k: int, x: int) -> int {
    x + 15 * k + 22
}

/// The smaller root for a ray aimed at the center of a sphere, from a point
/// outside it: it is the distance `l` of the point from the center less the
/// radius, up to `aimed_tolerance(k, x)` raw units. It holds for every
/// radius and every offset of the origin from the center with no coordinate
/// above `k`, itself at most 4096, and for every `x` below one half such that twice the radius
/// times `x` is at least `aimed_error(k)`, in units of `2^-64`, plus the
/// square of `x`: the smaller the sphere and the farther the origin, the
/// larger the tolerance.
pub proof fn lemma_aimed_parameter(s: Sphere, r: Ray, k: int, x: int)
    requires
        1 <= k <= 0x1000,
        r.origin.within(0x2000_0000_0000),
        s.center.within(0x2000_0000_0000),
        s.oc_spec(r).within(k * ONE_RAW),
        r.direction == aimed_direction(s.oc_spec(r)),
        s.radius@ > 0,
        0 <= x < 0x8000_0000,
        2 * (s.radius@ * x) >= aimed_error(k) * ONE_RAW + x * x,
        s.oc_spec(r).length_spec()@ >= s.radius@ + x + 3 * k,
    ensures
        ({
            let gap = s.oc_spec(r).length_spec()@ - s.radius@;
            &&& s.meets_spec(r)
            &&& gap - aimed_tolerance(k, x) <= s.near_root_spec(r)@ <= gap + aimed_tolerance(k, x)
            &&& 0 <= s.near_root_spec(r)@
        }),
{
    let one = ONE_RAW as int;
    let oc = s.oc_spec(r);
    let l = oc.length_spec()@;
    let rho = s.radius@;
    assert(oc.x@ == r.origin.x@ - s.center.x@ && oc.y@ == r.origin.y@ - s.center.y@ && oc.z@
        == r.origin.z@ - s.center.z@);
    oc.lemma_length();
    assert(oc != Vec3::zero_spec());
    lemma_aimed(oc, k);
    let a = Sphere::a_spec(r);
    let hb = s.half_b_spec(r);
    let q = oc.length_squared_spec();
    oc.lemma_length_squared_error();
    let rr = s.radius.mul_spec(s.radius);
    s.radius.lemma_square();
    assert(rho * rho <= l * l) by (nonlinear_arith)
        requires
            0 <= rho <= l,
    ;
    assert(rr@ <= q@);
    let c = s.c_spec(r);
    assert(c@ == q@ - rr@);
    let h = hb.mul_spec(hb);
    hb.lemma_square();
    assert(q@ <= 4 * (k * k) * one + 4 * k) by (nonlinear_arith)
        requires
            q@ * one < (l + 1) * (l + 1),
            0 <= l <= 2 * k * one,
            k >= 1,
            one == 0x1_0000_0000,
    {
        let top = 2 * k * one + 1;
        assert((l + 1) * (l + 1) <= top * top);
        assert(top * top == 4 * (k * k) * (one * one) + 4 * k * one + 1);
        assert(4 * (k * k) * (one * one) == (4 * (k * k) * one) * one);
        assert(q@ * one < (4 * (k * k) * one + 4 * k + 1) * one);
    }
    assert(k * k <= 0x100_0000) by (nonlinear_arith)
        requires
            1 <= k <= 0x1000,
    ;
    c.lemma_mul_near_unit(a);
    assert(a@ * c@ == c@ * a@) by (nonlinear_arith);
    let m = a.mul_spec(c);
    assert(m == c.mul_spec(a));
    lemma_aimed_discriminant(k, l, hb@, h@, q@, rr@, a@, m@);
    let disc = s.discriminant_spec(r);
    assert(disc@ == h@ - m@);
    let sd = disc.sqrt_spec();
    assert(rr@ >= aimed_error(k)) by (nonlinear_arith)
        requires
            2 * (rho * x) >= aimed_error(k) * one + x * x,
            rho * rho < one * rr@ + one,
            one > 0,
    {
        assert((rho - x) * (rho - x) >= 0);
        assert((rho - x) * (rho - x) == rho * rho - 2 * (rho * x) + x * x);
        assert(rho * rho >= aimed_error(k) * one);
    }
    disc.lemma_sqrt_spec();
    lemma_aimed_root(aimed_error(k), x, rho, rr@, disc@, sd@);
    let num = hb.neg_spec().sub_spec(sd);
    assert(num@ == -hb@ - sd@);
    num.lemma_div_error(a);
    let near = s.near_root_spec(r);
    assert(near == num.div_spec(a));
    lemma_aimed_quotient(k, num@, a@, near@);
}

/// `m` is `d * t / 2^32` rounded toward zero.
pub open spec fn is_product(d: int, t: int, m: int) -> bool {
    let e = d * t - ONE_RAW * m;
    &&& d * t >= 0 ==> 0 <= e < ONE_RAW
    &&& d * t <= 0 ==> -ONE_RAW < e <= 0
}

/// One coordinate of the hit of a ray aimed at the center. The point of the
/// hit is at `w = o + m` from the center, where `o` is the offset of the
/// origin, `d` the direction and `m` the step `d * t`. The hit lies between
/// the origin and the center, and `2^32 * d * w` is at most
/// `2^32 * o * d + d^2 * t`.
proof fn lemma_facing_component(l: int, t: int, o: int, d: int, m: int, w: int)
    requires
        l >= 1,
        0 <= t <= l,
        points_back(o, l, d),
        is_product(d, t, m),
        w == o + m,
    ensures
        o >= 0 ==> 0 <= w <= o && d <= 0,
        o <= 0 ==> o <= w <= 0 && d >= 0,
        0x1_0000_0000 * (d * w) <= 0x1_0000_0000 * (o * d) + (d * d) * t,
{
    let mu = d * t - 0x1_0000_0000 * m;
    // the step does not pass the center
    assert((o >= 0 ==> d * t <= 0 && d * t >= d * l) && (o <= 0 ==> d * t >= 0 && d * t <= d * l))
        by (nonlinear_arith)
        requires
            0 <= t <= l,
            o >= 0 ==> d <= 0,
            o <= 0 ==> d >= 0,
    ;
    assert(d * l == l * d) by (nonlinear_arith);
    assert((o >= 0 ==> -o <= m <= 0) && (o <= 0 ==> 0 <= m <= -o));
    assert(0x1_0000_0000 * (d * w) == 0x1_0000_0000 * (o * d) + (d * d) * t - d * mu)
        by (nonlinear_arith)
        requires
            w == o + m,
            mu == d * t - 0x1_0000_0000 * m,
    ;
    assert(d * mu >= 0) by (nonlinear_arith)
        requires
            (d <= 0 && mu <= 0) || (d >= 0 && mu >= 0),
    ;
}

/// One coordinate of the outward normal at the hit of a ray aimed at the
/// center: `out` is the quotient of the lifted offset `wl = w * f` of the hit
/// by its length `lw`. The normal points against the direction `d`, and
/// `lw * d * out` is at most `2^32 * f * d * w + 2^32 * lw`.
proof fn lemma_normal_component(f: int, lw: int, d: int, w: int, wl: int, out: int)
    requires
        f >= 1,
        lw >= 1,
        wl == w * f,
        (w >= 0 && d <= 0) || (w <= 0 && d >= 0),
        -0x1_0000_0000 <= d <= 0x1_0000_0000,
        is_quotient(wl, lw, out),
    ensures
        d * out <= 0,
        lw * (d * out) <= f * (0x1_0000_0000 * (d * w)) + 0x1_0000_0000 * lw,
{
    let eta = wl * 0x1_0000_0000 - lw * out;
    assert((w >= 0 ==> wl >= 0) && (w <= 0 ==> wl <= 0)) by (nonlinear_arith)
        requires
            wl == w * f,
            f >= 1,
    ;
    assert(d * out <= 0) by (nonlinear_arith)
        requires
            (d <= 0 && out >= 0) || (d >= 0 && out <= 0),
    ;
    assert(lw * (d * out) == f * (0x1_0000_0000 * (d * w)) - d * eta) by (nonlinear_arith)
        requires
            eta == wl * 0x1_0000_0000 - lw * out,
            wl == w * f,
    ;
    assert(-(d * eta) <= 0x1_0000_0000 * lw) by (nonlinear_arith)
        requires
            (d <= 0 && 0 <= eta < lw) || (d >= 0 && -lw < eta <= 0),
            -0x1_0000_0000 <= d <= 0x1_0000_0000,
    ;
}

/// A ray from outside a sphere, aimed at its center, hits the sphere on the
/// front face at the distance `l` of its origin from the center less the
/// radius, up to `aimed_tolerance(k, x)` raw units, and the normal of the hit
/// is the unit vector from the center toward the point of the hit. It holds for every offset
/// of the origin from the center with no coordinate above `k`, for every
/// radius of at least twice the tolerance and eighteen times `k` raw units,
/// and for every `x` below one half such that twice the radius times `x` is
/// at least `aimed_error(k)`, in units of `2^-64`, plus the square of `x`,
/// where the interval asked for holds what lies within the tolerance of the
/// hit.
#[verifier::rlimit(80)]
pub proof fn lemma_aimed_ray_hits(s: Sphere, r: Ray, t_min: Fixed, t_max: Fixed, k: int, x: int)
    requires
        1 <= k <= 0x1000,
        r.origin.within(0x2000_0000_0000),
        s.center.within(0x2000_0000_0000),
        s.oc_spec(r).within(k * ONE_RAW),
        r.direction == aimed_direction(s.oc_spec(r)),
        0 <= x < 0x8000_0000,
        2 * (s.radius@ * x) >= aimed_error(k) * ONE_RAW + x * x,
        s.radius@ >= 2 * aimed_tolerance(k, x) + 18 * k,
        s.oc_spec(r).length_spec()@ >= s.radius@ + aimed_tolerance(k, x),
        t_min@ <= s.oc_spec(r).length_spec()@ - s.radius@ - aimed_tolerance(k, x),
        s.oc_spec(r).length_spec()@ - s.radius@ + aimed_tolerance(k, x) <= t_max@,
    ensures
        ({
            let gap = s.oc_spec(r).length_spec()@ - s.radius@;
            s.hit_spec(r, t_min, t_max) matches Some(rec) && {
                &&& gap - aimed_tolerance(k, x) <= rec.t@ <= gap + aimed_tolerance(k, x)
                &&& rec.front_face
                &&& rec.p == r.at_spec(rec.t)
                &&& rec.normal == s.outward_normal_spec(rec.p)
                &&& rec.normal.is_unit()
            }
        }),
{
    let one = 0x1_0000_0000int;
    let oc = s.oc_spec(r);
    let l = oc.length_spec()@;
    let rho = s.radius@;
    let d = r.direction;
    let tol = aimed_tolerance(k, x);
    lemma_aimed_parameter(s, r, k, x);
    oc.lemma_length();
    lemma_aimed(oc, k);
    let near = s.near_root_spec(r);
    let t = near@;
    assert(s.root_spec(r, t_min, t_max) == Some(near));
    assert(0 <= t <= l);
    assert(oc.x@ == r.origin.x@ - s.center.x@ && oc.y@ == r.origin.y@ - s.center.y@ && oc.z@
        == r.origin.z@ - s.center.z@);
    // the point of the hit, from the center
    let step = d.scale_spec(near);
    d.x.lemma_mul_error(near);
    d.y.lemma_mul_error(near);
    d.z.lemma_mul_error(near);
    let p = r.at_spec(near);
    assert(p.x@ == r.origin.x@ + step.x@ && p.y@ == r.origin.y@ + step.y@ && p.z@ == r.origin.z@
        + step.z@);
    let w = p.sub_spec(s.center);
    assert(w.x@ == oc.x@ + step.x@ && w.y@ == oc.y@ + step.y@ && w.z@ == oc.z@ + step.z@);
    // the offset of the hit lies against the direction
    lemma_facing_component(l, t, oc.x@, d.x@, step.x@, w.x@);
    lemma_facing_component(l, t, oc.y@, d.y@, step.y@, w.y@);
    lemma_facing_component(l, t, oc.z@, d.z@, step.z@, w.z@);
    assert(oc.x@ * d.x@ <= 0 && oc.y@ * d.y@ <= 0 && oc.z@ * d.z@ <= 0) by (nonlinear_arith)
        requires
            oc.x@ >= 0 ==> d.x@ <= 0,
            oc.x@ <= 0 ==> d.x@ >= 0,
            oc.y@ >= 0 ==> d.y@ <= 0,
            oc.y@ <= 0 ==> d.y@ >= 0,
            oc.z@ >= 0 ==> d.z@ <= 0,
            oc.z@ <= 0 ==> d.z@ >= 0,
    ;
    oc.lemma_dot_error(d);
    d.lemma_length_squared_error();
    let dw = d.dot_exact(w);
    let xo = oc.dot_exact(d);
    let n2 = d.dot_exact(d);
    let hb = s.half_b_spec(r)@;
    assert(one * dw == one * (d.x@ * w.x@) + one * (d.y@ * w.y@) + one * (d.z@ * w.z@))
        by (nonlinear_arith)
        requires
            dw == d.x@ * w.x@ + d.y@ * w.y@ + d.z@ * w.z@,
    ;
    assert(n2 * t == (d.x@ * d.x@) * t + (d.y@ * d.y@) * t + (d.z@ * d.z@) * t)
        by (nonlinear_arith)
        requires
            n2 == d.x@ * d.x@ + d.y@ * d.y@ + d.z@ * d.z@,
    ;
    assert(one * dw <= one * xo + n2 * t);
    assert(2 * dw <= -(one * rho)) by (nonlinear_arith)
        requires
            one * dw <= one * xo + n2 * t,
            xo <= one * hb,
            hb <= -l + 3 * k,
            0 <= n2 < one * one + 3 * one,
            0 <= t <= l - rho + tol,
            0 <= l <= 2 * k * one,
            rho >= 2 * tol + 18 * k,
            tol >= 0,
            k >= 1,
            one == 0x1_0000_0000,
    {
        assert(n2 * t <= (one * one + 3 * one) * t);
        assert((one * one + 3 * one) * t == one * one * t + 3 * one * t);
        assert(one * xo <= one * one * hb);
        assert(one * dw <= one * one * (hb + t) + 3 * one * t);
        assert(one * one * (hb + t) <= one * one * (3 * k + tol - rho));
        assert(3 * one * t <= 6 * k * (one * one));
        assert(one * dw <= one * one * (9 * k + tol - rho));
        assert(2 * (9 * k + tol - rho) <= -rho);
        assert(2 * (one * dw) <= one * one * (-rho));
        assert(one * (2 * dw) <= one * (-(one * rho)));
    }
    // so the hit is away from the center, and has an outward normal
    assert(w != Vec3::zero_spec()) by {
        if w == Vec3::zero_spec() {
            assert(d.x@ * 0 == 0 && d.y@ * 0 == 0 && d.z@ * 0 == 0);
            assert(dw == 0);
        }
    }
    let out = s.outward_normal_spec(p);
    assert(out == w.normalized_spec());
    w.lemma_normalized_parts();
    w.lemma_normalized_length();
    let f = lift_spec(w.largest_spec());
    let wl = w.lifted_spec();
    let lw = floor_sqrt(wl.dot_exact(wl));
    lemma_normal_component(f, lw, d.x@, w.x@, wl.x@, out.x@);
    lemma_normal_component(f, lw, d.y@, w.y@, wl.y@, out.y@);
    lemma_normal_component(f, lw, d.z@, w.z@, wl.z@, out.z@);
    // the length of the lifted offset is at most the lift times the distance
    let w2 = w.dot_exact(w);
    let v2 = oc.dot_exact(oc);
    assert(w2 <= v2) by (nonlinear_arith)
        requires
            w2 == w.x@ * w.x@ + w.y@ * w.y@ + w.z@ * w.z@,
            v2 == oc.x@ * oc.x@ + oc.y@ * oc.y@ + oc.z@ * oc.z@,
            (0 <= w.x@ <= oc.x@) || (oc.x@ <= w.x@ <= 0),
            (0 <= w.y@ <= oc.y@) || (oc.y@ <= w.y@ <= 0),
            (0 <= w.z@ <= oc.z@) || (oc.z@ <= w.z@ <= 0),
    {
        assert(w.x@ * w.x@ <= oc.x@ * oc.x@);
        assert(w.y@ * w.y@ <= oc.y@ * oc.y@);
        assert(w.z@ * w.z@ <= oc.z@ * oc.z@);
    }
    let reach = f * (l + 1);
    assert(lw * lw < reach * reach) by (nonlinear_arith)
        requires
            lw * lw <= f * f * w2,
            w2 <= v2,
            v2 < (l + 1) * (l + 1),
            reach == f * (l + 1),
            f >= 1,
    {
        assert(f * f * w2 <= f * f * v2);
        assert(f * f * v2 < f * f * ((l + 1) * (l + 1)));
        assert(f * f * ((l + 1) * (l + 1)) == reach * reach);
    }
    assert(reach >= 0) by (nonlinear_arith)
        requires
            reach == f * (l + 1),
            f >= 1,
            l >= 0,
    ;
    lemma_below_by_squares(lw, reach);
    // the direction and the normal are opposed
    d.lemma_dot_error(out);
    let y = d.dot_exact(out);
    assert(lw * y == lw * (d.x@ * out.x@) + lw * (d.y@ * out.y@) + lw * (d.z@ * out.z@))
        by (nonlinear_arith)
        requires
            y == d.x@ * out.x@ + d.y@ * out.y@ + d.z@ * out.z@,
    ;
    assert(f * (one * dw) == f * (one * (d.x@ * w.x@)) + f * (one * (d.y@ * w.y@)) + f * (one * (
    d.z@ * w.z@))) by (nonlinear_arith)
        requires
            one * dw == one * (d.x@ * w.x@) + one * (d.y@ * w.y@) + one * (d.z@ * w.z@),
    ;
    assert(lw * y <= f * (one * dw) + 3 * (one * lw));
    assert(lw * y <= lw * (-one)) by (nonlinear_arith)
        requires
            lw * y <= f * (one * dw) + 3 * (one * lw),
            2 * dw <= -(one * rho),
            0 <= lw < f * (l + 1),
            0 <= l <= 2 * k * one,
            rho >= 18 * k + 18,
            f >= 1,
            k >= 1,
            one == 0x1_0000_0000,
    {
        assert(2 * (f * (one * dw)) == (f * one) * (2 * dw));
        assert((f * one) * (2 * dw) <= (f * one) * (-(one * rho)));
        assert(8 * (one * lw) <= 8 * (one * (f * (l + 1))));
        assert(8 * (one * (f * (l + 1))) == (f * one) * (8 * (l + 1)));
        assert(8 * (l + 1) <= one * rho);
        assert((f * one) * (8 * (l + 1)) <= (f * one) * (one * rho));
        assert(2 * (lw * y) + 2 * (one * lw) <= 0);
    }
    assert(y <= -one) by (nonlinear_arith)
        requires
            lw * y <= lw * (-one),
            lw >= 1,
    ;
    assert(d.dot_spec(out)@ < 0);
    assert(HitRecord::front_face_spec(r, out));
}

} // verus!
