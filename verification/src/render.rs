//! The integrator: from a pixel to its color.
//!
//! A path is traced from the camera through the scene, bouncing at each
//! surface it meets, until it escapes into the background, is absorbed, or has
//! used up its bounces. What a traced path returns depends on the random
//! points drawn on its way. The spec functions here take those points as
//! arguments; the executable functions draw them and promise that their
//! result is what the spec function gives for some admissible points.

use vstd::prelude::*;

use crate::camera::Camera;
use crate::fixed::{
    is_floor_sqrt, lemma_floor_sqrt_monotone, lemma_floor_sqrt_unique, Fixed, ONE_RAW,
};
use crate::hit::{nearest_hit, Hit, World};
use crate::material::Scatter;
use crate::random::random_unit;
use crate::ray::Ray;
use crate::vec::{Color, Vec3};

verus! {

/// The smallest ray parameter at which a hit counts (about `0.001`), so that
/// a scattered ray does not hit the surface it starts on.
pub const T_MIN_RAW: i64 = 4294967;

/// The largest ray parameter: the far end of the range.
pub const T_MAX_RAW: i64 = i64::MAX;

/// The largest value of a color channel that is output (about `0.999`).
pub const CHANNEL_MAX_RAW: i64 = 4290672328;

/// One half.
pub const HALF_RAW: i64 = 0x8000_0000;

/// The green channel of the sky color (about `0.7`).
pub const SKY_GREEN_RAW: i64 = 3006477107;

pub open spec fn black() -> Color {
    Vec3::zero_spec()
}

pub open spec fn white() -> Color {
    Vec3 { x: Fixed { raw: ONE_RAW }, y: Fixed { raw: ONE_RAW }, z: Fixed { raw: ONE_RAW } }
}

pub open spec fn sky_blue() -> Color {
    Vec3 { x: Fixed { raw: HALF_RAW }, y: Fixed { raw: SKY_GREEN_RAW }, z: Fixed { raw: ONE_RAW } }
}

/// How far up the ray points, from 0 (straight down) to 1 (straight up).
pub open spec fn elevation_spec(r: Ray) -> Fixed {
    Fixed { raw: HALF_RAW }.mul_spec(
        r.direction.normalized_spec().y.add_spec(Fixed { raw: ONE_RAW }),
    )
}

/// The color of the sky in the direction of the ray: white at the bottom,
/// blue at the top, blended linearly in between.
pub open spec fn background_spec(r: Ray) -> Color {
    let t = elevation_spec(r);
    white().scale_spec(Fixed { raw: ONE_RAW }.sub_spec(t)).add_spec(sky_blue().scale_spec(t))
}

/// The smallest value of a channel of the sky that is output: the square
/// root of one half, rounded down (about `0.7071`).
pub const SKY_MIN_RAW: i64 = 3037000499;

/// `c` is a color of the sky: red and green between one half and one, blue
/// one.
pub open spec fn is_sky(c: Color) -> bool {
    &&& HALF_RAW <= c.x@ <= ONE_RAW
    &&& HALF_RAW <= c.y@ <= ONE_RAW
    &&& c.z@ == ONE_RAW
}

/// `c` is what is output for a color of the sky: red and green between the
/// root of one half and the largest value that is output, blue that value.
pub open spec fn is_sky_shade(c: Color) -> bool {
    &&& SKY_MIN_RAW <= c.x@ <= CHANNEL_MAX_RAW
    &&& SKY_MIN_RAW <= c.y@ <= CHANNEL_MAX_RAW
    &&& c.z@ == CHANNEL_MAX_RAW
}

/// `draws` holds one point of the unit ball for each of `depth` bounces.
pub open spec fn draws_ok(draws: Seq<Vec3>, depth: nat) -> bool {
    &&& draws.len() == depth
    &&& forall|k: int| 0 <= k < draws.len() ==> (#[trigger] draws[k]).in_unit_ball()
}

/// The color that arrives along `r` from the scene `objs` when the path may
/// bounce `depth` times and `draws[k]` is the random point of bounce `k`.
pub open spec fn ray_color_spec<T: Hit>(r: Ray, objs: Seq<T>, depth: nat, draws: Seq<Vec3>) -> Color
    decreases depth,
{
    if depth == 0 {
        black()
    } else {
        match nearest_hit(objs, r, Fixed { raw: T_MIN_RAW }, Fixed { raw: T_MAX_RAW }) {
            Some(rec) => match rec.mat.scatter_spec(r, rec, draws.first()) {
                Some(out) => out.0.mul_spec(
                    ray_color_spec(out.1, objs, (depth - 1) as nat, draws.drop_first()),
                ),
                None => black(),
            },
            None => background_spec(r),
        }
    }
}

/// `c` is the color of the path along `r` for the admissible points `draws`.
pub open spec fn is_path_color<T: Hit>(
    r: Ray,
    objs: Seq<T>,
    depth: nat,
    draws: Seq<Vec3>,
    c: Color,
) -> bool {
    draws_ok(draws, depth) && c == ray_color_spec(r, objs, depth, draws)
}

/// A viewport coordinate: the pixel index plus the jitter, over the extent
/// of the image less one.
pub open spec fn coordinate_spec(index: u64, extent: u64, jitter: Fixed) -> Fixed {
    Fixed::from_u64_spec(index).add_spec(jitter).div_spec(
        Fixed::from_u64_spec((extent - 1) as u64),
    )
}

/// The camera ray of a sample of pixel `(i, j)` with jitter `(du, dv)`.
pub open spec fn sample_ray_spec(
    camera: Camera,
    i: u64,
    j: u64,
    width: u64,
    height: u64,
    du: Fixed,
    dv: Fixed,
) -> Ray {
    camera.get_ray_spec(coordinate_spec(i, width, du), coordinate_spec(j, height, dv))
}

/// `c` is the color of the sample of pixel `(i, j)` with jitter `(du, dv)`
/// and the points `draws`.
pub open spec fn is_sample_color_for<T: Hit>(
    camera: Camera,
    objs: Seq<T>,
    i: u64,
    j: u64,
    width: u64,
    height: u64,
    depth: nat,
    du: Fixed,
    dv: Fixed,
    draws: Seq<Vec3>,
    c: Color,
) -> bool {
    &&& 0 <= du@ < ONE_RAW
    &&& 0 <= dv@ < ONE_RAW
    &&& is_path_color(sample_ray_spec(camera, i, j, width, height, du, dv), objs, depth, draws, c)
}

/// `c` is the color of a sample of pixel `(i, j)` for some jitter in
/// `[0, 1)^2` and some points of the unit ball.
pub open spec fn is_sample_color<T: Hit>(
    camera: Camera,
    objs: Seq<T>,
    i: u64,
    j: u64,
    width: u64,
    height: u64,
    depth: nat,
    c: Color,
) -> bool {
    exists|du: Fixed, dv: Fixed, draws: Seq<Vec3>| #[trigger]
        is_sample_color_for(camera, objs, i, j, width, height, depth, du, dv, draws, c)
}

/// The sum of the colors, added up from the first.
pub open spec fn sum_spec(colors: Seq<Color>) -> Color
    decreases colors.len(),
{
    if colors.len() == 0 {
        black()
    } else {
        sum_spec(colors.drop_last()).add_spec(colors.last())
    }
}

/// Gamma correction of one channel: the square root (zero for a negative
/// number), limited to `[0, 0.999]`.
pub open spec fn gamma_spec(x: Fixed) -> Fixed {
    let root = if x@ < 0 {
        Fixed { raw: 0 }
    } else {
        x.sqrt_spec()
    };
    root.clamp_spec(Fixed { raw: 0 }, Fixed { raw: CHANNEL_MAX_RAW })
}

/// The color that is output for the sum of `samples` sample colors: their
/// mean, gamma-corrected channel by channel.
pub open spec fn shade_spec(sum: Color, samples: u64) -> Color {
    let n = Fixed::from_u64_spec(samples);
    Vec3 {
        x: gamma_spec(sum.x.div_spec(n)),
        y: gamma_spec(sum.y.div_spec(n)),
        z: gamma_spec(sum.z.div_spec(n)),
    }
}

/// `c` is a color of pixel `(i, j)`: the shaded sum of `samples` sample
/// colors.
pub open spec fn is_pixel_color<T: Hit>(
    camera: Camera,
    objs: Seq<T>,
    i: u64,
    j: u64,
    width: u64,
    height: u64,
    samples: u64,
    depth: nat,
    c: Color,
) -> bool {
    exists|colors: Seq<Color>|
        colors.len() == samples && (forall|k: int|
            0 <= k < colors.len() ==> is_sample_color(
                camera,
                objs,
                i,
                j,
                width,
                height,
                depth,
                #[trigger] colors[k],
            )) && c == shade_spec(#[trigger] sum_spec(colors), samples)
}

/// With no bounces left nothing is seen, whatever the scene.
pub proof fn lemma_depth_zero_black<T: Hit>(r: Ray, objs: Seq<T>, draws: Seq<Vec3>)
    ensures
        ray_color_spec(r, objs, 0, draws) == black(),
{
}

/// A sum of black samples, shaded, is black.
pub proof fn lemma_shade_black(samples: u64)
    requires
        samples > 0,
    ensures
        shade_spec(black(), samples) == black(),
{
    let n = Fixed::from_u64_spec(samples);
    let zero = Fixed { raw: 0 };
    assert(0int * ONE_RAW == 0);
    assert(zero.div_spec(n)@ == 0);
    Fixed::lemma_sqrt_of_zero();
}

/// What is seen of a black surface is black, whatever the attenuation.
pub proof fn lemma_attenuated_black(attenuation: Color)
    ensures
        attenuation.mul_spec(black()) == black(),
{
    assert(attenuation.x@ * 0 == 0);
    assert(attenuation.y@ * 0 == 0);
    assert(attenuation.z@ * 0 == 0);
}

/// The sky has a color of the sky in every direction, whatever the length
/// of the direction: no channel is below one half or above one.
pub proof fn lemma_background_is_sky(r: Ray)
    ensures
        is_sky(background_spec(r)),
{
    let d = r.direction;
    let unit = d.normalized_spec();
    if d != Vec3::zero_spec() {
        d.lemma_normalized_length();
    }
    assert(-ONE_RAW <= unit.y@ <= ONE_RAW);
    let t = elevation_spec(r);
    assert(0 <= t@ <= ONE_RAW);
}

/// The shade of a single sample of the color of the sky is the shade of a
/// sky color, and the shade of a single black sample is black.
pub proof fn lemma_shade_of_one(c: Color)
    ensures
        is_sky(c) ==> is_sky_shade(shade_spec(c, 1)),
        c == black() ==> shade_spec(c, 1) == black(),
{
    let n = Fixed::from_u64_spec(1);
    assert(n@ == ONE_RAW);
    if c == black() {
        lemma_shade_black(1);
    }
    if is_sky(c) {
        assert(c.x.div_spec(n) == c.x && c.y.div_spec(n) == c.y && c.z.div_spec(n) == c.z);
        let half: int = 0x8000_0000_0000_0000;
        let whole: int = 0x1_0000_0000_0000_0000;
        assert(is_floor_sqrt(half, 3037000499)) by (nonlinear_arith)
            requires
                half == 0x8000_0000_0000_0000,
        ;
        lemma_floor_sqrt_unique(half, 3037000499);
        assert(is_floor_sqrt(whole, 0x1_0000_0000)) by (nonlinear_arith)
            requires
                whole == 0x1_0000_0000_0000_0000,
        ;
        lemma_floor_sqrt_unique(whole, 0x1_0000_0000);
        lemma_floor_sqrt_monotone(half, c.x@ * ONE_RAW);
        lemma_floor_sqrt_monotone(half, c.y@ * ONE_RAW);
        lemma_floor_sqrt_monotone(c.x@ * ONE_RAW, whole);
        lemma_floor_sqrt_monotone(c.y@ * ONE_RAW, whole);
    }
}

/// A path with one bounce that meets a surface is black: whatever the
/// material does, what it scatters arrives with no bounce left.
pub proof fn lemma_one_bounce_black<T: Hit>(r: Ray, objs: Seq<T>, draws: Seq<Vec3>)
    requires
        nearest_hit(objs, r, Fixed { raw: T_MIN_RAW }, Fixed { raw: T_MAX_RAW }) is Some,
    ensures
        ray_color_spec(r, objs, 1, draws) == black(),
{
    let rec = nearest_hit(objs, r, Fixed { raw: T_MIN_RAW }, Fixed { raw: T_MAX_RAW })->0;
    match rec.mat.scatter_spec(r, rec, draws.first()) {
        Some(out) => {
            lemma_attenuated_black(out.0);
            assert(ray_color_spec(out.1, objs, 0, draws.drop_first()) == black());
        },
        None => {},
    }
}

/// A path that meets nothing sees the sky, however many bounces it has.
pub proof fn lemma_escaped_sees_sky<T: Hit>(r: Ray, objs: Seq<T>, depth: nat, draws: Seq<Vec3>)
    requires
        depth > 0,
        nearest_hit(objs, r, Fixed { raw: T_MIN_RAW }, Fixed { raw: T_MAX_RAW }) is None,
    ensures
        ray_color_spec(r, objs, depth, draws) == background_spec(r),
{
}

/// The color of the sky in the direction of the ray: no channel is below
/// one half or above one, whatever the length of the direction.
pub fn background(r: &Ray) -> (c: Color)
    ensures
        c == background_spec(*r),
        is_sky(c),
{
    proof {
        lemma_background_is_sky(*r);
    }
    let unit_direction = r.direction().normalized();
    let one = Fixed::one();
    let t = Fixed::from_raw(HALF_RAW).mul(unit_direction.y().add(one));
    let white = Vec3::new(one, one, one);
    let blue = Vec3::new(Fixed::from_raw(HALF_RAW), Fixed::from_raw(SKY_GREEN_RAW), one);
    white.scale(one.sub(t)).add(blue.scale(t))
}

/// The color that arrives along `r`, traced through at most `depth` bounces.
///
/// With no bounce left the path is black. A path that meets a surface is
/// scattered by its material and goes on with one bounce less, attenuated by
/// the material; one that is absorbed is black. A path that meets nothing
/// sees the sky.
pub fn ray_color<T: Hit>(r: &Ray, world: &World<T>, depth: u64) -> (c: Color)
    ensures
        exists|draws: Seq<Vec3>| #[trigger] is_path_color(*r, world@, depth as nat, draws, c),
        depth == 0 ==> c == black(),
        depth == 1 && world.hit_spec(*r, Fixed { raw: T_MIN_RAW }, Fixed { raw: T_MAX_RAW })
            is Some ==> c == black(),
        depth > 0 && world.hit_spec(*r, Fixed { raw: T_MIN_RAW }, Fixed { raw: T_MAX_RAW })
            is None ==> c == background_spec(*r) && is_sky(c),
        depth == 1 ==> c == black() || is_sky(c),
    decreases depth,
{
    let ghost idle = Seq::new(depth as nat, |k: int| Vec3::zero_spec());
    proof {
        Vec3::lemma_zero_length();
        assert(draws_ok(idle, depth as nat));
    }
    if depth == 0 {
        assert(is_path_color(*r, world@, 0, idle, Vec3::zero_spec()));
        return Vec3::zero();
    }
    match world.hit(r, Fixed::from_raw(T_MIN_RAW), Fixed::from_raw(T_MAX_RAW)) {
        Some(rec) => {
            match rec.mat.scatter(r, &rec) {
                Some((attenuation, scattered)) => {
                    let inner = ray_color(&scattered, world, depth - 1);
                    let c = attenuation.mul(inner);
                    proof {
                        lemma_attenuated_black(attenuation);
                        let s = choose|s: Vec3| #[trigger]
                            s.in_unit_ball() && Some((attenuation, scattered))
                                == rec.mat.scatter_spec(*r, rec, s);
                        let left = (depth - 1) as nat;
                        let rest = choose|rest: Seq<Vec3>| #[trigger]
                            is_path_color(scattered, world@, left, rest, inner);
                        let draws = seq![s] + rest;
                        assert(draws.first() == s);
                        assert(draws.drop_first() =~= rest);
                        assert(draws_ok(draws, depth as nat));
                        assert(is_path_color(*r, world@, depth as nat, draws, c));
                    }
                    c
                },
                None => {
                    proof {
                        let s = choose|s: Vec3| #[trigger]
                            s.in_unit_ball() && None::<(Color, Ray)> == rec.mat.scatter_spec(
                                *r,
                                rec,
                                s,
                            );
                        let draws = idle.update(0, s);
                        assert(draws.first() == s);
                        assert(draws_ok(draws, depth as nat));
                        assert(is_path_color(*r, world@, depth as nat, draws, Vec3::zero_spec()));
                    }
                    Vec3::zero()
                },
            }
        },
        None => {
            let c = background(r);
            assert(is_path_color(*r, world@, depth as nat, idle, c));
            c
        },
    }
}

/// The color that arrives along `r` when the random point of each bounce is
/// given: `draws[used]` for the first bounce, the next for the second, and so
/// on, as many bounces as there are points from `used` on.
pub fn ray_color_with<T: Hit>(r: &Ray, world: &World<T>, draws: &Vec<Vec3>, used: usize) -> (c:
    Color)
    requires
        used <= draws.len(),
    ensures
        c == ray_color_spec(*r, world@, (draws.len() - used) as nat, draws@.skip(used as int)),
    decreases draws.len() - used,
{
    if used == draws.len() {
        return Vec3::zero();
    }
    match world.hit(r, Fixed::from_raw(T_MIN_RAW), Fixed::from_raw(T_MAX_RAW)) {
        Some(rec) => {
            match rec.mat.scatter_with(r, &rec, draws[used]) {
                Some((attenuation, scattered)) => {
                    proof {
                        assert(draws@.skip(used as int).first() == draws@[used as int]);
                        assert(draws@.skip(used as int).drop_first() =~= draws@.skip(used + 1));
                    }
                    attenuation.mul(ray_color_with(&scattered, world, draws, used + 1))
                },
                None => Vec3::zero(),
            }
        },
        None => background(r),
    }
}

/// The viewport coordinate of a sample: the pixel index plus the jitter,
/// over the extent of the image less one. The image must be more than one
/// pixel wide and high.
pub fn coordinate(index: u64, extent: u64, jitter: Fixed) -> (u: Fixed)
    requires
        extent > 1,
    ensures
        u == coordinate_spec(index, extent, jitter),
{
    Fixed::from_u64(index).add(jitter).div(Fixed::from_u64(extent - 1))
}

/// Gamma correction of one channel.
pub fn gamma(x: Fixed) -> (g: Fixed)
    ensures
        g == gamma_spec(x),
        0 <= g@ <= CHANNEL_MAX_RAW,
{
    let root = if x.raw < 0 {
        Fixed::zero()
    } else {
        x.sqrt()
    };
    root.clamp(Fixed::zero(), Fixed::from_raw(CHANNEL_MAX_RAW))
}

/// The color that is output for the sum of `samples` sample colors: their
/// mean, gamma-corrected, each channel in `[0, 0.999]`.
pub fn shade(sum: Color, samples: u64) -> (c: Color)
    requires
        samples > 0,
    ensures
        c == shade_spec(sum, samples),
        0 <= c.x@ <= CHANNEL_MAX_RAW,
        0 <= c.y@ <= CHANNEL_MAX_RAW,
        0 <= c.z@ <= CHANNEL_MAX_RAW,
{
    let n = Fixed::from_u64(samples);
    Vec3::new(gamma(sum.x().div(n)), gamma(sum.y().div(n)), gamma(sum.z().div(n)))
}

/// The color of pixel `(i, j)` of an image of `width` by `height` pixels:
/// the shaded sum of `samples` paths through the pixel, each through a point
/// of the pixel chosen at random and traced through at most `max_depth`
/// bounces.
///
/// The image must be more than one pixel wide and high, and at least one
/// sample must be taken. Each channel of the result lies in `[0, 0.999]`, and
/// with `max_depth == 0` the result is black. With one sample and one bounce
/// the result is black, where the ray through the pixel meets a surface, or
/// the shade of the sky, with no channel below `0.7071`.
pub fn compute_pixel_color<T: Hit>(
    camera: &Camera,
    world: &World<T>,
    i: u64,
    j: u64,
    width: u64,
    height: u64,
    samples: u64,
    max_depth: u64,
) -> (c: Color)
    requires
        width > 1,
        height > 1,
        samples > 0,
    ensures
        is_pixel_color(*camera, world@, i, j, width, height, samples, max_depth as nat, c),
        0 <= c.x@ <= CHANNEL_MAX_RAW,
        0 <= c.y@ <= CHANNEL_MAX_RAW,
        0 <= c.z@ <= CHANNEL_MAX_RAW,
        max_depth == 0 ==> c == black(),
        samples == 1 && max_depth == 1 ==> c == black() || is_sky_shade(c),
{
    let mut px = Vec3::zero();
    let ghost mut colors: Seq<Color> = Seq::empty();
    let mut k: u64 = 0;
    while k < samples
        invariant
            width > 1,
            height > 1,
            k <= samples,
            colors.len() == k,
            px == sum_spec(colors),
            forall|m: int|
                0 <= m < colors.len() ==> is_sample_color(
                    *camera,
                    world@,
                    i,
                    j,
                    width,
                    height,
                    max_depth as nat,
                    #[trigger] colors[m],
                ),
            max_depth == 0 ==> px == black(),
            k == 0 ==> px == black(),
            k == 1 && max_depth == 1 ==> px == black() || is_sky(px),
        decreases samples - k,
    {
        let random_u = random_unit();
        let random_v = random_unit();
        let u = coordinate(i, width, random_u);
        let v = coordinate(j, height, random_v);
        let r = camera.get_ray(u, v);
        let sample = ray_color(&r, world, max_depth);
        proof {
            lemma_background_is_sky(r);
            let draws = choose|draws: Seq<Vec3>| #[trigger]
                is_path_color(r, world@, max_depth as nat, draws, sample);
            assert(is_sample_color_for(
                *camera,
                world@,
                i,
                j,
                width,
                height,
                max_depth as nat,
                random_u,
                random_v,
                draws,
                sample,
            ));
            let ghost before = colors;
            colors = colors.push(sample);
            assert(colors.drop_last() =~= before);
            assert(colors.last() == sample);
        }
        px = px.add(sample);
        k = k + 1;
    }
    proof {
        if max_depth == 0 {
            lemma_shade_black(samples);
        }
        if samples == 1 {
            lemma_shade_of_one(px);
        }
    }
    shade(px, samples)
}

} // verus!
