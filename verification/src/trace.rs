//! Tracing one ray: scan every sphere for its intersection roots, keep the
//! closest valid hit (first sphere wins ties), then shade the hit point by
//! the summed illumination — or fall back to the background color.

use vstd::prelude::*;
use vstd::arithmetic::div_mod::lemma_div_pos_is_pos;
use crate::math::{COORD_MAX, POINT_MAX, ROOT_MAX, SCALE, TMAX, lemma_mul_abs_bound};
use crate::intersect::{intersect_ray_sphere, spec_roots, well_scaled};
use crate::lighting::{compute_lighting, spec_lighting};
use crate::scene::{Color, Scene, Sphere, background_color};
use crate::vec3::{V3, Vec3};

verus! {

/// A root counts as a hit when it lies strictly between `t_min` and the
/// no-intersection sentinel.
pub open spec fn valid_root(t: int, t_min: int) -> bool {
    t_min < t && t < TMAX
}

/// The smaller valid root of one sphere for the given ray, if any.
pub open spec fn sphere_best_t(o: V3, d: V3, t_min: int, sph: Sphere) -> Option<int> {
    let roots = spec_roots(o, d, sph);
    let t1 = roots.0;
    let t2 = roots.1;
    if valid_root(t1, t_min) && valid_root(t2, t_min) {
        if t2 < t1 {
            Option::Some(t2)
        } else {
            Option::Some(t1)
        }
    } else if valid_root(t1, t_min) {
        Option::Some(t1)
    } else if valid_root(t2, t_min) {
        Option::Some(t2)
    } else {
        Option::None
    }
}

/// The closest hit over a sequence of spheres: the index and ray parameter
/// of the sphere with the smallest valid root, the earliest such sphere
/// winning ties.
pub open spec fn spec_closest_hit(spheres: Seq<Sphere>, o: V3, d: V3, t_min: int) -> Option<
    (int, int),
>
    decreases spheres.len(),
{
    if spheres.len() == 0 {
        Option::None
    } else {
        let prev = spec_closest_hit(spheres.drop_last(), o, d, t_min);
        let lbest = sphere_best_t(o, d, t_min, spheres.last());
        let li = spheres.len() - 1;
        match (prev, lbest) {
            (Option::None, Option::None) => Option::None,
            (Option::Some(pt), Option::None) => Option::Some(pt),
            (Option::None, Option::Some(t)) => Option::Some((li, t)),
            (Option::Some(pt), Option::Some(t)) => if t < pt.1 {
                Option::Some((li, t))
            } else {
                Option::Some(pt)
            },
        }
    }
}

/// Where the ray is at parameter `t`: `origin + t * direction`.
pub open spec fn spec_hit_point(o: V3, d: V3, t: int) -> V3 {
    o.add(d.scale(t))
}

/// One 8-bit channel scaled by the illumination factor, rounded to the
/// nearest, and clamped to 255 rather than wrapped.
pub open spec fn spec_channel(c: u8, illum: int) -> u8 {
    let v = (c * illum + SCALE / 2) / (SCALE as int);
    if v > 255 {
        255u8
    } else {
        v as u8
    }
}

/// A sphere's surface color under an illumination factor, channel by
/// channel.
pub open spec fn spec_shade(sph: Sphere, illum: int) -> Color {
    Color {
        r: spec_channel(sph.color.r, illum),
        g: spec_channel(sph.color.g, illum),
        b: spec_channel(sph.color.b, illum),
    }
}

/// The color a ray produces: the closest-hit sphere's color shaded by the
/// illumination at the hit point (with the surface normal pointing from
/// the sphere's center through that point), or the background color when
/// no sphere qualifies.
pub open spec fn spec_trace_ray(o: V3, d: V3, t_min: int, scene: Scene) -> Color {
    match spec_closest_hit(scene.spheres@, o, d, t_min) {
        Option::None => background_color(),
        Option::Some(pt) => {
            let sph = scene.spheres@[pt.0];
            let p = spec_hit_point(o, d, pt.1);
            let n = p.sub(sph.center@);
            spec_shade(sph, spec_lighting(p, n, scene.lights@))
        },
    }
}

/// The closest hit is deterministic: whatever it returns is a valid best
/// root of its own sphere, every earlier sphere's best root is strictly
/// larger (ties go to the earliest sphere), and no sphere at all does
/// better; when it returns nothing, no sphere has a valid root.
pub proof fn lemma_closest_hit_first_wins(spheres: Seq<Sphere>, o: V3, d: V3, t_min: int)
    ensures
        match spec_closest_hit(spheres, o, d, t_min) {
            Option::None => forall|j: int|
                0 <= j < spheres.len() ==> #[trigger] sphere_best_t(o, d, t_min, spheres[j])
                    is None,
            Option::Some(pt) => 0 <= pt.0 < spheres.len() && sphere_best_t(
                o,
                d,
                t_min,
                spheres[pt.0],
            ) == Option::Some(pt.1) && (forall|j: int|
                0 <= j < pt.0 ==> match #[trigger] sphere_best_t(o, d, t_min, spheres[j]) {
                    Option::None => true,
                    Option::Some(tj) => tj > pt.1,
                }) && (forall|j: int|
                0 <= j < spheres.len() ==> match #[trigger] sphere_best_t(
                    o,
                    d,
                    t_min,
                    spheres[j],
                ) {
                    Option::None => true,
                    Option::Some(tj) => tj >= pt.1,
                }),
        },
    decreases spheres.len(),
{
    if spheres.len() > 0 {
        lemma_closest_hit_first_wins(spheres.drop_last(), o, d, t_min);
        assert(forall|j: int|
            0 <= j < spheres.len() - 1 ==> spheres.drop_last()[j] == spheres[j]);
    }
}

/// Channels clamp instead of wrapping: however large the illumination
/// factor grows, a shaded channel never exceeds 255, and once the scaled
/// value reaches 255 the stored channel is exactly 255.
pub proof fn lemma_channel_clamped(c: u8, illum: int)
    requires
        0 <= illum,
    ensures
        0 <= spec_channel(c, illum) <= 255,
        (c * illum + SCALE / 2) / (SCALE as int) >= 255 ==> spec_channel(c, illum) == 255,
        (c * illum + SCALE / 2) / (SCALE as int) < 255 ==> spec_channel(c, illum) == (c * illum
            + SCALE / 2) / (SCALE as int),
{
    lemma_mul_abs_bound(c as int, 255int, illum, illum);
    lemma_div_pos_is_pos(c * illum + SCALE / 2, SCALE as int);
}

/// Scales an 8-bit channel by a non-negative fixed-point illumination
/// factor, rounding to nearest and clamping at 255.
pub fn shade_channel(c: u8, illum: i64) -> (r: u8)
    requires
        0 <= illum,
    ensures
        r == spec_channel(c, illum as int),
{
    proof {
        lemma_mul_abs_bound(c as int, 255int, illum as int, i64::MAX as int);
        lemma_div_pos_is_pos(c as int * illum as int + 32768, SCALE as int);
    }
    let v: i128 = ((c as i128) * (illum as i128) + (SCALE as i128) / 2) / (SCALE as i128);
    if v > 255 {
        255
    } else {
        v as u8
    }
}

/// Traces one ray through the scene: returns the shaded color of the
/// closest sphere hit strictly beyond `t_min`, or the background color
/// (white) when the ray hits nothing.
pub fn trace_ray(origin: Vec3, direction: Vec3, t_min: i64, scene: &Scene) -> (r: Color)
    requires
        scene.wf(),
        origin@.bounded(COORD_MAX as int),
        direction@.bounded(COORD_MAX as int),
        well_scaled(direction@),
    ensures
        r == spec_trace_ray(origin@, direction@, t_min as int, *scene),
        spec_closest_hit(scene.spheres@, origin@, direction@, t_min as int) is None ==> r
            == background_color(),
{
    let nspheres: usize = scene.spheres.len();
    let mut closest_t: i64 = TMAX;
    let mut closest_i: usize = 0;
    let mut background: bool = true;
    let mut i: usize = 0;
    while i < nspheres
        invariant
            scene.wf(),
            origin@.bounded(COORD_MAX as int),
            direction@.bounded(COORD_MAX as int),
            well_scaled(direction@),
            nspheres == scene.spheres@.len(),
            0 <= i <= nspheres,
            background ==> closest_t == TMAX,
            !background ==> closest_i < i && t_min < closest_t && -ROOT_MAX <= closest_t
                <= ROOT_MAX,
            match spec_closest_hit(scene.spheres@.take(i as int), origin@, direction@,
                t_min as int) {
                Option::None => background,
                Option::Some(pt) => !background && pt.0 == closest_i && pt.1 == closest_t,
            },
        decreases nspheres - i,
    {
        let sph: Sphere = scene.spheres[i];
        let roots = intersect_ray_sphere(origin, direction, &sph);
        let t1 = roots.0;
        let t2 = roots.1;
        if t_min < t1 && t1 < TMAX && t1 < closest_t {
            closest_t = t1;
            closest_i = i;
            background = false;
        }
        if t_min < t2 && t2 < TMAX && t2 < closest_t {
            closest_t = t2;
            closest_i = i;
            background = false;
        }
        proof {
            assert(scene.spheres@.take(i as int + 1).drop_last() =~= scene.spheres@.take(
                i as int));
            assert(scene.spheres@.take(i as int + 1).last() == scene.spheres@[i as int]);
        }
        i = i + 1;
    }
    proof {
        assert(scene.spheres@.take(nspheres as int) =~= scene.spheres@);
    }
    if background {
        Color { r: 255, g: 255, b: 255 }
    } else {
        let sph: Sphere = scene.spheres[closest_i];
        let p: Vec3 = origin.add(direction.scale(closest_t));
        let n: Vec3 = p.sub(sph.center);
        let illum: i64 = compute_lighting(p, n, scene);
        Color {
            r: shade_channel(sph.color.r, illum),
            g: shade_channel(sph.color.g, illum),
            b: shade_channel(sph.color.b, illum),
        }
    }
}

} // verus!

