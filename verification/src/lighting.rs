//! Diffuse illumination: the scalar light factor at a hit point, summed
//! over all lights of the scene. Ambient lights contribute their intensity
//! unconditionally; point and directional lights contribute their
//! intensity times the cosine of the angle between the surface normal and
//! the light vector, and nothing when the surface faces away. The cosine
//! divides by the true Euclidean length of each vector (the square root
//! of the full sum of squares), so neither the normal nor the light
//! vector needs to arrive normalized; a zero-length light vector simply
//! contributes nothing rather than dividing by zero.

use vstd::prelude::*;
use vstd::arithmetic::div_mod::{
    lemma_div_denominator, lemma_div_is_ordered, lemma_div_is_ordered_by_denominator,
    lemma_div_multiples_vanish, lemma_div_pos_is_pos, lemma_fundamental_div_mod,
    lemma_hoist_over_denominator,
};
use vstd::arithmetic::mul::{lemma_mul_inequality, lemma_mul_nonnegative};
use crate::math::{
    COORD_MAX, POINT_MAX, SCALE, div_trunc, is_sqrt, lemma_mul_abs_bound, lemma_sqrt_exists,
    lemma_sqrt_pos, lemma_tdiv_bound, lemma_tdiv_mono, lemma_tdiv_multiple, tdiv,
};
use crate::scene::{Light, Scene};
use crate::vec3::{V3, Vec3, lemma_dot_bounds, lemma_self_dot_nonneg};

verus! {

/// The diffuse term for one light: `intensity * cos` where `cos` is the
/// cosine of the angle between the normal `n` and the light vector `l`
/// (in fixed point, capped at one), or zero when `n . l <= 0`.
pub open spec fn spec_diffuse(intensity: int, n: V3, l: V3) -> int {
    let raw = n.dot(l);
    if raw <= 0 {
        0
    } else {
        let cosf = tdiv(raw * (SCALE as int), n.norm() * l.norm());
        let cosc = if cosf > SCALE {
            SCALE as int
        } else {
            cosf
        };
        tdiv(intensity * cosc, SCALE as int)
    }
}

/// What one light adds to the illumination at point `p` with normal `n`.
pub open spec fn light_contrib(light: Light, p: V3, n: V3) -> int {
    match light {
        Light::Ambient { intensity } => intensity as int,
        Light::Point { intensity, position } => spec_diffuse(
            intensity as int,
            n,
            position@.sub(p),
        ),
        Light::Directional { intensity, direction } => spec_diffuse(intensity as int, n, direction@),
    }
}

/// Total illumination at point `p` with normal `n`: the sum of every
/// light's contribution, in order.
pub open spec fn spec_lighting(p: V3, n: V3, lights: Seq<Light>) -> int
    decreases lights.len(),
{
    if lights.len() == 0 {
        0
    } else {
        spec_lighting(p, n, lights.drop_last()) + light_contrib(lights.last(), p, n)
    }
}

/// A vector with a positive dot product against anything is itself
/// non-zero, so its raw squared length is at least 1.
proof fn lemma_dot_pos_len(n: V3, l: V3)
    requires
        n.dot(l) > 0,
    ensures
        n.dot(n) >= 1,
        l.dot(l) >= 1,
{
    assert(!(n.x == 0 && n.y == 0 && n.z == 0));
    assert(!(l.x == 0 && l.y == 0 && l.z == 0));
    assert(n.x != 0 ==> n.x * n.x >= 1) by (nonlinear_arith);
    assert(n.y != 0 ==> n.y * n.y >= 1) by (nonlinear_arith);
    assert(n.z != 0 ==> n.z * n.z >= 1) by (nonlinear_arith);
    assert(l.x != 0 ==> l.x * l.x >= 1) by (nonlinear_arith);
    assert(l.y != 0 ==> l.y * l.y >= 1) by (nonlinear_arith);
    assert(l.z != 0 ==> l.z * l.z >= 1) by (nonlinear_arith);
    lemma_self_dot_nonneg(n);
    lemma_self_dot_nonneg(l);
    assert(n.x * n.x >= 0 && n.y * n.y >= 0 && n.z * n.z >= 0) by (nonlinear_arith);
    assert(l.x * l.x >= 0 && l.y * l.y >= 0 && l.z * l.z >= 0) by (nonlinear_arith);
}

/// When the normal and the light vector make a positive dot product, both
/// norms are at least 1 and the cosine denominator is positive.
proof fn lemma_norms_pos(n: V3, l: V3)
    requires
        n.dot(l) > 0,
    ensures
        1 <= n.norm(),
        1 <= l.norm(),
        1 <= n.norm() * l.norm(),
        is_sqrt(n.dot(n), n.norm()),
        is_sqrt(l.dot(l), l.norm()),
{
    lemma_dot_pos_len(n, l);
    lemma_sqrt_exists(n.dot(n));
    lemma_sqrt_exists(l.dot(l));
    lemma_sqrt_pos(n.dot(n), n.norm());
    lemma_sqrt_pos(l.dot(l), l.norm());
    lemma_mul_inequality(1, n.norm(), l.norm());
}

/// The diffuse term is non-negative, at most the intensity, and monotone
/// in the intensity.
pub proof fn lemma_diffuse_monotone(i1: int, i2: int, n: V3, l: V3)
    requires
        0 <= i1 <= i2,
    ensures
        0 <= spec_diffuse(i1, n, l) <= spec_diffuse(i2, n, l),
        spec_diffuse(i2, n, l) <= i2,
{
    let s = SCALE as int;
    let raw = n.dot(l);
    if raw <= 0 {
    } else {
        lemma_norms_pos(n, l);
        let denom = n.norm() * l.norm();
        let cosf = tdiv(raw * s, denom);
        lemma_mul_nonnegative(raw, s);
        lemma_div_pos_is_pos(raw * s, denom);
        let cosc = if cosf > SCALE {
            s
        } else {
            cosf
        };
        assert(0 <= cosc <= s);
        lemma_mul_inequality(i1, i2, cosc);
        assert(i1 * cosc >= 0) by (nonlinear_arith)
            requires
                i1 >= 0,
                cosc >= 0,
        ;
        lemma_tdiv_mono(i1 * cosc, i2 * cosc, s);
        assert(i2 * cosc <= i2 * s) by (nonlinear_arith)
            requires
                cosc <= s,
                i2 >= 0,
        ;
        lemma_tdiv_mono(i2 * cosc, i2 * s, s);
        lemma_tdiv_multiple(i2, s);
    }
}

/// The diffuse term, computed so that every intermediate fits in `i128`:
/// the cosine numerator `raw * SCALE` is divided by the two norms one
/// after the other, and the cosine is capped at one whole unit.
fn diffuse(intensity: i64, n: Vec3, l: Vec3) -> (r: i64)
    requires
        0 <= intensity <= COORD_MAX,
        n@.bounded(POINT_MAX as int + COORD_MAX as int),
        l@.bounded(POINT_MAX as int + COORD_MAX as int),
    ensures
        r == spec_diffuse(intensity as int, n@, l@),
        0 <= r <= intensity,
{
    let s128: i128 = SCALE as i128;
    proof {
        lemma_dot_bounds(n@, l@, POINT_MAX as int + COORD_MAX as int,
            POINT_MAX as int + COORD_MAX as int);
    }
    let raw: i128 = n.dot(l);
    if raw <= 0 {
        return 0;
    }
    proof {
        lemma_norms_pos(n@, l@);
    }
    let nn: i64 = n.norm();
    let ln: i64 = l.norm();
    let ghost denom: int = nn as int * ln as int;
    let q1: i128 = div_trunc(raw, nn as i128);
    proof {
        lemma_div_pos_is_pos(raw as int, nn as int);
    }
    let cosc: i128;
    if q1 >= 8000000000000000000 {
        // raw / nn is at least any possible l-norm, so the true cosine
        // quotient is at least one unit: the cap applies.
        proof {
            lemma_fundamental_div_mod(raw as int, nn as int);
            assert(raw * s128 >= (q1 * nn as int) * s128) by (nonlinear_arith)
                requires
                    raw as int >= q1 as int * nn as int,
                    s128 > 0,
            ;
            lemma_div_is_ordered((q1 as int * nn as int) * s128, raw * s128, denom);
            assert((q1 as int * nn as int) * s128 == (q1 * s128) * (nn as int)) by (nonlinear_arith);
            lemma_div_denominator((q1 * s128) * (nn as int), nn as int, ln as int);
            assert((nn as int) * (q1 * s128) == (q1 * s128) * (nn as int)) by (nonlinear_arith);
            lemma_div_multiples_vanish(q1 as int * s128, nn as int);
            lemma_div_is_ordered(8000000000000000000int * s128, q1 * s128, ln as int);
            lemma_div_is_ordered_by_denominator(8000000000000000000int * s128, ln as int,
                8000000000000000000int);
            assert(tdiv(raw * (SCALE as int), denom) >= SCALE);
        }
        cosc = s128;
    } else {
        let r1: i128 = raw % (nn as i128);
        let num: i128 = q1 * s128 + div_trunc(r1 * s128, nn as i128);
        proof {
            // num == (raw * SCALE) / nn
            lemma_fundamental_div_mod(raw as int, nn as int);
            assert(raw * s128 == r1 * s128 + (q1 * s128) * (nn as int)) by (nonlinear_arith)
                requires
                    raw as int == nn as int * q1 as int + r1 as int,
            ;
            lemma_hoist_over_denominator(r1 * s128, q1 * s128, nn as nat);
            lemma_mul_nonnegative(raw as int, s128 as int);
            lemma_div_pos_is_pos(r1 * s128, nn as int);
            lemma_tdiv_bound(r1 * s128, nn as int, (nn as int) * s128);
            lemma_div_multiples_vanish(s128 as int, nn as int);
            // then (num / ln) == (raw * SCALE) / (nn * ln)
            lemma_div_denominator(raw * s128, nn as int, ln as int);
            lemma_div_pos_is_pos(raw * s128, denom);
        }
        let cosf: i128 = div_trunc(num, ln as i128);
        cosc = if cosf > s128 {
            s128
        } else {
            cosf
        };
    }
    assert(0 <= cosc <= s128);
    assert(cosc == {
        let cosf = tdiv(raw * (SCALE as int), n@.norm() * l@.norm());
        if cosf > SCALE {
            SCALE as int
        } else {
            cosf
        }
    });
    proof {
        lemma_mul_abs_bound(intensity as int, COORD_MAX as int, cosc as int, SCALE as int);
    }
    let term: i128 = div_trunc((intensity as i128) * cosc, s128);
    proof {
        lemma_mul_nonnegative(intensity as int, cosc as int);
        lemma_tdiv_mono(0, intensity as int * cosc as int, s128 as int);
        assert(intensity as int * cosc as int <= intensity as int * s128) by (nonlinear_arith)
            requires
                cosc as int <= s128 as int,
                intensity as int >= 0,
        ;
        lemma_tdiv_mono(intensity as int * cosc as int, intensity as int * s128, s128 as int);
        lemma_tdiv_multiple(intensity as int, s128 as int);
    }
    term as i64
}

/// One light's contribution at point `p` with surface normal `n`: its
/// intensity for ambient lights, the diffuse term against `position - p`
/// for point lights and against the fixed direction for directional ones.
pub fn light_contribution(light: &Light, point: Vec3, normal: Vec3) -> (r: i64)
    requires
        light.wf(),
        point@.bounded(POINT_MAX as int),
        normal@.bounded(POINT_MAX as int),
    ensures
        r == light_contrib(*light, point@, normal@),
        0 <= r <= COORD_MAX,
{
    match light {
        Light::Ambient { intensity } => *intensity,
        Light::Point { intensity, position } => {
            let l = position.sub(point);
            proof {
                lemma_diffuse_monotone(*intensity as int, *intensity as int, normal@, l@);
            }
            diffuse(*intensity, normal, l)
        },
        Light::Directional { intensity, direction } => {
            proof {
                lemma_diffuse_monotone(*intensity as int, *intensity as int, normal@, direction@);
            }
            diffuse(*intensity, normal, *direction)
        },
    }
}

/// Sums every light's contribution at `point` with normal `normal`; the
/// result is the exact illumination factor of the model, and non-negative.
pub fn compute_lighting(point: Vec3, normal: Vec3, scene: &Scene) -> (r: i64)
    requires
        scene.wf(),
        point@.bounded(POINT_MAX as int),
        normal@.bounded(POINT_MAX as int),
    ensures
        r == spec_lighting(point@, normal@, scene.lights@),
        0 <= r,
{
    let mut total: i64 = 0;
    let mut i: usize = 0;
    let nlights: usize = scene.lights.len();
    while i < nlights
        invariant
            scene.wf(),
            point@.bounded(POINT_MAX as int),
            normal@.bounded(POINT_MAX as int),
            nlights == scene.lights@.len(),
            0 <= i <= nlights,
            total == spec_lighting(point@, normal@, scene.lights@.take(i as int)),
            0 <= total <= i as int * COORD_MAX as int,
        decreases nlights - i,
    {
        let light = scene.lights[i];
        let term = light_contribution(&light, point, normal);
        proof {
            assert(scene.lights@.take(i as int + 1).drop_last() =~= scene.lights@.take(i as int));
            assert(scene.lights@.take(i as int + 1).last() == scene.lights@[i as int]);
        }
        total = total + term;
        i = i + 1;
    }
    proof {
        assert(scene.lights@.take(nlights as int) =~= scene.lights@);
    }
    total
}

/// Raising one point light's intensity, everything else fixed, never
/// lowers the illumination at any point.
pub proof fn lemma_lighting_monotone(
    p: V3,
    n: V3,
    lights1: Seq<Light>,
    lights2: Seq<Light>,
    k: int,
    i1: i64,
    i2: i64,
    pos: Vec3,
)
    requires
        lights1.len() == lights2.len(),
        0 <= k < lights1.len(),
        forall|j: int| 0 <= j < lights1.len() && j != k ==> lights1[j] == lights2[j],
        lights1[k] == (Light::Point { intensity: i1, position: pos }),
        lights2[k] == (Light::Point { intensity: i2, position: pos }),
        0 <= i1 <= i2,
    ensures
        spec_lighting(p, n, lights1) <= spec_lighting(p, n, lights2),
    decreases lights1.len(),
{
    let last = lights1.len() - 1;
    if k == last {
        assert(lights1.drop_last() =~= lights2.drop_last());
        lemma_diffuse_monotone(i1 as int, i2 as int, n, pos@.sub(p));
    } else {
        assert(lights1.last() == lights2.last());
        assert(lights1.drop_last()[k] == lights1[k]);
        assert(lights2.drop_last()[k] == lights2[k]);
        lemma_lighting_monotone(p, n, lights1.drop_last(), lights2.drop_last(), k, i1, i2, pos);
    }
}

} // verus!
