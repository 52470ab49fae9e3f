//! Ray-sphere intersection: the quadratic solve for the two ray parameters
//! at which a ray meets a sphere, or the `TMAX` sentinel pair when the
//! discriminant shows there is no real intersection.

use vstd::prelude::*;
use vstd::arithmetic::div_mod::{lemma_div_is_ordered_by_denominator, lemma_div_pos_is_pos};
use crate::math::{
    COORD_MAX, ROOT_MAX, SCALE, TMAX, div_trunc, is_sqrt, isqrt, lemma_mul_abs_bound,
    lemma_sqrt_bound, lemma_sqrt_is, lemma_tdiv_bound, lemma_tdiv_mono, lemma_tdiv_multiple,
    sqrt_floor, tdiv,
};
use crate::scene::Sphere;
use crate::vec3::{V3, Vec3, lemma_dot_bounds, lemma_self_dot_nonneg};

verus! {

/// Quadratic coefficient `a = direction . direction` (fixed-point).
pub open spec fn quad_a(d: V3) -> int {
    tdiv(d.dot(d), SCALE as int)
}

/// Quadratic coefficient `b = 2 ((origin - center) . direction)`.
pub open spec fn quad_b(o: V3, d: V3, sph: Sphere) -> int {
    2 * tdiv(o.sub(sph.center@).dot(d), SCALE as int)
}

/// Quadratic coefficient `c = (origin - center) . (origin - center) - radius^2`.
pub open spec fn quad_c(o: V3, sph: Sphere) -> int {
    let oc = o.sub(sph.center@);
    tdiv(oc.dot(oc), SCALE as int) - tdiv(sph.radius * sph.radius, SCALE as int)
}

/// The discriminant `b^2 - 4 a c` of the intersection quadratic.
pub open spec fn spec_discriminant(o: V3, d: V3, sph: Sphere) -> int {
    let s = SCALE as int;
    tdiv(quad_b(o, d, sph) * quad_b(o, d, sph), s) - 4 * tdiv(quad_a(d) * quad_c(o, sph), s)
}

/// The two roots `((-b + sqrt(disc)) / 2a, (-b - sqrt(disc)) / 2a)`, in that
/// order, or the sentinel pair `(TMAX, TMAX)` when the discriminant is
/// negative.
pub open spec fn spec_roots(o: V3, d: V3, sph: Sphere) -> (int, int) {
    let s = SCALE as int;
    let disc = spec_discriminant(o, d, sph);
    if disc < 0 {
        (TMAX as int, TMAX as int)
    } else {
        let a = quad_a(d);
        let b = quad_b(o, d, sph);
        let sq = sqrt_floor(disc * s);
        (tdiv((-b + sq) * s, 2 * a), tdiv((-b - sq) * s, 2 * a))
    }
}

/// A ray direction is well-scaled when its raw squared length is at least
/// `SCALE * SCALE` (one world unit), which keeps the quadratic's leading
/// coefficient away from zero.
pub open spec fn well_scaled(d: V3) -> bool {
    d.dot(d) >= SCALE * SCALE
}

/// Solves the intersection quadratic for a ray and a sphere. Returns the
/// two roots in the order `(-b + sqrt) / 2a, (-b - sqrt) / 2a`, or
/// `(TMAX, TMAX)` when the discriminant is negative; any returned root
/// short of the sentinel lies within `ROOT_MAX`.
pub fn intersect_ray_sphere(origin: Vec3, direction: Vec3, sphere: &Sphere) -> (r: (i64, i64))
    requires
        origin@.bounded(COORD_MAX as int),
        direction@.bounded(COORD_MAX as int),
        sphere.wf(),
        well_scaled(direction@),
    ensures
        r.0 == spec_roots(origin@, direction@, *sphere).0,
        r.1 == spec_roots(origin@, direction@, *sphere).1,
        spec_discriminant(origin@, direction@, *sphere) < 0 ==> r.0 == TMAX && r.1 == TMAX,
        spec_discriminant(origin@, direction@, *sphere) >= 0 ==> -ROOT_MAX <= r.0 <= ROOT_MAX
            && -ROOT_MAX <= r.1 <= ROOT_MAX,
{
    let s128: i128 = SCALE as i128;
    let oc: Vec3 = origin.sub(sphere.center);
    assert(oc@.bounded(1073741824int));
    let dd: i128 = direction.dot(direction);
    let ocd: i128 = oc.dot(direction);
    let ococ: i128 = oc.dot(oc);
    proof {
        lemma_dot_bounds(direction@, direction@, COORD_MAX as int, COORD_MAX as int);
        lemma_dot_bounds(oc@, direction@, 1073741824int, COORD_MAX as int);
        lemma_dot_bounds(oc@, oc@, 1073741824int, 1073741824int);
        lemma_self_dot_nonneg(oc@);
        // |dd| <= 3 * 2^58, |ocd| <= 3 * 2^59, 0 <= ococ <= 3 * 2^60
        lemma_tdiv_bound(dd as int, SCALE as int, 864691128455135232int);
        lemma_tdiv_bound(ocd as int, SCALE as int, 1729382256910270464int);
        lemma_tdiv_bound(ococ as int, SCALE as int, 3458764513820540928int);
        // a >= SCALE because the direction is well-scaled
        lemma_tdiv_multiple(SCALE as int, SCALE as int);
        lemma_tdiv_mono((SCALE * SCALE) as int, dd as int, SCALE as int);
    }
    let a: i128 = div_trunc(dd, s128);
    let b: i128 = 2 * div_trunc(ocd, s128);
    proof {
        lemma_mul_abs_bound(sphere.radius as int, COORD_MAX as int, sphere.radius as int,
            COORD_MAX as int);
    }
    let rr: i128 = (sphere.radius as i128) * (sphere.radius as i128);
    proof {
        lemma_tdiv_bound(rr as int, SCALE as int, 288230376151711744int);
    }
    let c: i128 = div_trunc(ococ, s128) - div_trunc(rr, s128);
    // |a| <= 3 * 2^42, |b| <= 3 * 2^44, |c| <= 3 * 2^44 + 2^42
    assert(65536 <= a <= 13194139533312);
    assert(-52776558133248 <= b <= 52776558133248);
    assert(-57174604644352 <= c <= 57174604644352);
    proof {
        lemma_mul_abs_bound(b as int, 52776558133248int, b as int, 52776558133248int);
        lemma_mul_abs_bound(a as int, 13194139533312int, c as int, 57174604644352int);
        lemma_tdiv_bound(b as int * b as int, SCALE as int, 52776558133248int * 52776558133248int);
        lemma_tdiv_bound(a as int * c as int, SCALE as int, 13194139533312int * 57174604644352int);
    }
    let disc: i128 = div_trunc(b * b, s128) - 4 * div_trunc(a * c, s128);
    // |disc| <= 300 * 2^68, so disc * SCALE < 2^94 = ROOT_MAX^2
    assert(-88544371553805847756800 <= disc <= 88544371553805847756800);
    if disc < 0 {
        return (TMAX, TMAX);
    }
    assert(disc * (SCALE as int) <= ROOT_MAX as int * ROOT_MAX as int);
    let x: u128 = (disc * s128) as u128;
    let sq: i128 = isqrt(x) as i128;
    proof {
        lemma_sqrt_bound(x as int, sq as int, ROOT_MAX as int);
        assert(-193514046488576 <= -b + sq <= 193514046488576);
        assert(-193514046488576 <= -b - sq <= 193514046488576);
        // numerators stay within 11 * 2^44 * SCALE; 2a >= 2 * SCALE
        lemma_tdiv_bound((-b + sq) * (SCALE as int), 2 * a as int,
            193514046488576int * (SCALE as int));
        lemma_tdiv_bound((-b - sq) * (SCALE as int), 2 * a as int,
            193514046488576int * (SCALE as int));
        lemma_div_is_ordered_by_denominator(193514046488576int * (SCALE as int), 131072int,
            2 * a as int);
        lemma_div_pos_is_pos(193514046488576int * (SCALE as int), 2 * a as int);
    }
    let t1: i128 = div_trunc((-b + sq) * s128, 2 * a);
    let t2: i128 = div_trunc((-b - sq) * s128, 2 * a);
    (t1 as i64, t2 as i64)
}

/// For a sphere at the origin with whole-unit radius `ru` and a ray shot
/// straight at it along the axis from whole-unit distance `du > ru`, the
/// solve is exact: the roots are `du + ru` (first) and `du - ru` (second),
/// the far and near surface crossings.
pub proof fn lemma_axis_intersection(o: V3, d: V3, sph: Sphere, ru: int, du: int)
    requires
        0 < ru < du,
        sph.center@ == (V3 { x: 0, y: 0, z: 0 }),
        sph.radius == ru * SCALE,
        o == (V3 { x: 0, y: 0, z: du * SCALE }),
        d == (V3 { x: 0, y: 0, z: -(SCALE as int) }),
    ensures
        spec_discriminant(o, d, sph) >= 0,
        spec_roots(o, d, sph).0 == (du + ru) * SCALE,
        spec_roots(o, d, sph).1 == (du - ru) * SCALE,
{
    let s = SCALE as int;
    let oc = o.sub(sph.center@);
    assert(d.dot(d) == s * s) by (nonlinear_arith)
        requires
            d == (V3 { x: 0, y: 0, z: -s }),
    ;
    lemma_tdiv_multiple(s, s);
    assert(quad_a(d) == s);
    assert(oc.dot(d) == (-(du * s)) * s) by (nonlinear_arith)
        requires
            oc == (V3 { x: 0, y: 0, z: du * s }),
            d == (V3 { x: 0, y: 0, z: -s }),
    ;
    lemma_tdiv_multiple(-(du * s), s);
    assert(quad_b(o, d, sph) == 2 * (-(du * s)));
    let b = 2 * (-(du * s));
    assert(oc.dot(oc) == (du * du * s) * s) by (nonlinear_arith)
        requires
            oc == (V3 { x: 0, y: 0, z: du * s }),
    ;
    lemma_tdiv_multiple(du * du * s, s);
    assert(sph.radius * sph.radius == (ru * ru * s) * s) by (nonlinear_arith)
        requires
            sph.radius == ru * s,
    ;
    lemma_tdiv_multiple(ru * ru * s, s);
    assert(quad_c(o, sph) == du * du * s - ru * ru * s);
    let c = du * du * s - ru * ru * s;
    assert(b * b == (4 * (du * du) * s) * s) by (nonlinear_arith)
        requires
            b == 2 * (-(du * s)),
    ;
    lemma_tdiv_multiple(4 * (du * du) * s, s);
    assert(quad_a(d) * c == ((du * du * s - ru * ru * s)) * s) by (nonlinear_arith)
        requires
            quad_a(d) == s,
            c == du * du * s - ru * ru * s,
    ;
    lemma_tdiv_multiple(du * du * s - ru * ru * s, s);
    let disc = spec_discriminant(o, d, sph);
    assert(disc == 4 * (du * du) * s - 4 * (du * du * s - ru * ru * s));
    assert(disc == 4 * (ru * ru) * s) by (nonlinear_arith)
        requires
            disc == 4 * (du * du) * s - 4 * (du * du * s - ru * ru * s),
    ;
    assert(disc >= 0) by (nonlinear_arith)
        requires
            disc == 4 * (ru * ru) * s,
            ru > 0,
            s > 0,
    ;
    // the discriminant times SCALE is the perfect square (2 ru SCALE)^2
    assert(disc * s == (2 * ru * s) * (2 * ru * s)) by (nonlinear_arith)
        requires
            disc == 4 * (ru * ru) * s,
    ;
    assert(0 <= 2 * ru * s);
    assert((2 * ru * s) * (2 * ru * s) < (2 * ru * s + 1) * (2 * ru * s + 1)) by (nonlinear_arith)
        requires
            0 <= 2 * ru * s,
    ;
    assert(is_sqrt(disc * s, 2 * ru * s));
    lemma_sqrt_is(disc * s, 2 * ru * s);
    let sq = 2 * ru * s;
    assert((-b + sq) * s == ((du + ru) * s) * (2 * s)) by (nonlinear_arith)
        requires
            b == 2 * (-(du * s)),
            sq == 2 * ru * s,
    ;
    lemma_tdiv_multiple((du + ru) * s, 2 * s);
    assert((-b - sq) * s == ((du - ru) * s) * (2 * s)) by (nonlinear_arith)
        requires
            b == 2 * (-(du * s)),
            sq == 2 * ru * s,
    ;
    lemma_tdiv_multiple((du - ru) * s, 2 * s);
}

/// A ray running parallel to the axis misses an origin-centered sphere
/// whenever its lateral whole-unit offset `xu` exceeds the whole-unit
/// radius `ru`: the discriminant is negative and both returned roots are
/// the sentinel.
pub proof fn lemma_passing_ray_misses(o: V3, d: V3, sph: Sphere, ru: int, du: int, xu: int)
    requires
        0 < ru < xu,
        0 < du,
        sph.center@ == (V3 { x: 0, y: 0, z: 0 }),
        sph.radius == ru * SCALE,
        o == (V3 { x: xu * SCALE, y: 0, z: du * SCALE }),
        d == (V3 { x: 0, y: 0, z: -(SCALE as int) }),
    ensures
        spec_discriminant(o, d, sph) < 0,
        spec_roots(o, d, sph).0 == TMAX,
        spec_roots(o, d, sph).1 == TMAX,
{
    let s = SCALE as int;
    let oc = o.sub(sph.center@);
    assert(d.dot(d) == s * s) by (nonlinear_arith)
        requires
            d == (V3 { x: 0, y: 0, z: -s }),
    ;
    lemma_tdiv_multiple(s, s);
    assert(quad_a(d) == s);
    assert(oc.dot(d) == (-(du * s)) * s) by (nonlinear_arith)
        requires
            oc == (V3 { x: xu * s, y: 0, z: du * s }),
            d == (V3 { x: 0, y: 0, z: -s }),
    ;
    lemma_tdiv_multiple(-(du * s), s);
    let b = 2 * (-(du * s));
    assert(quad_b(o, d, sph) == b);
    assert(oc.dot(oc) == ((xu * xu + du * du) * s) * s) by (nonlinear_arith)
        requires
            oc == (V3 { x: xu * s, y: 0, z: du * s }),
    ;
    lemma_tdiv_multiple((xu * xu + du * du) * s, s);
    assert(sph.radius * sph.radius == (ru * ru * s) * s) by (nonlinear_arith)
        requires
            sph.radius == ru * s,
    ;
    lemma_tdiv_multiple(ru * ru * s, s);
    let c = (xu * xu + du * du) * s - ru * ru * s;
    assert(quad_c(o, sph) == c);
    assert(b * b == (4 * (du * du) * s) * s) by (nonlinear_arith)
        requires
            b == 2 * (-(du * s)),
    ;
    lemma_tdiv_multiple(4 * (du * du) * s, s);
    assert(quad_a(d) * c == c * s) by (nonlinear_arith)
        requires
            quad_a(d) == s,
    ;
    lemma_tdiv_multiple(c, s);
    let disc = spec_discriminant(o, d, sph);
    assert(disc == 4 * (du * du) * s - 4 * c);
    assert(disc == 4 * s * (ru * ru - xu * xu)) by (nonlinear_arith)
        requires
            disc == 4 * (du * du) * s - 4 * ((xu * xu + du * du) * s - ru * ru * s),
    ;
    assert(disc < 0) by (nonlinear_arith)
        requires
            disc == 4 * s * (ru * ru - xu * xu),
            0 < ru < xu,
            s > 0,
    ;
}

} // verus!
