//! Tests for the geometry kernel and the ray-sphere intersection solver.

use raycast::math::isqrt;
use raycast::scene::{Color, Sphere};
use raycast::vec3::Vec3;
use raycast::{SCALE, TMAX, intersect_ray_sphere};

fn v(x: i64, y: i64, z: i64) -> Vec3 {
    Vec3 { x, y, z }
}

fn unit_sphere_at_origin() -> Sphere {
    Sphere { center: v(0, 0, 0), radius: SCALE, color: Color { r: 255, g: 0, b: 0 } }
}

#[test]
fn isqrt_exact_squares() {
    assert_eq!(isqrt(0), 0);
    assert_eq!(isqrt(1), 1);
    assert_eq!(isqrt(3), 1);
    assert_eq!(isqrt(4), 2);
    assert_eq!(isqrt(144), 12);
    assert_eq!(isqrt(145), 12);
    assert_eq!(isqrt((1u128 << 60) * (1u128 << 60)), 1u128 << 60);
}

#[test]
fn vector_operations_exact() {
    let a = v(3 * SCALE, 4 * SCALE, 0);
    let b = v(1, 2, 3);
    assert_eq!(a.add(b), v(3 * SCALE + 1, 4 * SCALE + 2, 3));
    assert_eq!(a.sub(b), v(3 * SCALE - 1, 4 * SCALE - 2, -3));
    assert_eq!(a.dot(a), (9 + 16) * (SCALE as i128) * (SCALE as i128));
    // a 3-4-5 triangle: the norm is exact
    assert_eq!(a.norm(), 5 * SCALE);
    assert_eq!(v(0, SCALE, SCALE).norm(), 92681);
    // scaling by 1.5 in fixed point
    assert_eq!(v(2 * SCALE, 0, -4 * SCALE).scale(3 * SCALE / 2), v(3 * SCALE, 0, -6 * SCALE));
}

#[test]
fn axis_ray_roots_are_distance_plus_minus_radius() {
    // from five units away straight at a unit sphere: far root 6, near root 4
    let roots = intersect_ray_sphere(v(0, 0, 5 * SCALE), v(0, 0, -SCALE), &unit_sphere_at_origin());
    assert_eq!(roots, (6 * SCALE, 4 * SCALE));
}

#[test]
fn grazing_hit_gives_equal_roots() {
    // through the center of a unit sphere three units ahead: both roots valid
    let sph = Sphere { center: v(0, -SCALE, 3 * SCALE), radius: SCALE, color: Color { r: 255, g: 0, b: 0 } };
    let roots = intersect_ray_sphere(v(0, 0, 0), v(0, 0, SCALE), &sph);
    assert_eq!(roots, (3 * SCALE, 3 * SCALE));
}

#[test]
fn passing_ray_returns_sentinel_pair() {
    // two units of lateral offset against a unit radius: no real intersection
    let roots = intersect_ray_sphere(
        v(2 * SCALE, 0, 5 * SCALE),
        v(0, 0, -SCALE),
        &unit_sphere_at_origin(),
    );
    assert_eq!(roots, (TMAX, TMAX));
}

#[test]
fn sphere_behind_origin_has_negative_roots() {
    let sph = Sphere { center: v(0, 0, -3 * SCALE), radius: SCALE, color: Color { r: 9, g: 9, b: 9 } };
    let roots = intersect_ray_sphere(v(0, 0, 0), v(0, 0, SCALE), &sph);
    assert_eq!(roots, (-2 * SCALE, -4 * SCALE));
}
