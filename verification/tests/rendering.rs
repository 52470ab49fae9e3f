//! Tests for lighting, ray tracing and the render driver.

use raycast::vec3::Vec3;
use raycast::{
    Color, Light, SCALE, Scene, Sphere, Viewport, compute_lighting, light_contribution,
    render_scene, trace_ray,
};

fn v(x: i64, y: i64, z: i64) -> Vec3 {
    Vec3 { x, y, z }
}

fn sphere(x: i64, y: i64, z: i64, color: Color) -> Sphere {
    Sphere { center: v(x * SCALE, y * SCALE, z * SCALE), radius: SCALE, color }
}

fn red() -> Color {
    Color { r: 255, g: 0, b: 0 }
}

fn green() -> Color {
    Color { r: 0, g: 255, b: 0 }
}

fn blue() -> Color {
    Color { r: 0, g: 0, b: 255 }
}

fn white() -> Color {
    Color { r: 255, g: 255, b: 255 }
}

fn full_ambient() -> Vec<Light> {
    vec![Light::Ambient { intensity: SCALE }]
}

fn viewport() -> Viewport {
    Viewport { d: SCALE, width: SCALE, height: SCALE }
}

#[test]
fn ambient_light_sums_directly() {
    let scene = Scene {
        spheres: vec![],
        lights: vec![
            Light::Ambient { intensity: 13107 },
            Light::Ambient { intensity: 100 },
        ],
    };
    assert_eq!(compute_lighting(v(0, 0, 0), v(0, SCALE, 0), &scene), 13207);
}

#[test]
fn directional_light_head_on_contributes_full_intensity() {
    let light = Light::Directional { intensity: 32768, direction: v(0, 0, SCALE) };
    assert_eq!(light_contribution(&light, v(0, 0, 0), v(0, 0, SCALE)), 32768);
}

#[test]
fn light_behind_surface_contributes_nothing() {
    let light = Light::Directional { intensity: 32768, direction: v(0, 0, -SCALE) };
    assert_eq!(light_contribution(&light, v(0, 0, 0), v(0, 0, SCALE)), 0);
}

#[test]
fn point_light_at_forty_five_degrees() {
    // light vector (0, 1, 1) against normal (0, 1, 0): cosine just under
    // sqrt(2)/2 after rounding
    let light = Light::Point { intensity: 39321, position: v(0, SCALE, SCALE) };
    assert_eq!(light_contribution(&light, v(0, 0, 0), v(0, SCALE, 0)), 27804);
}

#[test]
fn point_light_at_hit_point_is_skipped() {
    // a degenerate zero light vector must contribute nothing, not divide
    // by zero
    let p = v(SCALE, 2 * SCALE, 3 * SCALE);
    let light = Light::Point { intensity: 39321, position: p };
    assert_eq!(light_contribution(&light, p, v(0, SCALE, 0)), 0);
}

#[test]
fn brighter_point_light_never_darkens() {
    let p = v(0, 0, 3 * SCALE);
    let n = v(0, SCALE, 0);
    let mut dims: Vec<i64> = vec![0, 1000, 13107, 39321, 65536, 131072];
    let mut last: i64 = -1;
    dims.sort();
    for intensity in dims {
        let scene = Scene {
            spheres: vec![],
            lights: vec![Light::Point { intensity, position: v(2 * SCALE, SCALE, 0) }],
        };
        let illum = compute_lighting(p, n, &scene);
        assert!(illum >= last);
        last = illum;
    }
}

#[test]
fn background_when_nothing_is_hit() {
    let empty = Scene { spheres: vec![], lights: full_ambient() };
    assert_eq!(trace_ray(v(0, 0, 0), v(0, 0, SCALE), SCALE, &empty), white());
    let aside = Scene { spheres: vec![sphere(5, 5, 5, red())], lights: full_ambient() };
    assert_eq!(trace_ray(v(0, 0, 0), v(0, 0, SCALE), SCALE, &aside), white());
}

#[test]
fn sphere_before_t_min_is_ignored() {
    // the sphere sits between the eye and the viewport plane
    let near = Scene {
        spheres: vec![Sphere { center: v(0, 0, 0), radius: SCALE / 2, color: red() }],
        lights: full_ambient(),
    };
    assert_eq!(trace_ray(v(0, 0, 0), v(0, 0, SCALE), SCALE, &near), white());
}

#[test]
fn coincident_spheres_tie_breaks_to_first() {
    let scene = Scene {
        spheres: vec![sphere(0, 0, 3, red()), sphere(0, 0, 3, blue())],
        lights: full_ambient(),
    };
    assert_eq!(trace_ray(v(0, 0, 0), v(0, 0, SCALE), SCALE, &scene), red());
    let swapped = Scene {
        spheres: vec![sphere(0, 0, 3, blue()), sphere(0, 0, 3, red())],
        lights: full_ambient(),
    };
    assert_eq!(trace_ray(v(0, 0, 0), v(0, 0, SCALE), SCALE, &swapped), blue());
}

#[test]
fn nearer_sphere_wins() {
    let scene = Scene {
        spheres: vec![sphere(0, 0, 7, blue()), sphere(0, 0, 3, red())],
        lights: full_ambient(),
    };
    assert_eq!(trace_ray(v(0, 0, 0), v(0, 0, SCALE), SCALE, &scene), red());
}

#[test]
fn overflowing_illumination_clamps_channels() {
    // ambient 2.0: every channel doubles, clamped at 255 instead of
    // wrapping
    let scene = Scene {
        spheres: vec![sphere(0, 0, 3, Color { r: 200, g: 10, b: 0 })],
        lights: vec![Light::Ambient { intensity: 2 * SCALE }],
    };
    assert_eq!(
        trace_ray(v(0, 0, 0), v(0, 0, SCALE), SCALE, &scene),
        Color { r: 255, g: 20, b: 0 }
    );
}

#[test]
fn center_pixel_of_classic_scene_is_red() {
    let spheres = vec![sphere(0, -1, 3, red()), sphere(2, 0, 4, blue()), sphere(-2, 0, 4, green())];
    let vp = viewport();
    // the ray through the canvas center is straight ahead
    let dir = vp.canvas_to_viewport(0, 0, 600, 600);
    assert_eq!(dir, v(0, 0, SCALE));
    let scene = Scene { spheres: spheres.clone(), lights: full_ambient() };
    assert_eq!(trace_ray(v(0, 0, 0), dir, vp.d, &scene), red());
    // under the classic three lights the center pixel is shaded red
    let lit = Scene {
        spheres,
        lights: vec![
            Light::Ambient { intensity: 13107 },
            Light::Point { intensity: 39321, position: v(2 * SCALE, SCALE, 0) },
            Light::Directional { intensity: 13107, direction: v(SCALE, 4 * SCALE, 4 * SCALE) },
        ],
    };
    assert_eq!(trace_ray(v(0, 0, 0), dir, vp.d, &lit), Color { r: 127, g: 0, b: 0 });
}

#[test]
fn canvas_to_viewport_maps_offsets() {
    let vp = viewport();
    assert_eq!(vp.canvas_to_viewport(150, -100, 600, 600), v(16384, -10922, SCALE));
    assert_eq!(vp.canvas_to_viewport(-300, 299, 600, 600), v(-32768, 32658, SCALE));
}

#[test]
fn render_fills_every_pixel_once() {
    let scene = Scene { spheres: vec![], lights: full_ambient() };
    let canvas = render_scene(&scene, &viewport(), v(0, 0, 0), 4, 6);
    assert_eq!(canvas.width, 4);
    assert_eq!(canvas.height, 6);
    assert_eq!(canvas.pixels.len(), 24);
    for px in &canvas.pixels {
        assert_eq!(*px, white());
    }
}

#[test]
fn render_matches_per_pixel_trace() {
    let scene = Scene {
        spheres: vec![sphere(0, 0, 3, red()), sphere(1, 1, 4, blue())],
        lights: full_ambient(),
    };
    let vp = viewport();
    let origin = v(0, 0, 0);
    let cw: usize = 8;
    let ch: usize = 8;
    let canvas = render_scene(&scene, &vp, origin, cw, ch);
    for sy in 0..ch {
        for sx in 0..cw {
            let cx = sx as i64 - (cw / 2) as i64;
            let cy = (ch / 2) as i64 - sy as i64 - 1;
            let dir = vp.canvas_to_viewport(cx, cy, cw as i64, ch as i64);
            let expect = trace_ray(origin, dir, vp.d, &scene);
            assert_eq!(canvas.pixels[sy * cw + sx], expect);
        }
    }
}

#[test]
fn render_orientation_is_flipped_y() {
    // a sphere above the axis must land in the upper screen rows
    let scene = Scene { spheres: vec![sphere(0, 1, 3, red())], lights: full_ambient() };
    let canvas = render_scene(&scene, &viewport(), v(0, 0, 0), 10, 10);
    let top: usize = 0;
    let bottom: usize = 9;
    let mut top_has_red = false;
    let mut bottom_has_red = false;
    for sx in 0..10 {
        if canvas.pixels[top * 10 + sx] == red() {
            top_has_red = true;
        }
        if canvas.pixels[bottom * 10 + sx] == red() {
            bottom_has_red = true;
        }
    }
    assert!(top_has_red);
    assert!(!bottom_has_red);
}
