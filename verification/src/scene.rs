//! The scene model: colors, spheres, lights, the viewport with its
//! pixel-to-direction projection, and the scene that ties them together.

use vstd::prelude::*;
use vstd::arithmetic::div_mod::lemma_div_multiples_vanish;
use crate::math::{COORD_MAX, SCALE, div_trunc, lemma_tdiv_bound, tdiv};
use crate::vec3::{V3, Vec3};

verus! {

/// Largest canvas side length accepted by the projector and the renderer.
pub const CANVAS_MAX: i64 = 32768;

/// An 8-bit-per-channel RGB color.
#[derive(Clone, Copy, PartialEq, Eq, Structural, Debug)]
pub struct Color {
    pub r: u8,
    pub g: u8,
    pub b: u8,
}

/// The fixed background color (white) of rays that hit nothing.
pub open spec fn background_color() -> Color {
    Color { r: 255, g: 255, b: 255 }
}

/// A sphere: center and radius in fixed-point world units, plus its
/// surface color. The carried data is immutable once constructed. There
/// is deliberately no specular exponent: no shading path here consumes
/// one, and a field nothing reads would only mislead.
#[derive(Clone, Copy, PartialEq, Eq, Structural, Debug)]
pub struct Sphere {
    pub center: Vec3,
    pub radius: i64,
    pub color: Color,
}

impl Sphere {
    /// A physical sphere: strictly positive radius, all magnitudes within
    /// the fixed-point working range.
    pub open spec fn wf(self) -> bool {
        0 < self.radius <= COORD_MAX && self.center@.bounded(COORD_MAX as int)
    }
}

/// A light source: ambient (unconditional), point (from a position) or
/// directional (fixed direction). Intensities are non-negative fixed-point
/// scalars.
#[derive(Clone, Copy, PartialEq, Eq, Structural, Debug)]
pub enum Light {
    Point { intensity: i64, position: Vec3 },
    Directional { intensity: i64, direction: Vec3 },
    Ambient { intensity: i64 },
}

impl Light {
    /// The light's intensity, whatever its shape.
    pub open spec fn intensity(self) -> int {
        match self {
            Light::Point { intensity, .. } => intensity as int,
            Light::Directional { intensity, .. } => intensity as int,
            Light::Ambient { intensity } => intensity as int,
        }
    }

    /// Non-negative intensity, any carried vector within the working range.
    pub open spec fn wf(self) -> bool {
        match self {
            Light::Point { intensity, position } => 0 <= intensity <= COORD_MAX
                && position@.bounded(COORD_MAX as int),
            Light::Directional { intensity, direction } => 0 <= intensity <= COORD_MAX
                && direction@.bounded(COORD_MAX as int),
            Light::Ambient { intensity } => 0 <= intensity <= COORD_MAX,
        }
    }
}

/// An ordered sequence of spheres and a sequence of lights. The sphere
/// order matters only for the closest-hit tie-break.
pub struct Scene {
    pub spheres: Vec<Sphere>,
    pub lights: Vec<Light>,
}

impl Scene {
    /// All spheres and lights well-formed; the light count is capped so
    /// that the summed illumination always fits the result type.
    pub open spec fn wf(self) -> bool {
        (forall|i: int| 0 <= i < self.spheres@.len() ==> self.spheres@[i].wf())
            && (forall|i: int| 0 <= i < self.lights@.len() ==> self.lights@[i].wf())
            && self.lights@.len() <= 0x100000000
    }
}

/// The camera's projection plane: at distance `d` along the view axis,
/// spanning `width` by `height` world units, centered on the optical axis.
#[derive(Clone, Copy, PartialEq, Eq, Structural, Debug)]
pub struct Viewport {
    pub d: i64,
    pub width: i64,
    pub height: i64,
}

impl Viewport {
    /// Distance at least one world unit (which keeps every camera ray
    /// well-scaled for the fixed-point solver), spans positive and within
    /// the working range.
    pub open spec fn wf(self) -> bool {
        SCALE <= self.d <= COORD_MAX && 0 < self.width <= COORD_MAX && 0 < self.height
            <= COORD_MAX
    }

    /// Direction of the ray through pixel offset `(cx, cy)` of a `cw` by
    /// `ch` canvas: `(cx * width / cw, cy * height / ch, d)`, not
    /// normalized.
    pub open spec fn spec_direction(self, cx: int, cy: int, cw: int, ch: int) -> V3 {
        V3 {
            x: tdiv(cx * self.width, cw),
            y: tdiv(cy * self.height, ch),
            z: self.d as int,
        }
    }

    /// Maps a pixel coordinate, expressed as a signed offset from the
    /// canvas center, to the world-space direction of its camera ray.
    pub fn canvas_to_viewport(&self, cx: i64, cy: i64, cw: i64, ch: i64) -> (r: Vec3)
        requires
            self.wf(),
            0 < cw <= CANVAS_MAX,
            0 < ch <= CANVAS_MAX,
            -cw <= 2 * cx <= cw,
            -ch <= 2 * cy <= ch,
        ensures
            r@ == self.spec_direction(cx as int, cy as int, cw as int, ch as int),
            r@.bounded(COORD_MAX as int),
            r@.z >= SCALE,
    {
        proof {
            lemma_canvas_coord(cx as int, self.width as int, cw as int);
            lemma_canvas_coord(cy as int, self.height as int, ch as int);
        }
        Vec3 {
            x: div_trunc((cx as i128) * (self.width as i128), cw as i128) as i64,
            y: div_trunc((cy as i128) * (self.height as i128), ch as i128) as i64,
            z: self.d,
        }
    }
}

/// A pixel offset within the canvas, times a span within the working
/// range, divided by the canvas side, stays within the working range.
proof fn lemma_canvas_coord(c: int, w: int, n: int)
    requires
        0 < n,
        -n <= 2 * c <= n,
        0 < w <= COORD_MAX,
    ensures
        -(n * COORD_MAX) <= c * w <= n * COORD_MAX,
        -COORD_MAX <= tdiv(c * w, n) <= COORD_MAX,
{
    assert(-(n * COORD_MAX) <= c * w <= n * COORD_MAX) by (nonlinear_arith)
        requires
            -n <= 2 * c <= n,
            0 < n,
            0 < w <= COORD_MAX,
    ;
    lemma_tdiv_bound(c * w, n, n * COORD_MAX);
    lemma_div_multiples_vanish(COORD_MAX as int, n);
    assert(n * COORD_MAX == COORD_MAX * n) by (nonlinear_arith);
}

} // verus!
