//! The render driver: walks every pixel of the canvas, casts the camera
//! ray through the matching viewport point, and stores the traced color
//! at the flipped-Y pixel location. Every pixel is written exactly once.

use vstd::prelude::*;
use crate::math::{COORD_MAX, SCALE};
use crate::intersect::well_scaled;
use crate::scene::{CANVAS_MAX, Color, Scene, Viewport};
use crate::trace::{spec_trace_ray, trace_ray};
use crate::vec3::{V3, Vec3};

verus! {

/// A fixed-size pixel grid, row-major, fully populated by the renderer.
pub struct Canvas {
    pub width: usize,
    pub height: usize,
    pub pixels: Vec<Color>,
}

impl Canvas {
    /// Exactly one stored color per pixel.
    pub open spec fn wf(self) -> bool {
        self.pixels@.len() == self.width * self.height
    }

    /// The color stored for screen position `(sx, sy)`.
    pub open spec fn pixel_at(self, sx: int, sy: int) -> Color {
        self.pixels@[sy * self.width + sx]
    }
}

/// The color of screen pixel `(sx, sy)`: counting rows downward on screen
/// while world-up runs upward, the pixel sees the ray through canvas
/// offset `(sx - cw / 2, ch / 2 - sy - 1)`, cut off at the viewport plane.
pub open spec fn spec_pixel(
    scene: Scene,
    vp: Viewport,
    origin: V3,
    sx: int,
    sy: int,
    cw: int,
    ch: int,
) -> Color {
    let cx = sx - cw / 2;
    let cy = ch / 2 - sy - 1;
    spec_trace_ray(origin, vp.spec_direction(cx, cy, cw, ch), vp.d as int, scene)
}

/// A direction whose `z` component is at least one unit is well-scaled.
proof fn lemma_well_scaled_from_z(d: V3)
    requires
        d.z >= SCALE,
    ensures
        well_scaled(d),
{
    assert(d.x * d.x >= 0) by (nonlinear_arith);
    assert(d.y * d.y >= 0) by (nonlinear_arith);
    assert(d.z * d.z >= SCALE * SCALE) by (nonlinear_arith)
        requires
            d.z >= SCALE,
    ;
}

/// Renders the scene onto a `cw` by `ch` canvas (both sides even): every
/// pixel holds exactly the traced color of its camera ray.
pub fn render_scene(
    scene: &Scene,
    viewport: &Viewport,
    origin: Vec3,
    cw: usize,
    ch: usize,
) -> (canvas: Canvas)
    requires
        scene.wf(),
        viewport.wf(),
        origin@.bounded(COORD_MAX as int),
        0 < cw <= CANVAS_MAX,
        0 < ch <= CANVAS_MAX,
        cw % 2 == 0,
        ch % 2 == 0,
    ensures
        canvas.wf(),
        canvas.width == cw,
        canvas.height == ch,
        forall|sx: int, sy: int|
            0 <= sx < cw && 0 <= sy < ch ==> canvas.pixel_at(sx, sy) == spec_pixel(
                *scene,
                *viewport,
                origin@,
                sx,
                sy,
                cw as int,
                ch as int,
            ),
{
    let mut pixels: Vec<Color> = Vec::new();
    let mut sy: usize = 0;
    while sy < ch
        invariant
            scene.wf(),
            viewport.wf(),
            origin@.bounded(COORD_MAX as int),
            0 < cw <= CANVAS_MAX,
            0 < ch <= CANVAS_MAX,
            cw % 2 == 0,
            ch % 2 == 0,
            0 <= sy <= ch,
            pixels@.len() == sy * cw,
            forall|x: int, y: int|
                0 <= x < cw && 0 <= y < sy ==> #[trigger] pixels@[y * cw + x] == spec_pixel(
                    *scene,
                    *viewport,
                    origin@,
                    x,
                    y,
                    cw as int,
                    ch as int,
                ),
        decreases ch - sy,
    {
        let mut sx: usize = 0;
        while sx < cw
            invariant
                scene.wf(),
                viewport.wf(),
                origin@.bounded(COORD_MAX as int),
                0 < cw <= CANVAS_MAX,
                0 < ch <= CANVAS_MAX,
                cw % 2 == 0,
                ch % 2 == 0,
                0 <= sy < ch,
                0 <= sx <= cw,
                pixels@.len() == sy * cw + sx,
                forall|x: int, y: int|
                    0 <= x < cw && 0 <= y < sy ==> #[trigger] pixels@[y * cw + x] == spec_pixel(
                        *scene,
                        *viewport,
                        origin@,
                        x,
                        y,
                        cw as int,
                        ch as int,
                    ),
                forall|x: int|
                    0 <= x < sx ==> #[trigger] pixels@[sy * cw + x] == spec_pixel(
                        *scene,
                        *viewport,
                        origin@,
                        x,
                        sy as int,
                        cw as int,
                        ch as int,
                    ),
            decreases cw - sx,
        {
            let half_w: usize = cw / 2;
            let half_h: usize = ch / 2;
            let cx: i64 = sx as i64 - half_w as i64;
            let cy: i64 = half_h as i64 - sy as i64 - 1;
            let dir: Vec3 = viewport.canvas_to_viewport(cx, cy, cw as i64, ch as i64);
            proof {
                lemma_well_scaled_from_z(dir@);
            }
            let color: Color = trace_ray(origin, dir, viewport.d, scene);
            let ghost prev = pixels@;
            pixels.push(color);
            proof {
                assert forall|x: int, y: int| 0 <= x < cw && 0 <= y < sy implies #[trigger] pixels@[
                    y * cw + x] == spec_pixel(*scene, *viewport, origin@, x, y, cw as int,
                    ch as int) by {
                    assert(0 <= y * cw + x && y * cw + x < sy * cw + sx) by (nonlinear_arith)
                        requires
                            0 <= x < cw,
                            0 <= y < sy,
                            0 <= sx,
                    ;
                    assert(pixels@[y * cw + x] == prev[y * cw + x]);
                }
                assert forall|x: int| 0 <= x < sx + 1 implies #[trigger] pixels@[sy * cw + x]
                    == spec_pixel(*scene, *viewport, origin@, x, sy as int, cw as int,
                    ch as int) by {
                    assert(0 <= sy * cw) by (nonlinear_arith)
                        requires
                            0 <= sy,
                            0 <= cw,
                    ;
                    if x < sx {
                        assert(pixels@[sy * cw + x] == prev[sy * cw + x]);
                    } else {
                        assert(pixels@[sy * cw + x] == color);
                    }
                }
            }
            sx = sx + 1;
        }
        proof {
            assert((sy + 1) * cw == sy * cw + cw) by (nonlinear_arith);
        }
        sy = sy + 1;
    }
    proof {
        assert(ch * cw == cw * ch) by (nonlinear_arith);
    }
    Canvas { width: cw, height: ch, pixels }
}

} // verus!
