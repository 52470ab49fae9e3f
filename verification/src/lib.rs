//! A ray-casting renderer over fixed-point arithmetic.
//!
//! Scenes are made of spheres lit by ambient, point and directional
//! lights. All quantities are fixed-point numbers: an `i64` holding the
//! real value times `SCALE`. Every stage of the pipeline — camera ray
//! generation, ray-sphere intersection, closest-hit selection, diffuse
//! lighting and the per-pixel render loop — is specified exactly and
//! verified, including that the closest-hit search is deterministic
//! (earliest sphere wins ties), that rays hitting nothing produce the
//! fixed background color, that illumination never shrinks when a light
//! brightens, and that color channels clamp instead of wrapping.

pub mod intersect;
pub mod lighting;
pub mod math;
pub mod render;
pub mod scene;
pub mod trace;
pub mod vec3;

pub use intersect::intersect_ray_sphere;
pub use lighting::compute_lighting;
pub use lighting::light_contribution;
pub use math::COORD_MAX;
pub use math::SCALE;
pub use math::TMAX;
pub use render::Canvas;
pub use render::render_scene;
pub use scene::CANVAS_MAX;
pub use scene::Color;
pub use scene::Light;
pub use scene::Scene;
pub use scene::Sphere;
pub use scene::Viewport;
pub use trace::trace_ray;
pub use vec3::Vec3;
