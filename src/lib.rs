use vstd::prelude::*;

/// Bounding volume hierarchy: surface-area-heuristic build, flat depth-first layout,
/// and nearest-hit traversal.
pub mod bvh;
/// The program's settings.
pub mod cmdargs;
/// Color spaces and how RGB values become spectra.
pub mod color;
/// Fixed-point points, boxes and rays, and the primitives a ray can hit.
pub mod geometry;
/// Where the rendered image goes.
pub mod image_writer;
/// Choice of light transport algorithm.
pub mod integrator;
/// Tokens of the scene description text.
pub mod lexer;
/// Small integer helpers.
pub mod math;
/// The tile cursor that workers claim pixels from.
pub mod render_state;
/// Settings of a scene: camera, sampler, film.
pub mod scene_description;
/// Images sampled by materials.
pub mod texture;

verus! {

} // verus!
