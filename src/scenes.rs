//! The integer side of the demonstration scenes: image size, sampling and
//! bounce budgets, the texture the surfaces share, and whether the objects sit
//! behind a bounding-volume hierarchy. Geometry and colours are set up by the
//! caller from these.
use crate::camera::samples_grid_side;
use crate::config::NoiseType;
use vstd::prelude::*;

verus! {

/// Whether scenes with many objects are wrapped in a hierarchy.
pub const ENABLE_BVH: bool = true;

/// Octaves summed by turbulent noise.
pub const TURBULENCE_DEPTH: usize = 7;

/// Noise flavour of the noise texture.
pub const NOISE_TYPE: NoiseType = NoiseType::TurbulenceMarble;

/// The texture every surface of a scene samples.
#[derive(Clone, Copy, Debug, PartialEq, Eq, Structural)]
pub enum SharedTexture {
    Checker,
    Image,
    Noise { noise: NoiseType, turbulence_depth: usize },
}

/// Settings a scene hands to the camera and the world builder.
#[derive(Clone, Copy, Debug, PartialEq, Eq, Structural)]
pub struct SceneSettings {
    /// Image width in pixels.
    pub image_width: usize,
    /// Sample budget per pixel.
    pub samples_per_pixel: usize,
    /// Side of the stratified sub-pixel grid actually sampled.
    pub grid_side: usize,
    /// Most bounces a path may take.
    pub max_depth: usize,
    /// Rays that miss are shaded by the sky gradient (else by a fixed colour).
    pub enable_gradient_sky: bool,
    /// The objects are put behind a hierarchy before rendering.
    pub use_bvh: bool,
    /// Number of primitives in the world.
    pub object_count: usize,
    pub texture: SharedTexture,
}

/// Settings with a stratified grid of side 10, as a budget of 100 samples gives.
pub open spec fn standard_settings(
    sky: bool,
    bvh: bool,
    objects: usize,
    texture: SharedTexture,
) -> SceneSettings {
    SceneSettings {
        image_width: 400,
        samples_per_pixel: 100,
        grid_side: 10,
        max_depth: 50,
        enable_gradient_sky: sky,
        use_bvh: bvh,
        object_count: objects,
        texture,
    }
}

fn standard(sky: bool, bvh: bool, objects: usize, texture: SharedTexture) -> (r: SceneSettings)
    ensures
        r == standard_settings(sky, bvh, objects, texture),
{
    let samples_per_pixel: usize = 100;
    let grid_side = samples_grid_side(samples_per_pixel);
    proof {
        if grid_side < 10 {
            assert(grid_side + 1 <= 10);
            assert((grid_side + 1) * (grid_side + 1) <= 100) by (nonlinear_arith)
                requires
                    grid_side + 1 <= 10,
            ;
        } else if grid_side > 10 {
            assert(grid_side * grid_side > 100) by (nonlinear_arith)
                requires
                    grid_side > 10,
            ;
        }
    }
    SceneSettings {
        image_width: 400,
        samples_per_pixel,
        grid_side,
        max_depth: 50,
        enable_gradient_sky: sky,
        use_bvh: bvh,
        object_count: objects,
        texture,
    }
}

/// Two large spheres sharing one checker texture, behind a hierarchy.
pub fn checkered_spheres() -> (r: SceneSettings)
    ensures
        r == standard_settings(true, ENABLE_BVH, 2, SharedTexture::Checker),
{
    standard(true, ENABLE_BVH, 2, SharedTexture::Checker)
}

/// One globe with an image texture, lit by a fixed background colour.
pub fn earth() -> (r: SceneSettings)
    ensures
        r == standard_settings(false, false, 1, SharedTexture::Image),
{
    standard(false, false, 1, SharedTexture::Image)
}

/// Ground and a sphere sharing one noise texture.
pub fn perlin_spheres() -> (r: SceneSettings)
    ensures
        r == standard_settings(
            true,
            false,
            2,
            SharedTexture::Noise { noise: NOISE_TYPE, turbulence_depth: TURBULENCE_DEPTH },
        ),
{
    standard(
        true,
        false,
        2,
        SharedTexture::Noise { noise: NOISE_TYPE, turbulence_depth: TURBULENCE_DEPTH },
    )
}

} // verus!
