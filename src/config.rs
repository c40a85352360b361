//! Scene and noise selections.
use vstd::prelude::*;

verus! {

/// The demonstration scenes the renderer can build.
#[derive(Clone, Copy, Debug, PartialEq, Eq, Structural)]
pub enum Scene {
    BouncingSpheres,
    CheckeredSpheres,
    Earth,
    PerlinSpheres,
    Quads,
    Shapes,
    SimpleLight,
    CornellBox,
    CornellSmoke,
    FinalSceneLD,
    FinalSceneHD,
}

/// The flavours of Perlin noise a noise texture can show.
#[derive(Clone, Copy, Debug, PartialEq, Eq, Structural)]
pub enum NoiseType {
    HashedRandom,
    TrilinearInterpolation,
    LatticeRandomVectors,
    Turbulence,
    TurbulenceMarble,
}

impl NoiseType {
    /// Whether the noise reads random gradient vectors at the lattice points
    /// (rather than random scalars).
    pub fn uses_random_vectors(&self) -> (r: bool)
        ensures
            r == !(*self == NoiseType::HashedRandom || *self == NoiseType::TrilinearInterpolation),
    {
        match self {
            NoiseType::HashedRandom | NoiseType::TrilinearInterpolation => false,
            _ => true,
        }
    }
}

} // verus!
