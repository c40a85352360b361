//! Integer core of an offline path tracer: order keys for doubles and boxes
//! of them, the bounding-volume hierarchy's arena build and closest-hit
//! traversal (with the linear scan it must agree with), Perlin lattice
//! tables, texture lookups, scene settings and the plain-text PPM encoding of
//! a finished image. Floating-point arithmetic is left to the caller, which
//! hands the library order keys and the results of its own tests.
use vstd::prelude::*;

pub mod bvh;
pub mod camera;
pub mod config;
pub mod keybox;
pub mod perlin;
pub mod ppm;
pub mod scenes;
pub mod texture;
pub mod traversal;

verus! {

} // verus!
