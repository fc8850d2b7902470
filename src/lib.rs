//! The integer side of a ray-tracing engine that renders scene previews and
//! simulates RF signal coverage: ground-grid indexing and the homogenization
//! search that fills unreached cells, RGB8 buffer layout and footprint
//! drawing, choice of emitting and obstructing primitives, output naming,
//! and the sky description. The floating-point transport that drives them
//! lives with the program that uses this library.
use vstd::prelude::*;

pub mod config;
pub mod grid;
pub mod materials;
pub mod naming;
pub mod raster;

verus! {

} // verus!
