//! A software triangle rasterizer's integer core: the color and depth
//! buffers with their depth test, scanline filling, line drawing, texture
//! lookup, color packing, clip codes and render modes.
use vstd::prelude::*;

pub mod calc;
pub mod color;
pub mod device;
pub mod pipeline;

verus! {

} // verus!
